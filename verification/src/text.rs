//! Character-level text model: whitespace and digit classes, trimming,
//! line splitting and joining, all stated over `Seq<char>`.
use vstd::prelude::*;

verus! {

// ---------------------------------------------------------------------------
// Character classes
// ---------------------------------------------------------------------------

/// Unicode `White_Space`: what `char::is_whitespace`, `str::trim` and the
/// `\s` class of a Unicode regular expression accept.
pub open spec fn is_space(c: char) -> bool {
    let u = c as u32;
    ||| (0x9 <= u && u <= 0xD)
    ||| u == 0x20
    ||| u == 0x85
    ||| u == 0xA0
    ||| u == 0x1680
    ||| (0x2000 <= u && u <= 0x200A)
    ||| u == 0x2028
    ||| u == 0x2029
    ||| u == 0x202F
    ||| u == 0x205F
    ||| u == 0x3000
}

/// ASCII whitespace as `u8::is_ascii_whitespace` defines it (no vertical tab).
pub open spec fn is_ascii_space(c: char) -> bool {
    c == ' ' || c == '\t' || c == '\n' || c == '\x0C' || c == '\r'
}

/// An ASCII decimal digit.
pub open spec fn is_ascii_digit(c: char) -> bool {
    '0' <= c && c <= '9'
}

/// The numeric value of an ASCII digit.
pub open spec fn digit_value(c: char) -> int {
    (c as u32) - 0x30
}

/// Unicode general category `Nd` (decimal number), the `\d` class of a
/// Unicode regular expression.
pub open spec fn is_decimal(c: char) -> bool {
    let u = c as u32;
    ||| (0x30 <= u && u <= 0x39) || (0x660 <= u && u <= 0x669) || (0x6F0 <= u && u <= 0x6F9)
    ||| (0x7C0 <= u && u <= 0x7C9) || (0x966 <= u && u <= 0x96F) || (0x9E6 <= u && u <= 0x9EF)
    ||| (0xA66 <= u && u <= 0xA6F) || (0xAE6 <= u && u <= 0xAEF) || (0xB66 <= u && u <= 0xB6F)
    ||| (0xBE6 <= u && u <= 0xBEF) || (0xC66 <= u && u <= 0xC6F) || (0xCE6 <= u && u <= 0xCEF)
    ||| (0xD66 <= u && u <= 0xD6F) || (0xDE6 <= u && u <= 0xDEF) || (0xE50 <= u && u <= 0xE59)
    ||| (0xED0 <= u && u <= 0xED9) || (0xF20 <= u && u <= 0xF29) || (0x1040 <= u && u <= 0x1049)
    ||| (0x1090 <= u && u <= 0x1099) || (0x17E0 <= u && u <= 0x17E9) || (0x1810 <= u && u <= 0x1819)
    ||| (0x1946 <= u && u <= 0x194F) || (0x19D0 <= u && u <= 0x19D9) || (0x1A80 <= u && u <= 0x1A89)
    ||| (0x1A90 <= u && u <= 0x1A99) || (0x1B50 <= u && u <= 0x1B59) || (0x1BB0 <= u && u <= 0x1BB9)
    ||| (0x1C40 <= u && u <= 0x1C49) || (0x1C50 <= u && u <= 0x1C59) || (0xA620 <= u && u <= 0xA629)
    ||| (0xA8D0 <= u && u <= 0xA8D9) || (0xA900 <= u && u <= 0xA909) || (0xA9D0 <= u && u <= 0xA9D9)
    ||| (0xA9F0 <= u && u <= 0xA9F9) || (0xAA50 <= u && u <= 0xAA59) || (0xABF0 <= u && u <= 0xABF9)
    ||| (0xFF10 <= u && u <= 0xFF19) || (0x104A0 <= u && u <= 0x104A9) || (0x10D30 <= u && u <= 0x10D39)
    ||| (0x10D40 <= u && u <= 0x10D49) || (0x11066 <= u && u <= 0x1106F) || (0x110F0 <= u && u <= 0x110F9)
    ||| (0x11136 <= u && u <= 0x1113F) || (0x111D0 <= u && u <= 0x111D9) || (0x112F0 <= u && u <= 0x112F9)
    ||| (0x11450 <= u && u <= 0x11459) || (0x114D0 <= u && u <= 0x114D9) || (0x11650 <= u && u <= 0x11659)
    ||| (0x116C0 <= u && u <= 0x116C9) || (0x116D0 <= u && u <= 0x116E3) || (0x11730 <= u && u <= 0x11739)
    ||| (0x118E0 <= u && u <= 0x118E9) || (0x11950 <= u && u <= 0x11959) || (0x11BF0 <= u && u <= 0x11BF9)
    ||| (0x11C50 <= u && u <= 0x11C59) || (0x11D50 <= u && u <= 0x11D59) || (0x11DA0 <= u && u <= 0x11DA9)
    ||| (0x11F50 <= u && u <= 0x11F59) || (0x16130 <= u && u <= 0x16139) || (0x16A60 <= u && u <= 0x16A69)
    ||| (0x16AC0 <= u && u <= 0x16AC9) || (0x16B50 <= u && u <= 0x16B59) || (0x16D70 <= u && u <= 0x16D79)
    ||| (0x1CCF0 <= u && u <= 0x1CCF9) || (0x1D7CE <= u && u <= 0x1D7FF) || (0x1E140 <= u && u <= 0x1E149)
    ||| (0x1E2F0 <= u && u <= 0x1E2F9) || (0x1E4F0 <= u && u <= 0x1E4F9) || (0x1E5F1 <= u && u <= 0x1E5FA)
    ||| (0x1E950 <= u && u <= 0x1E959) || (0x1FBF0 <= u && u <= 0x1FBF9)
}

pub fn char_is_space(c: char) -> (b: bool)
    ensures
        b == is_space(c),
{
    let u = c as u32;
    (0x9 <= u && u <= 0xD) || u == 0x20 || u == 0x85 || u == 0xA0 || u == 0x1680 || (0x2000
        <= u && u <= 0x200A) || u == 0x2028 || u == 0x2029 || u == 0x202F || u == 0x205F || u
        == 0x3000
}

pub fn char_is_ascii_space(c: char) -> (b: bool)
    ensures
        b == is_ascii_space(c),
{
    c == ' ' || c == '\t' || c == '\n' || c == '\x0C' || c == '\r'
}

pub fn char_is_ascii_digit(c: char) -> (b: bool)
    ensures
        b == is_ascii_digit(c),
{
    '0' <= c && c <= '9'
}

pub fn char_is_decimal(c: char) -> (b: bool)
    ensures
        b == is_decimal(c),
{
    let u = c as u32;
    (0x30 <= u && u <= 0x39) || (0x660 <= u && u <= 0x669) || (0x6F0 <= u && u <= 0x6F9) || (
    0x7C0 <= u && u <= 0x7C9) || (0x966 <= u && u <= 0x96F) || (0x9E6 <= u && u <= 0x9EF) || (
    0xA66 <= u && u <= 0xA6F) || (0xAE6 <= u && u <= 0xAEF) || (0xB66 <= u && u <= 0xB6F) || (
    0xBE6 <= u && u <= 0xBEF) || (0xC66 <= u && u <= 0xC6F) || (0xCE6 <= u && u <= 0xCEF) || (
    0xD66 <= u && u <= 0xD6F) || (0xDE6 <= u && u <= 0xDEF) || (0xE50 <= u && u <= 0xE59) || (
    0xED0 <= u && u <= 0xED9) || (0xF20 <= u && u <= 0xF29) || (0x1040 <= u && u <= 0x1049) || (
    0x1090 <= u && u <= 0x1099) || (0x17E0 <= u && u <= 0x17E9) || (0x1810 <= u && u <= 0x1819)
        || (0x1946 <= u && u <= 0x194F) || (0x19D0 <= u && u <= 0x19D9) || (0x1A80 <= u && u
        <= 0x1A89) || (0x1A90 <= u && u <= 0x1A99) || (0x1B50 <= u && u <= 0x1B59) || (0x1BB0
        <= u && u <= 0x1BB9) || (0x1C40 <= u && u <= 0x1C49) || (0x1C50 <= u && u <= 0x1C59) || (
    0xA620 <= u && u <= 0xA629) || (0xA8D0 <= u && u <= 0xA8D9) || (0xA900 <= u && u <= 0xA909)
        || (0xA9D0 <= u && u <= 0xA9D9) || (0xA9F0 <= u && u <= 0xA9F9) || (0xAA50 <= u && u
        <= 0xAA59) || (0xABF0 <= u && u <= 0xABF9) || (0xFF10 <= u && u <= 0xFF19) || (0x104A0
        <= u && u <= 0x104A9) || (0x10D30 <= u && u <= 0x10D39) || (0x10D40 <= u && u
        <= 0x10D49) || (0x11066 <= u && u <= 0x1106F) || (0x110F0 <= u && u <= 0x110F9) || (
    0x11136 <= u && u <= 0x1113F) || (0x111D0 <= u && u <= 0x111D9) || (0x112F0 <= u && u
        <= 0x112F9) || (0x11450 <= u && u <= 0x11459) || (0x114D0 <= u && u <= 0x114D9) || (
    0x11650 <= u && u <= 0x11659) || (0x116C0 <= u && u <= 0x116C9) || (0x116D0 <= u && u
        <= 0x116E3) || (0x11730 <= u && u <= 0x11739) || (0x118E0 <= u && u <= 0x118E9) || (
    0x11950 <= u && u <= 0x11959) || (0x11BF0 <= u && u <= 0x11BF9) || (0x11C50 <= u && u
        <= 0x11C59) || (0x11D50 <= u && u <= 0x11D59) || (0x11DA0 <= u && u <= 0x11DA9) || (
    0x11F50 <= u && u <= 0x11F59) || (0x16130 <= u && u <= 0x16139) || (0x16A60 <= u && u
        <= 0x16A69) || (0x16AC0 <= u && u <= 0x16AC9) || (0x16B50 <= u && u <= 0x16B59) || (
    0x16D70 <= u && u <= 0x16D79) || (0x1CCF0 <= u && u <= 0x1CCF9) || (0x1D7CE <= u && u
        <= 0x1D7FF) || (0x1E140 <= u && u <= 0x1E149) || (0x1E2F0 <= u && u <= 0x1E2F9) || (
    0x1E4F0 <= u && u <= 0x1E4F9) || (0x1E5F1 <= u && u <= 0x1E5FA) || (0x1E950 <= u && u
        <= 0x1E959) || (0x1FBF0 <= u && u <= 0x1FBF9)
}

// ---------------------------------------------------------------------------
// Conversions between `str`/`String` and `Vec<char>`
// ---------------------------------------------------------------------------

/// Appends one character to a string (`String::push`).
#[verifier::external_body]
pub(crate) fn push_char(s: &mut String, c: char)
    ensures
        final(s)@ == old(s)@.push(c),
{
    s.push(c);
}

/// The characters of a string slice, in order.
pub fn chars_of(s: &str) -> (v: Vec<char>)
    ensures
        v@ == s@,
{
    let mut v: Vec<char> = Vec::new();
    for c in it: s.chars()
        invariant
            v@ == it.seq().take(it.index() as int),
    {
        v.push(c);
    }
    v
}

/// The string made of the given characters.
pub fn string_of(v: &[char]) -> (s: String)
    ensures
        s@ == v@,
{
    let mut s = String::new();
    let mut i: usize = 0;
    while i < v.len()
        invariant
            i <= v.len(),
            s@ == v@.take(i as int),
        decreases v.len() - i,
    {
        push_char(&mut s, v[i]);
        assert(v@.take(i + 1) =~= v@.take(i as int).push(v@[i as int]));
        i = i + 1;
    }
    assert(v@.take(v.len() as int) =~= v@);
    s
}

/// A copy of `v[from..to]`.
pub fn sub_chars(v: &[char], from: usize, to: usize) -> (r: Vec<char>)
    requires
        from <= to <= v.len(),
    ensures
        r@ == v@.subrange(from as int, to as int),
{
    let mut r: Vec<char> = Vec::new();
    let mut i: usize = from;
    while i < to
        invariant
            from <= i <= to <= v.len(),
            r@ == v@.subrange(from as int, i as int),
        decreases to - i,
    {
        r.push(v[i]);
        assert(v@.subrange(from as int, i + 1) =~= v@.subrange(from as int, i as int).push(
            v@[i as int],
        ));
        i = i + 1;
    }
    r
}

/// Appends all characters of `w` to `v`.
pub fn extend_chars(v: &mut Vec<char>, w: &[char])
    ensures
        final(v)@ == old(v)@ + w@,
{
    let ghost start = v@;
    let mut i: usize = 0;
    while i < w.len()
        invariant
            i <= w.len(),
            v@ == start + w@.take(i as int),
        decreases w.len() - i,
    {
        v.push(w[i]);
        assert(w@.take(i + 1) =~= w@.take(i as int).push(w@[i as int]));
        i = i + 1;
    }
    assert(w@.take(w.len() as int) =~= w@);
}

/// Whether two character sequences are equal.
pub fn chars_eq(a: &[char], b: &[char]) -> (r: bool)
    ensures
        r == (a@ == b@),
{
    if a.len() != b.len() {
        return false;
    }
    let mut i: usize = 0;
    while i < a.len()
        invariant
            a.len() == b.len(),
            i <= a.len(),
            forall|j: int| 0 <= j < i ==> a@[j] == b@[j],
        decreases a.len() - i,
    {
        if a[i] != b[i] {
            return false;
        }
        i = i + 1;
    }
    assert(a@ =~= b@);
    true
}

// ---------------------------------------------------------------------------
// Trimming
// ---------------------------------------------------------------------------

/// `str::trim_start`: drops leading whitespace.
pub open spec fn trim_start(s: Seq<char>) -> Seq<char>
    decreases s.len(),
{
    if s.len() > 0 && is_space(s[0]) {
        trim_start(s.drop_first())
    } else {
        s
    }
}

/// `str::trim_end`: drops trailing whitespace.
pub open spec fn trim_end(s: Seq<char>) -> Seq<char>
    decreases s.len(),
{
    if s.len() > 0 && is_space(s.last()) {
        trim_end(s.drop_last())
    } else {
        s
    }
}

/// `str::trim`: drops whitespace at both ends.
pub open spec fn trim(s: Seq<char>) -> Seq<char> {
    trim_end(trim_start(s))
}

/// Whether `s` begins with `p`.
pub open spec fn starts_with(s: Seq<char>, p: Seq<char>) -> bool {
    p.len() <= s.len() && s.take(p.len() as int) == p
}

pub proof fn lemma_trim_start_at(s: Seq<char>, k: int)
    requires
        0 <= k <= s.len(),
        forall|j: int| 0 <= j < k ==> is_space(#[trigger] s[j]),
        k == s.len() || !is_space(s[k]),
    ensures
        trim_start(s) == s.skip(k),
    decreases k,
{
    if k == 0 {
        assert(s.skip(0) =~= s);
    } else {
        let t = s.drop_first();
        assert forall|j: int| 0 <= j < k - 1 implies is_space(#[trigger] t[j]) by {
            assert(t[j] == s[j + 1]);
        }
        lemma_trim_start_at(t, k - 1);
        assert(t.skip(k - 1) =~= s.skip(k));
    }
}

pub proof fn lemma_trim_end_at(s: Seq<char>, k: int)
    requires
        0 <= k <= s.len(),
        forall|j: int| k <= j < s.len() ==> is_space(#[trigger] s[j]),
        k == 0 || !is_space(s[k - 1]),
    ensures
        trim_end(s) == s.take(k),
    decreases s.len() - k,
{
    if k == s.len() {
        assert(s.take(k) =~= s);
    } else {
        let t = s.drop_last();
        assert forall|j: int| k <= j < t.len() implies is_space(#[trigger] t[j]) by {
            assert(t[j] == s[j]);
        }
        lemma_trim_end_at(t, k);
        assert(t.take(k) =~= s.take(k));
    }
}

/// The bounds of the trimmed part of `v`: `trim(v) == v[start..end]`.
pub fn trim_bounds(v: &[char]) -> (r: (usize, usize))
    ensures
        r.0 <= r.1 <= v.len(),
        trim_start(v@) == v@.skip(r.0 as int),
        trim(v@) == v@.subrange(r.0 as int, r.1 as int),
        r.0 == r.1 || (!is_space(v@[r.0 as int]) && !is_space(v@[r.1 - 1])),
{
    let mut start: usize = 0;
    while start < v.len() && char_is_space(v[start])
        invariant
            start <= v.len(),
            forall|j: int| 0 <= j < start ==> is_space(#[trigger] v@[j]),
        decreases v.len() - start,
    {
        start = start + 1;
    }
    proof {
        lemma_trim_start_at(v@, start as int);
    }
    let mut end: usize = v.len();
    while end > start && char_is_space(v[end - 1])
        invariant
            start <= end <= v.len(),
            forall|j: int| end <= j < v.len() ==> is_space(#[trigger] v@[j]),
        decreases end,
    {
        end = end - 1;
    }
    proof {
        let t = v@.skip(start as int);
        let k = end - start;
        assert forall|j: int| k <= j < t.len() implies is_space(#[trigger] t[j]) by {
            assert(t[j] == v@[j + start]);
        }
        if k > 0 {
            assert(t[k - 1] == v@[end - 1]);
        }
        lemma_trim_end_at(t, k);
        assert(t.take(k) =~= v@.subrange(start as int, end as int));
    }
    (start, end)
}

/// `str::trim` on characters.
pub fn trim_chars(v: &[char]) -> (r: Vec<char>)
    ensures
        r@ == trim(v@),
{
    let (a, b) = trim_bounds(v);
    sub_chars(v, a, b)
}

/// Whether `v` begins with `p`.
pub fn chars_start_with(v: &[char], p: &[char]) -> (r: bool)
    ensures
        r == starts_with(v@, p@),
{
    if p.len() > v.len() {
        return false;
    }
    let mut i: usize = 0;
    while i < p.len()
        invariant
            p.len() <= v.len(),
            i <= p.len(),
            forall|j: int| 0 <= j < i ==> v@[j] == p@[j],
        decreases p.len() - i,
    {
        if v[i] != p[i] {
            assert(v@.take(p.len() as int)[i as int] != p@[i as int]);
            return false;
        }
        i = i + 1;
    }
    assert(v@.take(p.len() as int) =~= p@);
    true
}

// ---------------------------------------------------------------------------
// Lines
// ---------------------------------------------------------------------------

/// Index of the first `'\n'` in `s`, or `s.len()` when there is none.
pub open spec fn newline_pos(s: Seq<char>) -> int
    decreases s.len(),
{
    if s.len() == 0 {
        0
    } else if s[0] == '\n' {
        0
    } else {
        1 + newline_pos(s.drop_first())
    }
}

/// Drops one trailing `'\r'`.
pub open spec fn strip_cr(s: Seq<char>) -> Seq<char> {
    if s.len() > 0 && s.last() == '\r' {
        s.drop_last()
    } else {
        s
    }
}

/// `str::lines`: pieces between `'\n'`s, each without a `'\r'` that stood
/// before its `'\n'`; a final empty piece is not a line.
pub open spec fn lines_of(s: Seq<char>) -> Seq<Seq<char>>
    decreases s.len(),
{
    if s.len() == 0 {
        Seq::empty()
    } else {
        let k = newline_pos(s);
        proof {
            lemma_newline_pos_bound(s);
        }
        if k >= s.len() {
            seq![s]
        } else {
            seq![strip_cr(s.take(k))] + lines_of(s.skip(k + 1))
        }
    }
}

/// The lines joined by `sep` (`[String]::join`).
pub open spec fn join_with(ls: Seq<Seq<char>>, sep: Seq<char>) -> Seq<char>
    decreases ls.len(),
{
    if ls.len() == 0 {
        Seq::empty()
    } else if ls.len() == 1 {
        ls[0]
    } else {
        join_with(ls.drop_last(), sep) + sep + ls.last()
    }
}

/// The views of a vector of strings.
pub open spec fn views(v: Seq<String>) -> Seq<Seq<char>> {
    v.map_values(|s: String| s@)
}

pub proof fn lemma_newline_pos(a: Seq<char>, b: Seq<char>)
    requires
        forall|j: int| 0 <= j < a.len() ==> a[j] != '\n',
    ensures
        newline_pos(a + b) == a.len() + newline_pos(b),
        0 <= newline_pos(b) <= b.len(),
    decreases a.len(),
{
    lemma_newline_pos_bound(b);
    if a.len() == 0 {
        assert(a + b =~= b);
    } else {
        assert((a + b).drop_first() =~= a.drop_first() + b);
        lemma_newline_pos(a.drop_first(), b);
    }
}

pub proof fn lemma_newline_pos_bound(s: Seq<char>)
    ensures
        0 <= newline_pos(s) <= s.len(),
        newline_pos(s) < s.len() ==> s[newline_pos(s)] == '\n',
        forall|j: int| 0 <= j < newline_pos(s) ==> s[j] != '\n',
    decreases s.len(),
{
    if s.len() > 0 && s[0] != '\n' {
        lemma_newline_pos_bound(s.drop_first());
        assert forall|j: int| 0 <= j < newline_pos(s) implies s[j] != '\n' by {
            if j > 0 {
                assert(s[j] == s.drop_first()[j - 1]);
            }
        }
    }
}

/// Splits text into lines as `str::lines` does.
pub fn split_lines(s: &str) -> (r: Vec<String>)
    ensures
        views(r@) == lines_of(s@),
{
    let cs = chars_of(s);
    let mut out: Vec<String> = Vec::new();
    let mut cur: Vec<char> = Vec::new();
    let mut i: usize = 0;
    proof {
        assert(cur@ + cs@.skip(0) =~= s@);
        assert(views(out@) + lines_of(s@) =~= lines_of(s@));
    }
    while i < cs.len()
        invariant
            i <= cs.len(),
            cs@ == s@,
            forall|j: int| 0 <= j < cur@.len() ==> cur@[j] != '\n',
            views(out@) + lines_of(cur@ + cs@.skip(i as int)) == lines_of(s@),
        decreases cs.len() - i,
    {
        let c = cs[i];
        let ghost rest = cs@.skip(i + 1);
        assert(cs@.skip(i as int) =~= seq![c] + rest);
        if c == '\n' {
            let ghost whole = cur@ + cs@.skip(i as int);
            proof {
                lemma_newline_pos(cur@, seq![c] + rest);
                assert(newline_pos(seq![c] + rest) == 0);
                assert(whole.take(cur@.len() as int) =~= cur@);
                assert(whole.skip(cur@.len() as int + 1) =~= rest);
                assert(lines_of(whole) == seq![strip_cr(cur@)] + lines_of(rest));
            }
            let mut line = cur;
            if line.len() > 0 && line[line.len() - 1] == '\r' {
                line.pop();
            }
            assert(line@ =~= strip_cr(whole.take(newline_pos(whole))));
            let ls = string_of(&line);
            let ghost prev = out@;
            out.push(ls);
            cur = Vec::new();
            proof {
                assert(views(out@) =~= views(prev).push(ls@));
                assert(cur@ + cs@.skip(i + 1) =~= rest);
                assert(views(out@) + lines_of(rest) =~= views(prev) + (seq![strip_cr(whole.take(newline_pos(whole)))] + lines_of(rest)));
            }
        } else {
            let ghost prev = cur@;
            cur.push(c);
            proof {
                assert(prev.push(c) + rest =~= prev + cs@.skip(i as int));
            }
        }
        i = i + 1;
    }
    proof {
        assert(cs@.skip(cs.len() as int) =~= Seq::<char>::empty());
        assert(cur@ + Seq::<char>::empty() =~= cur@);
        if cur@.len() > 0 {
            lemma_newline_pos_bound(cur@);
            if newline_pos(cur@) < cur@.len() {
                assert(cur@[newline_pos(cur@)] != '\n');
            }
        }
        assert(views(out@) + lines_of(cur@) == lines_of(s@));
    }
    if cur.len() > 0 {
        let ls = string_of(&cur);
        let ghost prev = out@;
        out.push(ls);
        proof {
            assert(views(out@) =~= views(prev).push(ls@));
        }
    }
    out
}

} // verus!

verus! {

/// Number of ASCII digits at the start of `s`.
pub open spec fn ascii_digit_run(s: Seq<char>) -> int
    decreases s.len(),
{
    if s.len() > 0 && is_ascii_digit(s[0]) {
        1 + ascii_digit_run(s.drop_first())
    } else {
        0
    }
}

pub proof fn lemma_ascii_digit_run_at(s: Seq<char>, k: int)
    requires
        0 <= k <= s.len(),
        forall|j: int| 0 <= j < k ==> is_ascii_digit(#[trigger] s[j]),
        k == s.len() || !is_ascii_digit(s[k]),
    ensures
        ascii_digit_run(s) == k,
    decreases k,
{
    if k > 0 {
        let t = s.drop_first();
        assert forall|j: int| 0 <= j < k - 1 implies is_ascii_digit(#[trigger] t[j]) by {
            assert(t[j] == s[j + 1]);
        }
        lemma_ascii_digit_run_at(t, k - 1);
    }
}

/// Joins lines with `'\n'` (`[String]::join("\n")`).
pub fn join_lines(lines: &Vec<String>) -> (r: String)
    ensures
        r@ == join_with(views(lines@), seq!['\n']),
{
    let mut r = String::new();
    let mut i: usize = 0;
    while i < lines.len()
        invariant
            i <= lines.len(),
            r@ == join_with(views(lines@).take(i as int), seq!['\n']),
        decreases lines.len() - i,
    {
        let ghost prev = r@;
        if i > 0 {
            push_char(&mut r, '\n');
        }
        r.append(lines[i].as_str());
        proof {
            let t = views(lines@).take(i + 1);
            assert(t.drop_last() =~= views(lines@).take(i as int));
            assert(t.last() == lines@[i as int]@);
            if i == 0 {
                assert(prev =~= Seq::<char>::empty());
                assert(r@ =~= t[0]);
            } else {
                assert(r@ =~= prev + seq!['\n'] + t.last());
            }
        }
        i = i + 1;
    }
    assert(views(lines@).take(lines.len() as int) =~= views(lines@));
    r
}

} // verus!
