//! Tags: parsing a comma list, rendering the `#tag` prefix of a memo, and
//! matching memos against tag filters.
use vstd::prelude::*;
use crate::text::{
    chars_eq,
    char_is_space, chars_of, extend_chars, is_space, join_with, lemma_trim_start_at,
    string_of, sub_chars, trim, trim_bounds, trim_chars, trim_start, views,
};

verus! {

// ---------------------------------------------------------------------------
// Splitting
// ---------------------------------------------------------------------------

/// Index of the first `c` in `s`, or `s.len()`.
pub open spec fn char_pos(s: Seq<char>, c: char) -> int
    decreases s.len(),
{
    if s.len() == 0 {
        0
    } else if s[0] == c {
        0
    } else {
        1 + char_pos(s.drop_first(), c)
    }
}

pub proof fn lemma_char_pos(s: Seq<char>, c: char)
    ensures
        0 <= char_pos(s, c) <= s.len(),
        char_pos(s, c) < s.len() ==> s[char_pos(s, c)] == c,
        forall|j: int| 0 <= j < char_pos(s, c) ==> s[j] != c,
    decreases s.len(),
{
    if s.len() > 0 && s[0] != c {
        lemma_char_pos(s.drop_first(), c);
        assert forall|j: int| 0 <= j < char_pos(s, c) implies s[j] != c by {
            if j > 0 {
                assert(s[j] == s.drop_first()[j - 1]);
            }
        }
    }
}

pub proof fn lemma_char_pos_at(s: Seq<char>, c: char, k: int)
    requires
        0 <= k <= s.len(),
        forall|j: int| 0 <= j < k ==> s[j] != c,
        k == s.len() || s[k] == c,
    ensures
        char_pos(s, c) == k,
    decreases k,
{
    if k > 0 {
        let t = s.drop_first();
        assert forall|j: int| 0 <= j < k - 1 implies t[j] != c by {
            assert(t[j] == s[j + 1]);
        }
        lemma_char_pos_at(t, c, k - 1);
    }
}

/// `str::split(c)`: the pieces between occurrences of `c` (always at least one).
pub open spec fn split_on(s: Seq<char>, c: char) -> Seq<Seq<char>>
    decreases s.len(),
{
    let k = char_pos(s, c);
    if k >= s.len() {
        seq![s]
    } else {
        proof {
            lemma_char_pos(s, c);
        }
        seq![s.take(k)] + split_on(s.skip(k + 1), c)
    }
}

/// The trimmed pieces that are not empty, in order.
pub open spec fn nonempty_trimmed(ps: Seq<Seq<char>>) -> Seq<Seq<char>>
    decreases ps.len(),
{
    if ps.len() == 0 {
        Seq::empty()
    } else if trim(ps.last()).len() > 0 {
        nonempty_trimmed(ps.drop_last()).push(trim(ps.last()))
    } else {
        nonempty_trimmed(ps.drop_last())
    }
}

/// `tag1, tag2,tag3` as a list of tags: `None` for a blank text, else the
/// comma-separated pieces, trimmed, without the empty ones.
pub open spec fn spec_parse_tags(s: Seq<char>) -> Option<Seq<Seq<char>>> {
    if trim(s).len() == 0 {
        None
    } else {
        Some(nonempty_trimmed(split_on(s, ',')))
    }
}

/// Splits `v` at `c` as `str::split` does.
pub fn split_chars(v: &[char], c: char) -> (r: Vec<Vec<char>>)
    ensures
        r@.map_values(|p: Vec<char>| p@) == split_on(v@, c),
{
    let mut out: Vec<Vec<char>> = Vec::new();
    let mut start: usize = 0;
    let mut i: usize = 0;
    proof {
        assert(v@.skip(0) =~= v@);
    }
    while i < v.len()
        invariant
            start <= i <= v.len(),
            forall|j: int| start <= j < i ==> v@[j] != c,
            out@.map_values(|p: Vec<char>| p@) + split_on(v@.skip(start as int), c) == split_on(
                v@,
                c,
            ),
        decreases v.len() - i,
    {
        if v[i] == c {
            let piece = sub_chars(v, start, i);
            proof {
                let t = v@.skip(start as int);
                assert forall|j: int| 0 <= j < i - start implies t[j] != c by {
                    assert(t[j] == v@[j + start]);
                }
                assert(t[i - start] == v@[i as int]);
                lemma_char_pos_at(t, c, i - start);
                assert(t.take(i - start) =~= piece@);
                assert(t.skip(i - start + 1) =~= v@.skip(i + 1));
                assert(split_on(t, c) == seq![piece@] + split_on(v@.skip(i + 1), c));
            }
            let ghost prev = out@;
            out.push(piece);
            proof {
                assert(out@.map_values(|p: Vec<char>| p@) =~= prev.map_values(|p: Vec<char>| p@).push(piece@));
                assert(out@.map_values(|p: Vec<char>| p@) + split_on(v@.skip(i + 1), c) =~= prev.map_values(|p: Vec<char>| p@) + (seq![piece@] + split_on(v@.skip(i + 1), c)));
            }
            start = i + 1;
        }
        i = i + 1;
    }
    let piece = sub_chars(v, start, v.len());
    proof {
        let t = v@.skip(start as int);
        assert forall|j: int| 0 <= j < t.len() implies t[j] != c by {
            assert(t[j] == v@[j + start]);
        }
        lemma_char_pos_at(t, c, t.len() as int);
        assert(t =~= piece@);
    }
    let ghost prev = out@;
    out.push(piece);
    proof {
        assert(out@.map_values(|p: Vec<char>| p@) =~= prev.map_values(|p: Vec<char>| p@).push(piece@));
    }
    out
}

/// Parses: `tag1,tag2,tag3` into `vec!["tag1", "tag2", "tag3"]`
pub fn parse_tags(tags: &str) -> (r: Option<Vec<String>>)
    ensures
        match r {
            Some(v) => spec_parse_tags(tags@) == Some(views(v@)),
            None => spec_parse_tags(tags@) is None,
        },
{
    let cs = chars_of(tags);
    let (a, b) = trim_bounds(&cs);
    if a == b {
        return None;
    }
    let pieces = split_chars(&cs, ',');
    let ghost ps = pieces@.map_values(|p: Vec<char>| p@);
    let mut out: Vec<String> = Vec::new();
    let mut i: usize = 0;
    while i < pieces.len()
        invariant
            i <= pieces.len(),
            ps == pieces@.map_values(|p: Vec<char>| p@),
            views(out@) == nonempty_trimmed(ps.take(i as int)),
        decreases pieces.len() - i,
    {
        let t = trim_chars(&pieces[i]);
        proof {
            assert(ps.take(i + 1).drop_last() =~= ps.take(i as int));
            assert(ps.take(i + 1).last() == pieces@[i as int]@);
        }
        if t.len() > 0 {
            let ts = string_of(&t);
            let ghost prev = out@;
            out.push(ts);
            proof {
                assert(views(out@) =~= views(prev).push(ts@));
            }
        }
        i = i + 1;
    }
    proof {
        assert(ps.take(pieces.len() as int) =~= ps);
    }
    Some(out)
}

// ---------------------------------------------------------------------------
// The `#tag` prefix of a memo
// ---------------------------------------------------------------------------

/// `#a #b #c ` for tags `a, b, c`; nothing when there are no tags.
pub open spec fn tag_prefix(tags: Seq<Seq<char>>) -> Seq<char> {
    if tags.len() == 0 {
        Seq::empty()
    } else {
        seq!['#'] + join_with(tags, seq![' ', '#']) + seq![' ']
    }
}

/// The tags of a command followed by those given on the command line.
pub open spec fn combined_tags(command_tags: Option<Seq<Seq<char>>>, extra: Seq<Seq<char>>) -> Seq<
    Seq<char>,
> {
    match command_tags {
        Some(t) => t + extra,
        None => extra,
    }
}

/// Renders the `#tag` prefix.
pub fn render_tag_prefix(tags: &Vec<String>) -> (r: Vec<char>)
    ensures
        r@ == tag_prefix(views(tags@)),
{
    let mut r: Vec<char> = Vec::new();
    if tags.len() == 0 {
        return r;
    }
    r.push('#');
    let mut i: usize = 0;
    while i < tags.len()
        invariant
            0 < tags.len(),
            i <= tags.len(),
            r@ == seq!['#'] + join_with(views(tags@).take(i as int), seq![' ', '#']),
        decreases tags.len() - i,
    {
        let ghost prev = r@;
        if i > 0 {
            r.push(' ');
            r.push('#');
        }
        let t = chars_of(tags[i].as_str());
        extend_chars(&mut r, &t);
        proof {
            let s = views(tags@).take(i + 1);
            assert(s.drop_last() =~= views(tags@).take(i as int));
            assert(s.last() == tags@[i as int]@);
            if i == 0 {
                assert(join_with(views(tags@).take(i as int), seq![' ', '#']) =~= Seq::<
                    char,
                >::empty());
                assert(r@ =~= seq!['#'] + s[0]);
            } else {
                assert(r@ =~= seq!['#'] + (join_with(s.drop_last(), seq![' ', '#']) + seq![
                    ' ',
                    '#',
                ] + s.last()));
            }
        }
        i = i + 1;
    }
    r.push(' ');
    proof {
        assert(views(tags@).take(tags.len() as int) =~= views(tags@));
    }
    r
}

/// The command's tags followed by the extra ones.
pub fn combine_tags(command_tags: &Option<Vec<String>>, extra: &Vec<String>) -> (r: Vec<String>)
    ensures
        views(r@) == combined_tags(
            match command_tags {
                Some(t) => Some(views(t@)),
                None => None,
            },
            views(extra@),
        ),
{
    let mut r: Vec<String> = match command_tags {
        Some(t) => t.clone(),
        None => Vec::new(),
    };
    let ghost start = r@;
    let mut i: usize = 0;
    while i < extra.len()
        invariant
            i <= extra.len(),
            r@ == start + extra@.take(i as int),
        decreases extra.len() - i,
    {
        r.push(extra[i].clone());
        assert(extra@.take(i + 1) =~= extra@.take(i as int).push(extra@[i as int]));
        i = i + 1;
    }
    proof {
        assert(extra@.take(extra.len() as int) =~= extra@);
        assert(views(r@) =~= views(start) + views(extra@));
        match command_tags {
            Some(t) => {
                assert(views(start) =~= views(t@));
            },
            None => {
                assert(views(start) =~= Seq::<Seq<char>>::empty());
            },
        }
    }
    r
}

// ---------------------------------------------------------------------------
// Matching memos against tag filters
// ---------------------------------------------------------------------------

/// Index of the first whitespace character in `s`, or `s.len()`.
pub open spec fn space_pos(s: Seq<char>) -> int
    decreases s.len(),
{
    if s.len() == 0 {
        0
    } else if is_space(s[0]) {
        0
    } else {
        1 + space_pos(s.drop_first())
    }
}

pub proof fn lemma_space_pos(s: Seq<char>)
    ensures
        0 <= space_pos(s) <= s.len(),
        space_pos(s) < s.len() ==> is_space(s[space_pos(s)]),
        forall|j: int| 0 <= j < space_pos(s) ==> !is_space(s[j]),
        s.len() > 0 && !is_space(s[0]) ==> space_pos(s) > 0,
    decreases s.len(),
{
    if s.len() > 0 && !is_space(s[0]) {
        lemma_space_pos(s.drop_first());
        assert forall|j: int| 0 <= j < space_pos(s) implies !is_space(s[j]) by {
            if j > 0 {
                assert(s[j] == s.drop_first()[j - 1]);
            }
        }
    }
}

pub proof fn lemma_space_pos_at(s: Seq<char>, k: int)
    requires
        0 <= k <= s.len(),
        forall|j: int| 0 <= j < k ==> !is_space(s[j]),
        k == s.len() || is_space(s[k]),
    ensures
        space_pos(s) == k,
    decreases k,
{
    if k > 0 {
        let t = s.drop_first();
        assert forall|j: int| 0 <= j < k - 1 implies !is_space(t[j]) by {
            assert(t[j] == s[j + 1]);
        }
        lemma_space_pos_at(t, k - 1);
    }
}

pub proof fn lemma_trim_start_len(s: Seq<char>)
    ensures
        trim_start(s).len() <= s.len(),
        trim_start(s).len() > 0 ==> !is_space(trim_start(s)[0]),
    decreases s.len(),
{
    if s.len() > 0 && is_space(s[0]) {
        lemma_trim_start_len(s.drop_first());
    }
}

/// `str::split_whitespace`: the maximal runs of non-whitespace characters.
pub open spec fn words(s: Seq<char>) -> Seq<Seq<char>>
    decreases s.len(),
{
    let t = trim_start(s);
    if t.len() == 0 {
        Seq::empty()
    } else {
        let k = space_pos(t);
        proof {
            lemma_trim_start_len(s);
            lemma_space_pos(t);
        }
        seq![t.take(k)] + words(t.skip(k))
    }
}

/// Drops leading and trailing `#` characters.
pub open spec fn trim_hashes(s: Seq<char>) -> Seq<char>
    decreases s.len(),
{
    if s.len() > 0 && s[0] == '#' {
        trim_hashes(s.drop_first())
    } else if s.len() > 0 && s.last() == '#' {
        trim_hashes(s.drop_last())
    } else {
        s
    }
}

/// ASCII letters to lower case, other characters unchanged.
pub open spec fn ascii_lower(s: Seq<char>) -> Seq<char> {
    s.map_values(|c: char| if 'A' <= c && c <= 'Z' { ((c as u32) + 32) as char } else { c })
}

/// The form in which tags are compared: trimmed, without surrounding `#`,
/// trimmed again, ASCII letters in lower case.
pub open spec fn spec_normalize_tag(s: Seq<char>) -> Seq<char> {
    ascii_lower(trim(trim_hashes(trim(s))))
}

/// The tag a word of a memo carries: the word without one leading `#`,
/// trimmed; no tag when that is empty.
pub open spec fn word_tag(w: Seq<char>) -> Option<Seq<char>> {
    let stripped = if w.len() > 0 && w[0] == '#' {
        w.drop_first()
    } else {
        w
    };
    let t = trim(stripped);
    if t.len() == 0 {
        None
    } else {
        Some(spec_normalize_tag(t))
    }
}

/// A memo carries the normalised tag `t`.
pub open spec fn carries_tag(message: Seq<char>, t: Seq<char>) -> bool {
    exists|j: int| 0 <= j < words(message).len() && word_tag(#[trigger] words(message)[j]) == Some(t)
}

/// A memo passes the filters: there are none, or it carries one of them.
pub open spec fn spec_matches_tags(message: Seq<char>, filters: Seq<Seq<char>>) -> bool {
    ||| filters.len() == 0
    ||| exists|i: int|
        0 <= i < filters.len() && carries_tag(message, spec_normalize_tag(#[trigger] filters[i]))
}

/// Drops leading and trailing `#` characters.
pub fn trim_hash_chars(v: &[char]) -> (r: Vec<char>)
    ensures
        r@ == trim_hashes(v@),
{
    let mut a: usize = 0;
    let mut b: usize = v.len();
    assert(v@.subrange(0, v.len() as int) =~= v@);
    while a < b && v[a] == '#'
        invariant
            a <= b == v.len(),
            trim_hashes(v@) == trim_hashes(v@.subrange(a as int, b as int)),
        decreases b - a,
    {
        assert(v@.subrange(a as int, b as int).drop_first() =~= v@.subrange(a + 1, b as int));
        a = a + 1;
    }
    while a < b && v[b - 1] == '#'
        invariant
            a <= b <= v.len(),
            trim_hashes(v@) == trim_hashes(v@.subrange(a as int, b as int)),
            a == b || v@[a as int] != '#',
        decreases b - a,
    {
        assert(v@.subrange(a as int, b as int).drop_last() =~= v@.subrange(a as int, b - 1));
        b = b - 1;
    }
    sub_chars(v, a, b)
}

/// ASCII letters to lower case.
pub fn lower_chars(v: &[char]) -> (r: Vec<char>)
    ensures
        r@ == ascii_lower(v@),
{
    let mut r: Vec<char> = Vec::new();
    let mut i: usize = 0;
    while i < v.len()
        invariant
            i <= v.len(),
            r@ == ascii_lower(v@.take(i as int)),
        decreases v.len() - i,
    {
        let c = v[i];
        let d = if 'A' <= c && c <= 'Z' {
            ((c as u32) + 32) as u8 as char
        } else {
            c
        };
        r.push(d);
        assert(ascii_lower(v@.take(i + 1)) =~= ascii_lower(v@.take(i as int)).push(d));
        i = i + 1;
    }
    assert(v@.take(v.len() as int) =~= v@);
    r
}

pub fn normalize_chars(v: &[char]) -> (r: Vec<char>)
    ensures
        r@ == spec_normalize_tag(v@),
{
    let t1 = trim_chars(v);
    let t2 = trim_hash_chars(&t1);
    let t3 = trim_chars(&t2);
    lower_chars(&t3)
}

/// Normalize: Tag
pub fn normalize_tag(tag: &str) -> (r: String)
    ensures
        r@ == spec_normalize_tag(tag@),
{
    string_of(&normalize_chars(&chars_of(tag)))
}

/// The words of `v`, as `str::split_whitespace` gives them.
pub fn split_words(v: &[char]) -> (r: Vec<Vec<char>>)
    ensures
        r@.map_values(|w: Vec<char>| w@) == words(v@),
{
    let mut out: Vec<Vec<char>> = Vec::new();
    let mut i: usize = 0;
    proof {
        assert(v@.skip(0) =~= v@);
    }
    while i < v.len()
        invariant
            i <= v.len(),
            out@.map_values(|w: Vec<char>| w@) + words(v@.skip(i as int)) == words(v@),
        decreases v.len() - i,
    {
        let mut a = i;
        while a < v.len() && char_is_space(v[a])
            invariant
                i <= a <= v.len(),
                forall|j: int| i <= j < a ==> is_space(#[trigger] v@[j]),
            decreases v.len() - a,
        {
            a = a + 1;
        }
        let ghost s = v@.skip(i as int);
        proof {
            assert forall|j: int| 0 <= j < a - i implies is_space(#[trigger] s[j]) by {
                assert(s[j] == v@[j + i]);
            }
            if a < v.len() {
                assert(s[a - i] == v@[a as int]);
            }
            lemma_trim_start_at(s, a - i);
            assert(s.skip(a - i) =~= v@.skip(a as int));
        }
        if a == v.len() {
            proof {
                assert(words(s) == Seq::<Seq<char>>::empty());
                assert(out@.map_values(|w: Vec<char>| w@) + words(v@.skip(a as int)) =~= out@.map_values(|w: Vec<char>| w@));
            }
            i = a;
        } else {
            let mut b = a;
            while b < v.len() && !char_is_space(v[b])
                invariant
                    a <= b <= v.len(),
                    forall|j: int| a <= j < b ==> !is_space(#[trigger] v@[j]),
                decreases v.len() - b,
            {
                b = b + 1;
            }
            let w = sub_chars(v, a, b);
            proof {
                let t = v@.skip(a as int);
                assert forall|j: int| 0 <= j < b - a implies !is_space(t[j]) by {
                    assert(t[j] == v@[j + a]);
                }
                if b < v.len() {
                    assert(t[b - a] == v@[b as int]);
                }
                lemma_space_pos_at(t, b - a);
                assert(t.take(b - a) =~= w@);
                assert(t.skip(b - a) =~= v@.skip(b as int));
                assert(trim_start(s) == t);
                assert(words(s) == seq![w@] + words(v@.skip(b as int)));
            }
            let ghost prev = out@;
            out.push(w);
            proof {
                assert(out@.map_values(|x: Vec<char>| x@) =~= prev.map_values(|x: Vec<char>| x@).push(w@));
                assert(out@.map_values(|x: Vec<char>| x@) + words(v@.skip(b as int)) =~= prev.map_values(|x: Vec<char>| x@) + (seq![w@] + words(v@.skip(b as int))));
            }
            i = b;
        }
    }
    proof {
        assert(v@.skip(v.len() as int) =~= Seq::<char>::empty());
        assert(trim_start(Seq::<char>::empty()) =~= Seq::<char>::empty());
        assert(out@.map_values(|w: Vec<char>| w@) + words(Seq::<char>::empty()) =~= out@.map_values(|w: Vec<char>| w@));
    }
    out
}

/// The normalised tag of a word, as `word_tag` states.
pub fn tag_of_word(w: &[char]) -> (r: Option<Vec<char>>)
    ensures
        match r {
            Some(t) => word_tag(w@) == Some(t@),
            None => word_tag(w@) is None,
        },
{
    let stripped = if w.len() > 0 && w[0] == '#' {
        sub_chars(w, 1, w.len())
    } else {
        sub_chars(w, 0, w.len())
    };
    proof {
        if w@.len() > 0 && w@[0] == '#' {
            assert(stripped@ =~= w@.drop_first());
        } else {
            assert(stripped@ =~= w@);
        }
    }
    let t = trim_chars(&stripped);
    if t.len() == 0 {
        None
    } else {
        Some(normalize_chars(&t))
    }
}

pub open spec fn opt_view(o: Option<Vec<char>>) -> Option<Seq<char>> {
    match o {
        Some(v) => Some(v@),
        None => None,
    }
}

/// Check: Tag.  Whether a memo passes the tag filters: it does when there
/// are none, or when one of its words, without one leading `#`, equals a
/// filter once both are normalised.
pub fn message_matches_tags(message: &str, tag_filters: &[String]) -> (r: bool)
    ensures
        r == spec_matches_tags(message@, views(tag_filters@)),
{
    if tag_filters.len() == 0 {
        return true;
    }
    let ghost fs = views(tag_filters@);
    let ws = split_words(&chars_of(message));
    let ghost wv = ws@.map_values(|w: Vec<char>| w@);
    let mut tags: Vec<Option<Vec<char>>> = Vec::new();
    let mut k: usize = 0;
    while k < ws.len()
        invariant
            k <= ws.len(),
            wv == ws@.map_values(|w: Vec<char>| w@),
            wv == words(message@),
            tags.len() == k,
            forall|j: int| 0 <= j < k ==> opt_view(#[trigger] tags@[j]) == word_tag(wv[j]),
        decreases ws.len() - k,
    {
        let ot = tag_of_word(&ws[k]);
        assert(wv[k as int] == ws@[k as int]@);
        tags.push(ot);
        k = k + 1;
    }
    let mut i: usize = 0;
    while i < tag_filters.len()
        invariant
            i <= tag_filters.len(),
            fs == views(tag_filters@),
            wv == words(message@),
            tags.len() == wv.len(),
            forall|j: int| 0 <= j < wv.len() ==> opt_view(#[trigger] tags@[j]) == word_tag(wv[j]),
            forall|y: int| 0 <= y < i ==> !carries_tag(message@, spec_normalize_tag(#[trigger] fs[y])),
        decreases tag_filters.len() - i,
    {
        let f = normalize_chars(&chars_of(tag_filters[i].as_str()));
        assert(fs[i as int] == tag_filters@[i as int]@);
        let mut x: usize = 0;
        while x < tags.len()
            invariant
                x <= tags.len(),
                i < tag_filters.len(),
                fs == views(tag_filters@),
                f@ == spec_normalize_tag(fs[i as int]),
                wv == words(message@),
                tags.len() == wv.len(),
                forall|j: int| 0 <= j < wv.len() ==> opt_view(#[trigger] tags@[j]) == word_tag(wv[j]),
                forall|z: int| 0 <= z < x ==> word_tag(#[trigger] wv[z]) != Some(f@),
            decreases tags.len() - x,
        {
            let hit = match &tags[x] {
                Some(t) => chars_eq(t, &f),
                None => false,
            };
            assert(opt_view(tags@[x as int]) == word_tag(wv[x as int]));
            if hit {
                assert(word_tag(wv[x as int]) == Some(f@));
                assert(word_tag(words(message@)[x as int]) == Some(f@));
                assert(carries_tag(message@, spec_normalize_tag(fs[i as int])));
                return true;
            }
            x = x + 1;
        }
        i = i + 1;
    }
    false
}

} // verus!
