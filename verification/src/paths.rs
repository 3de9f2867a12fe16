//! File paths, held as text with `/` separators: joining, the parts of a
//! path that name a date, the home directory, and where a command's files
//! are.
use vstd::prelude::*;
use crate::clock::{
    chrono_format, date_chars, date_text, format_moment, named_date, stamp_with, Date, Moment,
    dash_pattern, slash_pattern,
};
use crate::config::{opt_view, CommandConfig, CommandView, Config, DailyFile};
use crate::error::QwaError;
use crate::tags::{split_chars, split_on};
use crate::text::{chars_of, extend_chars, is_ascii_digit, string_of, sub_chars};

verus! {

// ---------------------------------------------------------------------------
// The home directory
// ---------------------------------------------------------------------------

/// `dirs::home_dir()` as text.  Nothing is claimed of the result: it
/// depends on the environment; a home directory that is not valid UTF-8
/// comes back with its invalid sequences replaced (`to_string_lossy`).
#[verifier::external_body]
pub(crate) fn home_directory() -> (r: Option<String>) {
    dirs::home_dir().map(|p| p.to_string_lossy().into_owned())
}

/// The path begins with the component `~`.
pub open spec fn starts_with_tilde(p: Seq<char>) -> bool {
    p.len() > 0 && p[0] == '~' && (p.len() == 1 || p[1] == '/')
}

/// `~` at the start replaced by the home directory.
pub open spec fn spec_expand_home(p: Seq<char>, home: Seq<char>) -> Seq<char> {
    if starts_with_tilde(p) {
        home + p.skip(1)
    } else {
        p
    }
}

/// Expands a leading `~` with the given home directory, or reports that
/// there is none.
pub fn expand_home_with(path: &str, home: Option<String>) -> (r: Result<String, QwaError>)
    ensures
        match r {
            Ok(s) => (starts_with_tilde(path@) ==> home is Some && s@ == spec_expand_home(
                path@,
                home->0@,
            )) && (!starts_with_tilde(path@) ==> s@ == path@),
            Err(e) => starts_with_tilde(path@) && home is None && e
                == QwaError::HomeDirectoryUnavailable,
        },
{
    let p = chars_of(path);
    if p.len() > 0 && p[0] == '~' && (p.len() == 1 || p[1] == '/') {
        match home {
            None => Err(QwaError::HomeDirectoryUnavailable),
            Some(h) => {
                let mut v = chars_of(h.as_str());
                let rest = sub_chars(&p, 1, p.len());
                extend_chars(&mut v, &rest);
                proof {
                    assert(rest@ =~= path@.skip(1));
                }
                Ok(string_of(&v))
            },
        }
    } else {
        Ok(string_of(&p))
    }
}

/// A path that begins with the component `~` has it replaced by the home
/// directory; any other path is unchanged.
pub fn expand_home(path: &str) -> (r: Result<String, QwaError>)
    ensures
        !starts_with_tilde(path@) ==> (r matches Ok(s) && s@ == path@),
        starts_with_tilde(path@) ==> match r {
            Ok(s) => exists|h: Seq<char>| s@ == spec_expand_home(path@, h),
            Err(e) => e == QwaError::HomeDirectoryUnavailable,
        },
{
    if starts_with_tilde_exec(path) {
        expand_home_with(path, home_directory())
    } else {
        expand_home_with(path, None)
    }
}

fn starts_with_tilde_exec(path: &str) -> (r: bool)
    ensures
        r == starts_with_tilde(path@),
{
    let p = chars_of(path);
    p.len() > 0 && p[0] == '~' && (p.len() == 1 || p[1] == '/')
}

// ---------------------------------------------------------------------------
// Joining
// ---------------------------------------------------------------------------

/// `PathBuf::push`: an absolute `rest` replaces the path; otherwise `rest`
/// is appended, with a `/` between unless the path is empty or already
/// ends with one.
pub open spec fn spec_join(base: Seq<char>, rest: Seq<char>) -> Seq<char> {
    if rest.len() > 0 && rest[0] == '/' {
        rest
    } else if base.len() == 0 || base.last() == '/' {
        base + rest
    } else {
        base + seq!['/'] + rest
    }
}

pub fn join_path(base: &[char], rest: &[char]) -> (r: Vec<char>)
    ensures
        r@ == spec_join(base@, rest@),
{
    if rest.len() > 0 && rest[0] == '/' {
        return sub_chars(rest, 0, rest.len());
    }
    let mut v = sub_chars(base, 0, base.len());
    if !(base.len() == 0 || base[base.len() - 1] == '/') {
        v.push('/');
    }
    extend_chars(&mut v, rest);
    v
}

// ---------------------------------------------------------------------------
// Components
// ---------------------------------------------------------------------------

/// The named components of a path: the pieces between `/`, without empty
/// ones and without `.`.
pub open spec fn segments_of(pieces: Seq<Seq<char>>) -> Seq<Seq<char>>
    decreases pieces.len(),
{
    if pieces.len() == 0 {
        Seq::empty()
    } else {
        let rest = segments_of(pieces.drop_last());
        let p = pieces.last();
        if p.len() == 0 || p == seq!['.'] {
            rest
        } else {
            rest.push(p)
        }
    }
}

pub open spec fn segments(path: Seq<char>) -> Seq<Seq<char>> {
    segments_of(split_on(path, '/'))
}

/// `Path::file_name` over the named components: the last one, unless it
/// is `..` or there is none.
pub open spec fn name_of(segs: Seq<Seq<char>>) -> Option<Seq<char>> {
    if segs.len() == 0 || segs.last() == seq!['.', '.'] {
        None
    } else {
        Some(segs.last())
    }
}

/// Index of the last `.` in `s`, or `-1`.
pub open spec fn last_dot(s: Seq<char>) -> int
    decreases s.len(),
{
    if s.len() == 0 {
        -1
    } else if s.last() == '.' {
        s.len() - 1
    } else {
        last_dot(s.drop_last())
    }
}

/// `Path::file_stem` of a file name: the name before its last `.`, or the
/// whole name when it has no `.` past its first character.
pub open spec fn stem_of(name: Seq<char>) -> Seq<char> {
    let i = last_dot(name);
    if i <= 0 {
        name
    } else {
        name.take(i)
    }
}

/// The text is exactly `n` ASCII digits.
pub open spec fn all_digits(s: Seq<char>, n: int) -> bool {
    s.len() == n && forall|j: int| 0 <= j < n ==> is_ascii_digit(#[trigger] s[j])
}

pub open spec fn slash_line_pattern() -> Seq<char> {
    seq!['%', 'Y', '/', '%', 'm', '/', '%', 'd', '/', '%', 'Y', '-', '%', 'm', '-', '%', 'd']
}

/// The date a file's path gives under a layout: the stem read as
/// `YYYY-MM-DD` for `line`; `YYYY/MM/stem` (four- and two-digit directory
/// names) read as `YYYY/MM/DD` for `slash`; `YYYY/MM/DD/stem` (four-, two-
/// and two-digit directory names) read as `YYYY/MM/DD/YYYY-MM-DD`, the two
/// dates agreeing, for `slash_line`; nothing for `header` and `onefile`.
pub open spec fn spec_date_from_path(format: DailyFile, path: Seq<char>) -> Option<Date> {
    let segs = segments(path);
    match name_of(segs) {
        None => None,
        Some(name) => {
            let stem = stem_of(name);
            let up1 = segs.drop_last();
            let up2 = up1.drop_last();
            match format {
                DailyFile::Line => named_date(stem, dash_pattern()),
                DailyFile::Slash => match (name_of(up1), name_of(up2)) {
                    (Some(month), Some(year)) => if all_digits(month, 2) && all_digits(year, 4) {
                        named_date(year + seq!['/'] + month + seq!['/'] + stem, slash_pattern())
                    } else {
                        None
                    },
                    _ => None,
                },
                DailyFile::SlashLine => match (name_of(up1), name_of(up2), name_of(up2.drop_last())) {
                    (Some(day), Some(month), Some(year)) => if all_digits(day, 2) && all_digits(month, 2)
                        && all_digits(year, 4) {
                        named_date(
                            year + seq!['/'] + month + seq!['/'] + day + seq!['/'] + stem,
                            slash_line_pattern(),
                        )
                    } else {
                        None
                    },
                    _ => None,
                },
                DailyFile::Header | DailyFile::Onefile => None,
            }
        },
    }
}

/// The named components of a path.
pub fn path_segments(path: &[char]) -> (r: Vec<Vec<char>>)
    ensures
        r@.map_values(|p: Vec<char>| p@) == segments(path@),
{
    let pieces = split_chars(path, '/');
    let ghost ps = pieces@.map_values(|p: Vec<char>| p@);
    let mut out: Vec<Vec<char>> = Vec::new();
    let mut i: usize = 0;
    while i < pieces.len()
        invariant
            i <= pieces.len(),
            ps == pieces@.map_values(|p: Vec<char>| p@),
            ps == split_on(path@, '/'),
            out@.map_values(|p: Vec<char>| p@) == segments_of(ps.take(i as int)),
        decreases pieces.len() - i,
    {
        let p = &pieces[i];
        proof {
            assert(ps.take(i + 1).drop_last() =~= ps.take(i as int));
            assert(ps.take(i + 1).last() == p@);
        }
        let is_dot = p.len() == 1 && p[0] == '.';
        proof {
            if p@.len() == 1 {
                assert(is_dot == (p@ =~= seq!['.']));
            } else {
                assert(p@ != seq!['.']);
            }
        }
        if !(p.len() == 0 || is_dot) {
            let ghost prev = out@;
            let q = sub_chars(p, 0, p.len());
            assert(q@ =~= p@);
            out.push(q);
            proof {
                assert(out@.map_values(|q: Vec<char>| q@) =~= prev.map_values(|q: Vec<char>| q@).push(p@));
            }
        }
        i = i + 1;
    }
    assert(ps.take(pieces.len() as int) =~= ps);
    out
}

/// The file name given by the first `n` named components.
fn name_at(segs: &Vec<Vec<char>>, n: usize) -> (r: Option<Vec<char>>)
    requires
        n <= segs@.len(),
    ensures
        match r {
            Some(v) => name_of(segs@.map_values(|p: Vec<char>| p@).take(n as int)) == Some(v@),
            None => name_of(segs@.map_values(|p: Vec<char>| p@).take(n as int)) is None,
        },
{
    let ghost sv = segs@.map_values(|p: Vec<char>| p@).take(n as int);
    if n == 0 {
        return None;
    }
    let last = &segs[n - 1];
    assert(sv.last() == last@);
    if last.len() == 2 && last[0] == '.' && last[1] == '.' {
        assert(last@ =~= seq!['.', '.']);
        None
    } else {
        proof {
            if last@.len() == 2 {
                assert(last@ != seq!['.', '.']);
            }
        }
        Some(sub_chars(last, 0, last.len()))
    }
}

fn stem_chars(name: &[char]) -> (r: Vec<char>)
    ensures
        r@ == stem_of(name@),
{
    let mut i: usize = name.len();
    assert(name@.take(i as int) =~= name@);
    while i > 0 && name[i - 1] != '.'
        invariant
            i <= name.len(),
            last_dot(name@) == last_dot(name@.take(i as int)),
        decreases i,
    {
        assert(name@.take(i as int).drop_last() =~= name@.take(i - 1));
        i = i - 1;
    }
    proof {
        if i > 0 {
            assert(name@.take(i as int).last() == '.');
        } else {
            assert(name@.take(0) =~= Seq::<char>::empty());
        }
    }
    if i <= 1 {
        sub_chars(name, 0, name.len())
    } else {
        sub_chars(name, 0, i - 1)
    }
}

fn digits_exactly(s: &[char], n: usize) -> (r: bool)
    ensures
        r == all_digits(s@, n as int),
{
    if s.len() != n {
        return false;
    }
    let mut j: usize = 0;
    while j < n
        invariant
            s.len() == n,
            j <= n,
            forall|k: int| 0 <= k < j ==> is_ascii_digit(#[trigger] s@[k]),
        decreases n - j,
    {
        if !('0' <= s[j] && s[j] <= '9') {
            return false;
        }
        j = j + 1;
    }
    true
}

fn date_with(text: &[char], pattern: Vec<char>) -> (r: Option<Date>)
    ensures
        r == named_date(text@, pattern@),
{
    let t = string_of(text);
    let p = string_of(&pattern);
    match crate::clock::parse_date_text(t.as_str(), p.as_str()) {
        Ok(d) => Some(d),
        Err(_) => None,
    }
}

impl DailyFile {
    /// The date the path of a journal file gives under this layout, as
    /// `spec_date_from_path` states.
    pub fn parse_date_from_path(&self, file_path: &str) -> (r: Option<Date>)
        ensures
            r == spec_date_from_path(*self, file_path@),
    {
        let segs = path_segments(&chars_of(file_path));
        let ghost sv = segs@.map_values(|p: Vec<char>| p@);
        assert(sv.take(segs.len() as int) =~= sv);
        let name = match name_at(&segs, segs.len()) {
            Some(n) => n,
            None => return None,
        };
        let stem = stem_chars(&name);
        match self {
            DailyFile::Line => date_with(&stem, vec!['%', 'Y', '-', '%', 'm', '-', '%', 'd']),
            DailyFile::Slash => {
                proof {
                    assert(sv.take(segs.len() - 1) =~= sv.drop_last());
                    if segs.len() >= 2 {
                        assert(sv.take(segs.len() - 2) =~= sv.drop_last().drop_last());
                    }
                }
                let month = match name_at(&segs, segs.len() - 1) {
                    Some(m) => m,
                    None => return None,
                };
                let year = match name_at(&segs, segs.len() - 2) {
                    Some(y) => y,
                    None => return None,
                };
                if !(digits_exactly(&month, 2) && digits_exactly(&year, 4)) {
                    return None;
                }
                let mut formatted = sub_chars(&year, 0, year.len());
                formatted.push('/');
                extend_chars(&mut formatted, &month);
                formatted.push('/');
                extend_chars(&mut formatted, &stem);
                assert(formatted@ =~= year@ + seq!['/'] + month@ + seq!['/'] + stem@);
                date_with(&formatted, vec!['%', 'Y', '/', '%', 'm', '/', '%', 'd'])
            },
            DailyFile::SlashLine => {
                proof {
                    assert(sv.take(segs.len() - 1) =~= sv.drop_last());
                    if segs.len() >= 2 {
                        assert(sv.take(segs.len() - 2) =~= sv.drop_last().drop_last());
                    }
                    if segs.len() >= 3 {
                        assert(sv.take(segs.len() - 3) =~= sv.drop_last().drop_last().drop_last());
                    }
                }
                let day = match name_at(&segs, segs.len() - 1) {
                    Some(d) => d,
                    None => return None,
                };
                let month = match name_at(&segs, segs.len() - 2) {
                    Some(m) => m,
                    None => return None,
                };
                let year = match name_at(&segs, segs.len() - 3) {
                    Some(y) => y,
                    None => return None,
                };
                if !(digits_exactly(&day, 2) && digits_exactly(&month, 2) && digits_exactly(&year, 4)) {
                    return None;
                }
                let mut formatted = sub_chars(&year, 0, year.len());
                formatted.push('/');
                extend_chars(&mut formatted, &month);
                formatted.push('/');
                extend_chars(&mut formatted, &day);
                formatted.push('/');
                extend_chars(&mut formatted, &stem);
                assert(formatted@ =~= year@ + seq!['/'] + month@ + seq!['/'] + day@ + seq!['/'] + stem@);
                date_with(
                    &formatted,
                    vec!['%', 'Y', '/', '%', 'm', '/', '%', 'd', '/', '%', 'Y', '-', '%', 'm', '-', '%', 'd'],
                )
            },
            DailyFile::Header | DailyFile::Onefile => None,
        }
    }
}


// ---------------------------------------------------------------------------
// Which files belong to a command, and their dates
// ---------------------------------------------------------------------------

/// `Path::file_name` of a path.
pub open spec fn spec_file_name(path: Seq<char>) -> Option<Seq<char>> {
    name_of(segments(path))
}

/// A file belongs to a command: the command names no file pattern, or the
/// file name is the pattern, or the layout reads a date from the path, or
/// chrono reads a date from the file name with the pattern.
pub open spec fn spec_is_command_file(path: Seq<char>, command: CommandView) -> bool {
    match command.file {
        None => true,
        Some(pattern) => {
            let format = match command.date_format {
                Some(f) => f,
                None => DailyFile::Line,
            };
            ||| spec_file_name(path) == Some(pattern)
            ||| spec_date_from_path(format, path) is Some
            ||| (spec_file_name(path) is Some && named_date(spec_file_name(path)->0, pattern) is Some)
        },
    }
}

fn file_name_chars(path: &[char]) -> (r: Option<Vec<char>>)
    ensures
        match r {
            Some(v) => spec_file_name(path@) == Some(v@),
            None => spec_file_name(path@) is None,
        },
{
    let segs = path_segments(path);
    let ghost sv = segs@.map_values(|p: Vec<char>| p@);
    assert(sv.take(segs.len() as int) =~= sv);
    name_at(&segs, segs.len())
}

/// Whether the file belongs to the command, as `spec_is_command_file`
/// states.
pub fn is_command_file(file_path: &str, command: &CommandConfig) -> (r: bool)
    ensures
        r == spec_is_command_file(file_path@, command@),
{
    let pattern = match &command.file {
        None => return true,
        Some(p) => chars_of(p.as_str()),
    };
    let path = chars_of(file_path);
    let name = file_name_chars(&path);
    match &name {
        Some(n) => {
            if crate::text::chars_eq(n, &pattern) {
                return true;
            }
        },
        None => {},
    }
    let format = command.date_format();
    if format.parse_date_from_path(file_path).is_some() {
        return true;
    }
    match &name {
        Some(n) => date_with(n, pattern).is_some(),
        None => false,
    }
}

/// What can be learnt of a file's dates from its metadata.
pub enum FileDates {
    /// The metadata could not be read.
    Unreadable,
    /// The local dates of creation and modification, where known.
    Known { created: Option<Date>, modified: Option<Date> },
}

/// `Path::file_stem` of a path.
pub open spec fn spec_file_stem(path: Seq<char>) -> Option<Seq<char>> {
    match spec_file_name(path) {
        Some(n) => Some(stem_of(n)),
        None => None,
    }
}

/// The date stamp a file's name gives, before its metadata is consulted:
/// the layout's date from the path, else the stem read with the command's
/// file pattern, else the stem read as `YYYY-MM-DD`.
pub open spec fn date_from_name(path: Seq<char>, command: CommandView) -> Option<Date> {
    let format = match command.date_format {
        Some(f) => f,
        None => DailyFile::Line,
    };
    match spec_date_from_path(format, path) {
        Some(d) => Some(d),
        None => match spec_file_stem(path) {
            None => None,
            Some(stem) => {
                let by_pattern = match command.file {
                    Some(p) => named_date(stem, p),
                    None => None,
                };
                match by_pattern {
                    Some(d) => Some(d),
                    None => named_date(stem, dash_pattern()),
                }
            },
        },
    }
}

/// The date stamp of a journal file: from its name (`date_from_name`), else
/// its creation date, else its modification date.
pub fn resolve_date_stamp(file_path: &str, command: &CommandConfig, dates: &FileDates) -> (r: Result<String, QwaError>)
    ensures
        match r {
            Ok(s) => match date_from_name(file_path@, command@) {
                Some(d) => s@ == date_text(d),
                None => match dates {
                    FileDates::Known { created: Some(c), .. } => s@ == date_text(*c),
                    FileDates::Known { created: None, modified: Some(m) } => s@ == date_text(*m),
                    _ => false,
                },
            },
            Err(QwaError::MetadataUnreadable(p)) => date_from_name(file_path@, command@) is None
                && dates is Unreadable && p@ == file_path@,
            Err(QwaError::DateStampUnresolved(p)) => date_from_name(file_path@, command@) is None
                && dates == (FileDates::Known { created: None, modified: None }) && p@ == file_path@,
            Err(_) => false,
        },
{
    let format = command.date_format();
    if let Some(d) = format.parse_date_from_path(file_path) {
        return Ok(string_of(&date_chars(d)));
    }
    let path = chars_of(file_path);
    if let Some(name) = file_name_chars(&path) {
        let stem = stem_chars(&name);
        if let Some(p) = &command.file {
            if let Some(d) = date_with(&stem, chars_of(p.as_str())) {
                return Ok(string_of(&date_chars(d)));
            }
        }
        if let Some(d) = date_with(&stem, vec!['%', 'Y', '-', '%', 'm', '-', '%', 'd']) {
            return Ok(string_of(&date_chars(d)));
        }
    }
    match dates {
        FileDates::Unreadable => Err(QwaError::MetadataUnreadable(string_of(&path))),
        FileDates::Known { created: Some(c), .. } => Ok(string_of(&date_chars(*c))),
        FileDates::Known { created: None, modified: Some(m) } => Ok(string_of(&date_chars(*m))),
        FileDates::Known { created: None, modified: None } => Err(
            QwaError::DateStampUnresolved(string_of(&path)),
        ),
    }
}

// ---------------------------------------------------------------------------
// Where a command's files are
// ---------------------------------------------------------------------------

/// The text chrono renders for `pattern` at `now`.
pub open spec fn rendered(now: Moment, pattern: Seq<char>) -> Option<Seq<char>> {
    chrono_format(now.timestamp as int, now.nanos as int, now.offset as int, pattern)
}

/// The base directory of a command: its own, else the configuration's,
/// else the current directory (empty path).
pub open spec fn command_base(config_base: Option<Seq<char>>, command: CommandView) -> Seq<char> {
    match command.base_directory {
        Some(b) => b,
        None => match config_base {
            Some(b) => b,
            None => Seq::empty(),
        },
    }
}

/// The directory of a command's files at `now`: its base directory (with
/// `~` expanded by `home`) joined with its directory pattern rendered at
/// `now`.  `None` when the home directory is needed and unknown, or the
/// pattern does not render.
pub open spec fn spec_target_directory(
    config_base: Option<Seq<char>>,
    command: CommandView,
    now: Moment,
    home: Option<Seq<char>>,
) -> Option<Seq<char>> {
    let base = command_base(config_base, command);
    if starts_with_tilde(base) && home is None {
        None
    } else {
        let b = if starts_with_tilde(base) {
            spec_expand_home(base, home->0)
        } else {
            base
        };
        match command.directory {
            None => Some(spec_join(b, Seq::empty())),
            Some(p) => match rendered(now, p) {
                Some(d) => Some(spec_join(b, d)),
                None => None,
            },
        }
    }
}

/// The file of a command at `now`: its directory joined with its file
/// pattern rendered at `now`, or `<command name>.md`.
pub open spec fn spec_target_file(
    config_base: Option<Seq<char>>,
    command_name: Seq<char>,
    command: CommandView,
    now: Moment,
    home: Option<Seq<char>>,
) -> Option<Seq<char>> {
    match spec_target_directory(config_base, command, now, home) {
        None => None,
        Some(dir) => match command.file {
            None => Some(spec_join(dir, command_name + seq!['.', 'm', 'd'])),
            Some(p) => match rendered(now, p) {
                Some(f) => Some(spec_join(dir, f)),
                None => None,
            },
        },
    }
}

/// Renders a pattern at `now`, or reports it.
pub fn render_at(now: &Moment, pattern: &String) -> (r: Result<Vec<char>, QwaError>)
    ensures
        match r {
            Ok(v) => rendered(*now, pattern@) == Some(v@),
            Err(QwaError::InvalidTimeFormat(p)) => rendered(*now, pattern@) is None && p@ == pattern@,
            Err(_) => false,
        },
{
    match format_moment(now, pattern.as_str()) {
        Some(s) => Ok(chars_of(s.as_str())),
        None => Err(QwaError::InvalidTimeFormat(pattern.clone())),
    }
}

fn base_of(config: &Config, command: &CommandConfig) -> (r: Vec<char>)
    ensures
        r@ == command_base(opt_view(config.base_directory), command@),
{
    match &command.base_directory {
        Some(b) => chars_of(b.as_str()),
        None => match &config.base_directory {
            Some(b) => chars_of(b.as_str()),
            None => Vec::new(),
        },
    }
}

pub open spec fn opt_string_view(o: Option<String>) -> Option<Seq<char>> {
    match o {
        Some(s) => Some(s@),
        None => None,
    }
}

/// The directory of a command's files at `now`, as `spec_target_directory`
/// states; the error says which part failed.
pub fn conversion_target_directory_path_at(
    config: &Config,
    command: &CommandConfig,
    now: &Moment,
    home: Option<String>,
) -> (r: Result<String, QwaError>)
    ensures
        match r {
            Ok(p) => spec_target_directory(opt_view(config.base_directory), command@, *now, opt_string_view(home)) == Some(p@),
            Err(_) => spec_target_directory(opt_view(config.base_directory), command@, *now, opt_string_view(home)) is None,
        },
{
    let base = base_of(config, command);
    let ghost hv = opt_string_view(home);
    let b = match expand_home_with(string_of(&base).as_str(), home) {
        Ok(b) => chars_of(b.as_str()),
        Err(e) => return Err(e),
    };
    let dir = match &command.directory {
        None => Vec::new(),
        Some(p) => match render_at(now, p) {
            Ok(d) => d,
            Err(e) => return Err(e),
        },
    };
    Ok(string_of(&join_path(&b, &dir)))
}

/// The file of a command at `now`, as `spec_target_file` states.
pub fn conversion_target_file_path_at(
    config: &Config,
    command_name: &str,
    command: &CommandConfig,
    now: &Moment,
    home: Option<String>,
) -> (r: Result<String, QwaError>)
    ensures
        match r {
            Ok(p) => spec_target_file(opt_view(config.base_directory), command_name@, command@, *now, opt_string_view(home)) == Some(p@),
            Err(_) => spec_target_file(opt_view(config.base_directory), command_name@, command@, *now, opt_string_view(home)) is None,
        },
{
    let dir = match conversion_target_directory_path_at(config, command, now, home) {
        Ok(d) => chars_of(d.as_str()),
        Err(e) => return Err(e),
    };
    let file = match &command.file {
        None => {
            let mut f = chars_of(command_name);
            f.push('.');
            f.push('m');
            f.push('d');
            f
        },
        Some(p) => match render_at(now, p) {
            Ok(f) => f,
            Err(e) => return Err(e),
        },
    };
    Ok(string_of(&join_path(&dir, &file)))
}

/// The directory of a command's files now.  The instant and the home
/// directory come from the clock and the environment; for whatever they
/// are, the result is the one `spec_target_directory` gives.
pub fn conversion_target_directory_path(config: &Config, command: &CommandConfig) -> (r: Result<String, QwaError>)
    ensures
        exists|now: Moment, home: Option<Seq<char>>|
            match r {
                Ok(p) => spec_target_directory(opt_view(config.base_directory), command@, now, home) == Some(p@),
                Err(_) => spec_target_directory(opt_view(config.base_directory), command@, now, home) is None,
            },
{
    let now = crate::clock::local_now();
    let home = home_directory();
    let ghost hv = opt_string_view(home);
    let r = conversion_target_directory_path_at(config, command, &now, home);
    assert(match r {
        Ok(p) => spec_target_directory(opt_view(config.base_directory), command@, now, hv) == Some(p@),
        Err(_) => spec_target_directory(opt_view(config.base_directory), command@, now, hv) is None,
    });
    r
}

/// The file of a command now, as `conversion_target_directory_path` with
/// `spec_target_file`.
pub fn conversion_target_file_path(config: &Config, command_name: &str, command: &CommandConfig) -> (r: Result<String, QwaError>)
    ensures
        exists|now: Moment, home: Option<Seq<char>>|
            match r {
                Ok(p) => spec_target_file(opt_view(config.base_directory), command_name@, command@, now, home) == Some(p@),
                Err(_) => spec_target_file(opt_view(config.base_directory), command_name@, command@, now, home) is None,
            },
{
    let now = crate::clock::local_now();
    let home = home_directory();
    let ghost hv = opt_string_view(home);
    let r = conversion_target_file_path_at(config, command_name, command, &now, home);
    assert(match r {
        Ok(p) => spec_target_file(opt_view(config.base_directory), command_name@, command@, now, hv) == Some(p@),
        Err(_) => spec_target_file(opt_view(config.base_directory), command_name@, command@, now, hv) is None,
    });
    r
}

} // verus!
