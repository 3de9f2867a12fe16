//! The errors the library reports, and the text each is shown with.
use vstd::prelude::*;
use vstd::string::StringExecFns;
use crate::clock::{digits, push_digits};
use crate::text::string_of;

verus! {

/// Why an operation of the library was refused.
#[derive(Debug, Clone, PartialEq, Eq)]
pub enum QwaError {
    /// No message argument was given.
    NoMessage,
    /// A default command was needed but none is configured.
    NoDefaultCommand,
    /// The named command is not configured.
    UnknownCommand(String),
    /// No line equals the configured insertion anchor (after trimming).
    InsertLineNotFound(String),
    /// The frontmatter exists but lacks the named field.
    FrontmatterFieldNotFound(String),
    /// There is no line that `--last-edit` could replace.
    NoEntryToEdit,
    /// The file to edit holds no lines.
    EmptyFile(String),
    /// The home directory could not be determined.
    HomeDirectoryUnavailable,
    /// A date-time pattern could not be rendered.
    InvalidTimeFormat(String),
    /// A date given on the command line is not `YYYY-MM-DD` nor `YYYY/MM/DD`:
    /// the text, and why chrono refused it as `YYYY/MM/DD`.
    InvalidDate(String, String),
    /// The date of a journal file could not be determined.
    DateStampUnresolved(String),
    /// The file's metadata could not be read while looking for its date.
    MetadataUnreadable(String),
    /// No open task has the requested (1-based) index.
    NoTaskAtIndex(usize),
    /// No configuration file was found.
    NoConfigFile,
}

/// What `format!("{:?}", s)` writes for a text: the text quoted, with the
/// characters std escapes written as escapes.
pub uninterp spec fn std_debug(s: Seq<char>) -> Seq<char>;

/// A text as `{:?}` writes it (`format!` with `str`'s `Debug`).  The
/// contract claims only that the result is `std_debug` of the text: which
/// characters std escapes, and how, is left unsaid.
#[verifier::external_body]
pub(crate) fn debug_text(s: &str) -> (r: String)
    ensures
        r@ == std_debug(s@),
{
    format!("{:?}", s)
}

/// The text an error is shown with.
pub open spec fn error_text(e: QwaError) -> Seq<char> {
    match e {
        QwaError::NoMessage => "No message provided"@,
        QwaError::NoDefaultCommand => "Not Config: defualt_command"@,
        QwaError::UnknownCommand(n) => "Unknown Command: "@ + n@,
        QwaError::InsertLineNotFound(t) => "Not Found: Insert line "@ + std_debug(t@),
        QwaError::FrontmatterFieldNotFound(f) => "Failed to Found Frontmatter: "@ + f@,
        QwaError::NoEntryToEdit => "No message entry found to edit"@,
        QwaError::EmptyFile(p) => "File is empty: "@ + p@,
        QwaError::HomeDirectoryUnavailable => "Failed to get home directory"@,
        QwaError::InvalidTimeFormat(p) => "Invalid time format: "@ + p@,
        QwaError::InvalidDate(s, why) => "Invalid date format '"@ + s@ + "' (expected YYYY-MM-DD): "@ + why@,
        QwaError::DateStampUnresolved(p) => "Failed to resolve date stamp: "@ + std_debug(p@),
        QwaError::MetadataUnreadable(p) => "Failed to Read Metadata: "@ + p@,
        QwaError::NoConfigFile => "Failed to Find: config file"@,
        QwaError::NoTaskAtIndex(i) => "No task found for index "@ + digits(i as nat)
            + " in the current filtered list"@,
    }
}

fn joined(a: &str, b: &str) -> (r: String)
    ensures
        r@ == a@ + b@,
{
    let mut r = String::from_str(a);
    r.append(b);
    r
}

fn joined3(a: &str, b: &str, c: &str) -> (r: String)
    ensures
        r@ == a@ + b@ + c@,
{
    let mut r = String::from_str(a);
    r.append(b);
    r.append(c);
    r
}

impl QwaError {
    /// The text the error is shown with, as `error_text` states.
    pub fn message(&self) -> (r: String)
        ensures
            r@ == error_text(*self),
    {
        match self {
            QwaError::NoMessage => String::from_str("No message provided"),
            QwaError::NoDefaultCommand => String::from_str("Not Config: defualt_command"),
            QwaError::UnknownCommand(n) => joined("Unknown Command: ", n.as_str()),
            QwaError::InsertLineNotFound(t) => joined("Not Found: Insert line ", debug_text(t.as_str()).as_str()),
            QwaError::FrontmatterFieldNotFound(f) => joined("Failed to Found Frontmatter: ", f.as_str()),
            QwaError::NoEntryToEdit => String::from_str("No message entry found to edit"),
            QwaError::EmptyFile(p) => joined("File is empty: ", p.as_str()),
            QwaError::HomeDirectoryUnavailable => String::from_str("Failed to get home directory"),
            QwaError::InvalidTimeFormat(p) => joined("Invalid time format: ", p.as_str()),
            QwaError::InvalidDate(s, why) => {
                let head = joined3("Invalid date format '", s.as_str(), "' (expected YYYY-MM-DD): ");
                joined(head.as_str(), why.as_str())
            },
            QwaError::DateStampUnresolved(p) => joined(
                "Failed to resolve date stamp: ",
                debug_text(p.as_str()).as_str(),
            ),
            QwaError::MetadataUnreadable(p) => joined("Failed to Read Metadata: ", p.as_str()),
            QwaError::NoConfigFile => String::from_str("Failed to Find: config file"),
            QwaError::NoTaskAtIndex(i) => {
                let mut v: Vec<char> = Vec::new();
                push_digits(&mut v, *i as u64);
                let number = string_of(&v);
                assert(number@ == digits(*i as nat));
                joined3("No task found for index ", number.as_str(), " in the current filtered list")
            },
        }
    }
}

} // verus!
