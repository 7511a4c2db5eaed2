//! The records a snippet store holds and hands out, and its error type.

use vstd::prelude::*;

verus! {

/// An error reported by SQLite through `rusqlite`.
#[verifier::external_type_specification]
#[verifier::external_body]
pub struct ExSqliteError(rusqlite::Error);

/// An error of the `time` crate while formatting a timestamp.
#[verifier::external_type_specification]
#[verifier::external_body]
pub struct ExTimeFormatError(time::error::Format);

/// An error of the system clipboard, reported by `arboard`.
#[verifier::external_type_specification]
#[verifier::external_body]
pub struct ExClipboardError(arboard::Error);

/// A stored snippet: a unique key, the value it stands for, its tags and
/// the RFC 3339 timestamps of its creation and last update.
#[derive(Debug)]
pub struct Entry {
    pub id: String,
    pub key: String,
    pub value: String,
    pub tags: Vec<String>,
    pub created_at: String,
    pub updated_at: String,
}

/// What a result list shows of a snippet: everything but its value and its
/// creation time.
#[derive(Debug)]
pub struct EntrySummary {
    pub id: String,
    pub key: String,
    pub tags: Vec<String>,
    pub updated_at: String,
}

/// A snippet as a user typed it, before validation and normalisation.
#[derive(Debug)]
pub struct EntryInput {
    pub key: String,
    pub value: String,
    pub tags: Vec<String>,
}

/// Whether a snippet's value reached the previously active application or
/// only the clipboard.
#[derive(Debug, Clone, Copy, PartialEq, Eq, Structural)]
pub enum PasteMode {
    Pasted,
    CopiedOnly,
}

/// The outcome of a copy or paste request, with the notice shown to the user.
#[derive(Debug)]
pub struct PasteResult {
    pub mode: PasteMode,
    pub message: String,
}

/// Why a request on the snippet store failed.
#[derive(Debug)]
pub enum DataError {
    /// The input broke a validation rule; the text says which.
    Validation(String),
    /// Another snippet already has the key.
    DuplicateKey,
    /// No snippet has the id.
    NotFound(String),
    /// The current time could not be written as RFC 3339.
    TimeFormatting(time::error::Format),
    /// The clipboard refused the value.
    Clipboard(arboard::Error),
    /// The database reported an error.
    Sql(rusqlite::Error),
}

/// The text of `Display` for `time::error::Format`.
#[verifier::external_body]
fn time_format_error_text(err: &time::error::Format) -> String {
    format!("{err}")
}

/// The text of `Display` for `arboard::Error`.
#[verifier::external_body]
fn clipboard_error_text(err: &arboard::Error) -> String {
    format!("{err}")
}

/// The text of `Display` for `rusqlite::Error`.
#[verifier::external_body]
fn sqlite_error_text(err: &rusqlite::Error) -> String {
    format!("{err}")
}

impl DataError {
    /// The message shown to the user for this error.
    pub fn message(&self) -> (out: String)
        ensures
            match self {
                DataError::Validation(text) => out@ == text@,
                DataError::DuplicateKey => out@ == "key must be unique"@,
                DataError::NotFound(id) => out@ == "entry not found for id: "@ + id@,
                DataError::TimeFormatting(_) => "failed to format timestamp: "@.is_prefix_of(out@),
                DataError::Clipboard(_) => "clipboard operation failed: "@.is_prefix_of(out@),
                DataError::Sql(_) => "database operation failed: "@.is_prefix_of(out@),
            },
    {
        match self {
            DataError::Validation(text) => text.clone(),
            DataError::DuplicateKey => String::from_str("key must be unique"),
            DataError::NotFound(id) => {
                let mut out = String::from_str("entry not found for id: ");
                out.append(id.as_str());
                out
            },
            DataError::TimeFormatting(err) => {
                let mut out = String::from_str("failed to format timestamp: ");
                let detail = time_format_error_text(err);
                out.append(detail.as_str());
                out
            },
            DataError::Clipboard(err) => {
                let mut out = String::from_str("clipboard operation failed: ");
                let detail = clipboard_error_text(err);
                out.append(detail.as_str());
                out
            },
            DataError::Sql(err) => {
                let mut out = String::from_str("database operation failed: ");
                let detail = sqlite_error_text(err);
                out.append(detail.as_str());
                out
            },
        }
    }
}

} // verus!
