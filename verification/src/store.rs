//! The decisions the snippet store makes around its database reads and
//! writes: a missing row, a refused write, and the notice that reports a copy
//! or a paste.

use vstd::prelude::*;

use crate::model::{DataError, Entry, PasteMode, PasteResult};
use crate::text::{bytes_contains, str_contains};

verus! {

/// The tables of the snippet database. A key is unique and has a character
/// other than whitespace; a tag is stored once per snippet, is lower case and
/// has a character other than whitespace; the tags of a snippet go with it
/// when it is deleted.
pub const SCHEMA: &'static str = r#"
        PRAGMA foreign_keys = ON;

        CREATE TABLE IF NOT EXISTS entries (
            id TEXT PRIMARY KEY NOT NULL,
            key TEXT NOT NULL UNIQUE CHECK (length(trim(key)) > 0),
            value TEXT NOT NULL,
            created_at TEXT NOT NULL,
            updated_at TEXT NOT NULL
        );

        CREATE TABLE IF NOT EXISTS entry_tags (
            entry_id TEXT NOT NULL,
            tag TEXT NOT NULL CHECK (length(trim(tag)) > 0 AND tag = lower(tag)),
            PRIMARY KEY (entry_id, tag),
            FOREIGN KEY (entry_id) REFERENCES entries(id) ON DELETE CASCADE
        );

        CREATE INDEX IF NOT EXISTS idx_entries_updated_at ON entries(updated_at DESC);
        CREATE INDEX IF NOT EXISTS idx_entry_tags_tag ON entry_tags(tag);
        "#;

/// The text SQLite reports when a write would give two snippets one key.
pub open spec fn duplicate_key_marker() -> Seq<char> {
    "UNIQUE constraint failed: entries.key"@
}

/// The result of looking up the snippet `id`, given what the database
/// returned for it: the snippet, or `NotFound` with the id.
pub fn get_entry(found: Option<Entry>, id: &str) -> (r: Result<Entry, DataError>)
    ensures
        match found {
            Some(e) => r matches Ok(x) && x == e,
            None => r matches Err(DataError::NotFound(m)) && m@ == id@,
        },
{
    match found {
        Some(entry) => Ok(entry),
        None => Err(DataError::NotFound(String::from_str(id))),
    }
}

/// The result of an update or delete of the snippet `id` that changed
/// `changed_rows` rows: `NotFound` with the id when no row changed.
pub fn check_rows_changed(changed_rows: usize, id: &str) -> (r: Result<(), DataError>)
    ensures
        changed_rows == 0 ==> (r matches Err(DataError::NotFound(m)) && m@ == id@),
        changed_rows > 0 ==> r is Ok,
{
    if changed_rows == 0 {
        Err(DataError::NotFound(String::from_str(id)))
    } else {
        Ok(())
    }
}

/// The error for a write that the database refused with `err`, whose SQLite
/// message (when it has one) is `message`: `DuplicateKey` when the message
/// reports a second snippet with the same key, else the database error.
pub fn map_write_error(message: Option<String>, err: rusqlite::Error) -> (r: DataError)
    ensures
        match message {
            Some(m) => if str_contains(m@, duplicate_key_marker()) {
                r is DuplicateKey
            } else {
                r == DataError::Sql(err)
            },
            None => r == DataError::Sql(err),
        },
{
    match message {
        Some(m) => {
            let marker = "UNIQUE constraint failed: entries.key";
            if bytes_contains(m.as_str().as_bytes(), marker.as_bytes()) {
                DataError::DuplicateKey
            } else {
                DataError::Sql(err)
            }
        },
        None => DataError::Sql(err),
    }
}

/// The notice for a value that was put on the clipboard.
pub open spec fn copied_message(key: Seq<char>) -> Seq<char> {
    "Copied \""@ + key + "\" to clipboard."@
}

/// The notice for a value that was pasted into the previous application.
pub open spec fn pasted_message(key: Seq<char>) -> Seq<char> {
    "Pasted \""@ + key + "\"."@
}

/// The notice for a value that was put on the clipboard but could not be
/// pasted, for the reason given.
pub open spec fn paste_unavailable_message(key: Seq<char>, reason: Seq<char>) -> Seq<char> {
    copied_message(key) + " Auto-paste unavailable: "@ + reason
}

/// The result of copying the value of `entry` to the clipboard.
pub fn copy_entry(entry: &Entry) -> (r: PasteResult)
    ensures
        r.mode == PasteMode::CopiedOnly,
        r.message@ == copied_message(entry.key@),
{
    let mut message = String::from_str("Copied \"");
    message.append(entry.key.as_str());
    message.append("\" to clipboard.");
    PasteResult { mode: PasteMode::CopiedOnly, message }
}

/// The result of pasting the value of `entry`, after it was put on the
/// clipboard, given how the simulated paste keystroke went.
pub fn paste_entry(entry: &Entry, keystroke: Result<(), String>) -> (r: PasteResult)
    ensures
        match keystroke {
            Ok(_) => r.mode == PasteMode::Pasted && r.message@ == pasted_message(entry.key@),
            Err(reason) => r.mode == PasteMode::CopiedOnly && r.message@
                == paste_unavailable_message(entry.key@, reason@),
        },
{
    match keystroke {
        Ok(_) => {
            let mut message = String::from_str("Pasted \"");
            message.append(entry.key.as_str());
            message.append("\".");
            PasteResult { mode: PasteMode::Pasted, message }
        },
        Err(reason) => {
            let copied = copy_entry(entry);
            let mut message = copied.message;
            message.append(" Auto-paste unavailable: ");
            message.append(reason.as_str());
            PasteResult { mode: PasteMode::CopiedOnly, message }
        },
    }
}

} // verus!
