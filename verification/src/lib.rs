//! Verified core of a local snippet launcher: validation and normalisation of
//! snippet input, tag handling, search ranking, the database schema and the
//! decisions around database writes, copies and pastes, and the decisions of
//! the launcher window and tray menu.

pub mod text;
pub mod order;
pub mod timestamp;
pub mod model;
pub mod input;
pub mod search;
pub mod store;
pub mod launcher;

pub use model::{DataError, Entry, EntryInput, EntrySummary, PasteMode, PasteResult};
pub use input::{
    normalize_tags, prepare_create, prepare_update, NormalizedEntryInput, PreparedEntry,
    PreparedUpdate,
};
pub use search::{get_recent_entries, search_entries};
pub use store::{check_rows_changed, copy_entry, get_entry, map_write_error, paste_entry, SCHEMA};
