//! Session storage and ordering engine for a most-recently-used list of
//! file paths, kept per editor session and persisted across restarts.

use vstd::prelude::*;

pub mod menu;
pub mod mru;
pub mod scan;
pub mod storage;
pub mod util;

pub use menu::{ask_for_path_to_open, parse_menu_command, RecentFiles};
pub use mru::{add_file_to_buffer, is_wf_path, MruList};
pub use scan::{initial_session_population, ScanEntry, MAX_INITIAL_LOAD};
pub use storage::{
    bool_value_names, load_session_storage, most_recent_file_if_exists, opened_file, remove_file,
    reset_storage, save_session_storage, seed_session, CommonOps, LoadOutcome, PersistAction,
    StorageState,
};
pub use util::{editor_escape, editor_quote};

verus! {

/// The failures the engine can report; anything else is either swallowed at
/// the granularity of one scan entry or raised by the surrounding process.
#[derive(Debug, PartialEq, Eq, Structural, Clone, Copy)]
pub enum Error {
    /// The host has no resolvable per-user data directory.
    NoDataDirectory,
    /// A file could not be read, written or created.
    IoError,
    /// The configured selector command could not be tokenized, or was empty.
    InvalidMenuCommand,
    /// The selector returned a name that was never offered to it.
    SelectorIntegrityViolation,
}

impl Error {
    /// A human-readable description of the failure.
    pub fn message(&self) -> (r: String)
        ensures
            r@ == match *self {
                Error::NoDataDirectory => "user has no data directory"@,
                Error::IoError => "i/o error"@,
                Error::InvalidMenuCommand => "invalid configured menu command"@,
                Error::SelectorIntegrityViolation => "selector returned an unexpected name"@,
            },
    {
        match *self {
            Error::NoDataDirectory => String::from_str("user has no data directory"),
            Error::IoError => String::from_str("i/o error"),
            Error::InvalidMenuCommand => String::from_str("invalid configured menu command"),
            Error::SelectorIntegrityViolation => String::from_str(
                "selector returned an unexpected name",
            ),
        }
    }
}

} // verus!
