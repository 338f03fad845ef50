//! Records handed to the user interface: the store's and the launcher's
//! records with interface-friendly fields (strings for paths, Unix
//! milliseconds for times).

use vstd::prelude::*;

use crate::database::Entry;
use crate::launcher::AppEntry;
use crate::launcher::MatchedApp;

verus! {

/// A stored clipboard entry.
#[derive(Debug)]
pub struct ClipboardEntryDto {
    pub id: i64,
    pub content: String,
    pub byte_size: i64,
    pub created_at_unix_ms: i64,
}

/// An installed app.
#[derive(Debug)]
pub struct AppEntryDto {
    pub name: String,
    pub path: String,
}

/// An app with its match score.
#[derive(Debug)]
pub struct MatchedAppDto {
    pub name: String,
    pub path: String,
    pub score: i32,
}

/// Runtime status.
#[derive(Debug)]
pub struct StatusDto {
    pub db_path: String,
    pub entry_count: u64,
    pub entries_missing_vectors: u64,
    pub clipboard_monitor_running: bool,
    pub embedder_loaded: bool,
    pub embedding_feature_compiled: bool,
}

/// Errors reported to the interface, with a message.
#[derive(Debug)]
pub enum SayaError {
    Internal(String),
}

/// Implemented by the user interface to receive each newly captured
/// clipboard entry. Called from the polling thread.
pub trait ClipboardObserver: Send + Sync {
    fn on_entry_captured(&self, entry: ClipboardEntryDto);
}

impl ClipboardEntryDto {
    /// The record of an entry captured just now: its size is the UTF-8 byte
    /// length of the content (as `str::len` gives it).
    pub fn captured(id: i64, content: String, created_at_unix_ms: i64) -> (r: Self)
        ensures
            r.id == id,
            r.content == content,
            r.byte_size == (vstd::utf8::encode_utf8(content@).len() as usize) as i64,
            r.created_at_unix_ms == created_at_unix_ms,
    {
        let n = content.as_str().len();
        ClipboardEntryDto { id, content, byte_size: n as i64, created_at_unix_ms }
    }
}

impl From<Entry> for ClipboardEntryDto {
    fn from(e: Entry) -> (r: Self) {
        ClipboardEntryDto {
            id: e.id,
            content: e.content,
            byte_size: e.byte_size,
            created_at_unix_ms: e.created_at,
        }
    }
}

impl vstd::std_specs::convert::FromSpecImpl<Entry> for ClipboardEntryDto {
    open spec fn obeys_from_spec() -> bool {
        true
    }

    open spec fn from_spec(e: Entry) -> Self {
        ClipboardEntryDto {
            id: e.id,
            content: e.content,
            byte_size: e.byte_size,
            created_at_unix_ms: e.created_at,
        }
    }
}

impl From<AppEntry> for AppEntryDto {
    fn from(a: AppEntry) -> (r: Self) {
        AppEntryDto { name: a.name, path: a.path }
    }
}

impl vstd::std_specs::convert::FromSpecImpl<AppEntry> for AppEntryDto {
    open spec fn obeys_from_spec() -> bool {
        true
    }

    open spec fn from_spec(a: AppEntry) -> Self {
        AppEntryDto { name: a.name, path: a.path }
    }
}

impl From<MatchedApp> for MatchedAppDto {
    fn from(m: MatchedApp) -> (r: Self) {
        MatchedAppDto { name: m.app.name, path: m.app.path, score: m.score }
    }
}

impl vstd::std_specs::convert::FromSpecImpl<MatchedApp> for MatchedAppDto {
    open spec fn obeys_from_spec() -> bool {
        true
    }

    open spec fn from_spec(m: MatchedApp) -> Self {
        MatchedAppDto { name: m.app.name, path: m.app.path, score: m.score }
    }
}

} // verus!
