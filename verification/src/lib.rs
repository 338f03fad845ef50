//! Verified core of Saya, a launcher and clipboard-history tool: fuzzy app
//! matching with an MRU bias, the launcher index and its incremental
//! updates, clipboard capture rules, full-text tokenization, and the
//! records shared with the user interface.

pub mod cli;
pub mod clipboard;
pub mod clock;
pub mod database;
pub mod error;
pub mod ffi;
pub mod icons;
pub mod launcher;
pub mod matcher;
pub mod paths;
pub mod search;
pub mod sorting;
pub mod text;
pub mod tokenizer;

pub use database::Entry;
pub use database::MruInfo;
pub use error::CoreError;
pub use launcher::AppEntry;
pub use launcher::LauncherIndex;
pub use launcher::MatchedApp;
pub use search::SearchQuery;
