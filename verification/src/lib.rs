//! Marie Lookup: the verified core of a tray-resident snippet lookup app.
//!
//! The library holds the data model of the snippet store (entries with soft
//! deletion, per-entry version history, the paste log and the key/value
//! settings), the search and ranking rules, the version-tolerant restore of
//! a backup, the schema migration ladder, and the decisions of the backup
//! housekeeping. Persistence, windows, the clipboard and key synthesis live
//! outside the library.
pub mod backup;
pub mod clock;
pub mod decimal;
pub mod error;
pub mod hotkey;
pub mod platform;
pub mod rank;
pub mod schema;
pub mod store;
pub mod text;

pub use error::AppError;
