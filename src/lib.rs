//! A browsable file hierarchy that unifies real directories and archive
//! containers, with a content-addressed thumbnail cache and per-session
//! change notification.
pub mod error;
pub mod paths;
pub mod thumbnails;
pub mod folders;
pub mod archives;
pub mod change_watcher;
pub mod listing;
