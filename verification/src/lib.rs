//! The toolkit-free half of a mail client: the decisions every frontend shares.
pub mod account;
pub mod allowlist;
pub mod compose;
pub mod contacts;
pub mod conversation;
pub mod dwell;
pub mod editor;
pub mod finder;
pub mod focus;
pub mod format;
pub mod handoff;
pub mod hints;
pub mod keymap;
pub mod list;
pub mod list_state;
pub mod model;
pub mod notify;
pub mod onboarding;
pub mod paging;
pub mod palette;
pub mod paste;
pub mod privacy;
pub mod rank;
pub mod reader;
pub mod recipients;
pub mod row;
pub mod saved_search;
pub mod schedule;
pub mod search;
pub mod sending;
pub mod settings;
pub mod text;
