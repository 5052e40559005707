//! The reading pane: the document a message is shown in, its header, its
//! parts, and the conversation around it.
pub mod cost;
pub mod document;
pub mod header;
pub mod parts;
pub mod rail;
pub mod thread;
