//! The editor's toolkit-free half: the document every frontend edits in.
//!
//! The mirror of [`crate::reader`]. What is **not** shared with the reader is
//! the content policy: the reader permits neither script nor
//! `contenteditable`; the editor requires both. Two documents, two policies,
//! one set of tokens.
pub mod document;
pub mod markdown;
