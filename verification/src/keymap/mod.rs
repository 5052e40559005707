//! The keymap resolver: single keys, chords, sequences and contexts.
//!
//! A table says which command a binding runs in which context. A resolver is
//! the live state on top of it — the pending chords of a half-typed sequence
//! and when they expire. A press goes in, an outcome comes out. Typing always
//! wins: a single-key binding cannot fire while the user is typing.
pub mod chord;
pub mod laws;
pub mod resolver;
pub mod spelling;
pub mod table;
pub use crate::keymap::chord::{Binding, Chord, Key, Modifiers, ParseError};
pub use crate::keymap::resolver::{Outcome, Resolver, CHORD_TIMEOUT};
pub use crate::keymap::table::{trigger_for_command, KeyContext, Keymap};
