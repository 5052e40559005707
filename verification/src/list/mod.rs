//! The message list's bookkeeping: which rows are held, which pages are on
//! their way, and the steps that turn one stretch of rows into another.
pub mod laws;
pub mod order;
pub mod pages;
pub mod script;
pub mod shape;
pub mod window;
pub use crate::list::script::{splices, Splice};
pub use crate::list::shape::{ListRow, CACHE_PAGES, PAGE_SIZE};
pub use crate::list::window::{Delivered, ListWindow, Lookup};
