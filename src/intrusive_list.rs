//! An intrusive doubly-linked list whose nodes live in a slot table.
//!
//! A node is named by its slot index, which stays fixed for as long as the
//! node is linked; the list itself records only its length, head and tail.
pub mod cursor;
pub mod item;
pub mod list;
pub mod node;
pub mod raw;

pub use cursor::Cursor;
pub use item::Item;
pub use list::IntrusiveList;
