//! An insertion-order-aware hash map: every entry sits both in a hash index
//! (key to node) and in a doubly linked list of nodes, which cursors walk and
//! reorder in constant time.
mod index;
pub mod list;
pub mod map;
pub mod cursor;
pub mod laws;

pub use cursor::{Cursor, CursorMut};
pub use list::{LinkedList, Node};
pub use map::LinkedMap;
