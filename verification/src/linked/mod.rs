//! `Tree`/`Forest` whose nodes own the rings of their children.

pub mod fully;
pub use self::fully::{Forest, ForestWalk, Iter, IterMut, Node, OntoIter, Subnode, Tree, TreeWalk, Visit};

pub mod notation;
pub use self::notation::{fr, tr};
