//! `Tree`/`Forest` implemented in last-child/next-sibling rings of rooms
//! that are linked in both directions.

pub mod heap;

pub mod node;
pub use self::node::{Link, Node};

pub mod tree;
pub use self::tree::Tree;

pub mod forest;
pub use self::forest::{Forest, IntoIter};

pub mod iter;
pub use self::iter::{Iter, IterMut};

pub mod onto_iter;
pub use self::onto_iter::{OntoIter, Subnode};

pub mod walk;
pub use self::walk::{ForestWalk, TreeWalk, Visit};

pub mod equal;

pub mod order;
