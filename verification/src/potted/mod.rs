//! `Tree`/`Forest` for trees built top down.
//!
//! The nodes of a potted tree stand in one vector, the pot, and refer to
//! each other by their positions in it. Each node keeps the number of
//! its children and the number of nodes of its subtree up to date.

pub mod node;
pub use self::node::{Node, NullIndex};

pub mod pot;
pub use self::pot::Pot;

pub mod plant;

pub mod iter;
pub use self::iter::{Iter, IterMut};

pub mod tree;
pub use self::tree::Tree;

pub mod forest;
pub use self::forest::Forest;

pub mod notation;
pub use self::notation::{fr, FakeRoot, TreeData, TupleForest, TupleTree};
