//! General purpose tree library.
//!
//! A tree is a root node with an ordered list of child trees; a forest is
//! an ordered list of trees without a root. This library offers them in
//! two representations:
//!
//! - [`linked`]: every node owns the ring of its children. Trees move in
//!   and out of rings as whole values, at either end of a ring and, during
//!   an iteration, at any place.
//! - [`potted`]: all nodes of a tree stand in one vector and refer to each
//!   other by position, each with the size of its subtree at hand.
//!
//! Traversals: [`sib::Walk`] and [`linked::TreeWalk`] go depth first,
//! [`bfs`] breadth first.
//!
//! Every function states what it does over [`shape::Shape`], the
//! mathematical tree that a value stands for.

pub mod shape;
pub use shape::Shape;

pub mod size;
pub use size::Size;

pub mod linked;

pub mod bfs;

pub mod potted;

pub mod sib;
