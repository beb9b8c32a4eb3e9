//! `Tree` composed of hierarchical `Node`s.

use vstd::prelude::*;
use super::node::Node;
use super::forest::Forest;
use super::heap::make_node;
use crate::bfs::{BfsTree, Moved};
use crate::shape::{cloned_tree, Shape};
use crate::size::Size;

verus! {

/// A tree: a root node, which is never missing, with all that stands
/// below it.
pub struct Tree<T> {
    pub(crate) root: Node<T>,
}

impl<T> Tree<T> {
    /// The root is well formed.
    pub closed spec fn wf(&self) -> bool
        decreases self,
    {
        self.root.wf()
    }

    /// The tree below the root.
    pub closed spec fn view(&self) -> Shape<T>
        decreases self,
    {
        self.root.view()
    }

    /// The root node, in specifications.
    pub closed spec fn spec_root(&self) -> Node<T> {
        self.root
    }

    /// A tree is as well formed as its root, and stands for what its root
    /// stands for.
    pub broadcast proof fn lemma_root(&self)
        ensures
            #![trigger self.spec_root()]
            self.wf() == self.spec_root().wf(),
            self@ == self.spec_root()@,
            decreases_to!(*self => self.spec_root()),
    {
    }

    /// Makes a tree of one node that holds `data`.
    pub fn new(data: T) -> (tree: Self)
        ensures
            tree.wf(),
            tree@ == Shape::leaf(data),
    {
        Tree { root: make_node(data) }
    }

    /// Makes the tree whose root holds `data` above the trees of
    /// `forest`.
    pub fn from_parts(data: T, forest: Forest<T>) -> (tree: Self)
        requires
            forest.wf(),
        ensures
            tree.wf(),
            tree@ == (Shape { data, children: forest@ }),
    {
        let mut tree = Tree::new(data);
        tree.root.append(forest);
        proof {
            assert(Seq::<Shape<T>>::empty() + forest@ =~= forest@);
        }
        tree
    }

    /// Takes the tree apart into its root's data and the forest of its
    /// root's children.
    pub fn into_parts(self) -> (parts: (T, Forest<T>))
        requires
            self.wf(),
        ensures
            parts.1.wf(),
            self@ == (Shape { data: parts.0, children: parts.1@ }),
    {
        self.root.into_parts()
    }

    /// Takes the tree apart in a breadth-first manner and provides the
    /// visits of its nodes, with the size of the tree.
    pub fn into_bfs(self) -> (bfs: BfsTree<Moved<T>>)
        requires
            self.wf(),
            self@.node_count() <= u32::MAX,
        ensures
            bfs.iter.wf(),
            bfs.iter@ == seq![self@],
            bfs.size.degree == 1,
            bfs.size.node_cnt == self@.node_count(),
    {
        let count = self.root.node_count();
        BfsTree::from(Moved::from_tree(self), Size { degree: 1, node_cnt: count as u32 })
    }

    /// Removes all the children of the root and returns them as a forest.
    /// The root is left a leaf.
    pub fn abandon(&mut self) -> (forest: Forest<T>)
        requires
            old(self).wf(),
        ensures
            final(self).wf(),
            forest.wf(),
            forest@ == old(self)@.children,
            final(self)@ == old(self)@.abandon(),
    {
        self.root.abandon()
    }

    /// Returns the root node.
    pub fn root(&self) -> (node: &Node<T>)
        ensures
            *node == self.spec_root(),
            node.wf() == self.wf(),
            node@ == self@,
    {
        &self.root
    }

    /// Returns the root node for changing it in place.
    pub fn root_mut(&mut self) -> (node: &mut Node<T>)
        ensures
            *node == old(self).spec_root(),
            node.wf() == old(self).wf(),
            node@ == old(self)@,
            final(self).spec_root() == *final(node),
            final(self).wf() == final(node).wf(),
            final(self)@ == final(node)@,
    {
        &mut self.root
    }
}

impl<T: Clone> Tree<T> {
    /// Makes a copy of the tree, with a clone of the data at each node.
    pub fn clone(&self) -> (tree: Tree<T>)
        requires
            self.wf(),
        ensures
            tree.wf(),
            cloned_tree(self@, tree@),
    {
        self.root.to_owned()
    }
}

} // verus!
