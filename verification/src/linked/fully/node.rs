//! Tree node implementation.

use vstd::prelude::*;
use super::forest::Forest;
use super::iter::{Iter, IterMut};
use super::onto_iter::OntoIter;
use super::tree::Tree;
use crate::bfs::{BfsTree, Splitted};
use crate::shape::{cloned_tree, events, Shape};
use crate::sib::walk::Walk;
use crate::size::Size;

verus! {

/// The sibling links of one room of a ring.
pub struct Link {
    pub(crate) next: usize,
    pub(crate) prev: usize,
}

impl Link {
    /// Points both links at `prev` and `next`.
    pub(crate) fn set_sib(&mut self, prev: usize, next: usize)
        ensures
            final(self).prev == prev,
            final(self).next == next,
    {
        self.prev = prev;
        self.next = next;
    }

    /// Points both links back at the room `own` that holds them.
    pub(crate) fn reset_sib(&mut self, own: usize)
        ensures
            final(self).prev == own,
            final(self).next == own,
    {
        self.set_sib(own, own);
    }

    /// Whether both links point back at the room `own` that holds them.
    pub(crate) fn has_no_sib(&self, own: usize) -> (b: bool)
        ensures
            b == (self.prev == own && self.next == own),
    {
        self.prev == own && self.next == own
    }
}

/// A node of a tree: its data, and the forest of its children.
pub struct Node<T> {
    pub(crate) forest: Forest<T>,
    pub data: T,
}

impl<T> Node<T> {
    /// The forest of the children is well formed.
    pub closed spec fn wf(&self) -> bool
        decreases self,
    {
        self.forest.wf()
    }

    /// The tree below the node: its data above the trees of its children.
    pub closed spec fn view(&self) -> Shape<T>
        decreases self,
    {
        Shape { data: self.data, children: self.forest.view() }
    }

    /// The forest of the children, in specifications.
    pub closed spec fn spec_forest(&self) -> Forest<T> {
        self.forest
    }

    /// A node stands for its data above what the forest of its children
    /// stands for, and is as well formed as that forest.
    pub(crate) proof fn lemma_view(&self)
        ensures
            self.spec_forest() == self.forest,
            self@ == (Shape { data: self.data, children: self.spec_forest()@ }),
            self.wf() == self.spec_forest().wf(),
            decreases_to!(*self => self.spec_forest()),
    {
    }

    /// Returns `true` if the node has no children.
    pub fn is_leaf(&self) -> (b: bool)
        requires
            self.wf(),
        ensures
            b == (self@.children.len() == 0),
    {
        self.forest.is_empty()
    }

    /// Returns the number of children.
    pub fn degree(&self) -> (n: usize)
        requires
            self.wf(),
        ensures
            n == self@.degree(),
    {
        self.forest.degree()
    }

    /// Returns the number of nodes of the subtree, this node included.
    /// Every node of the subtree is visited to count them.
    pub fn node_count(&self) -> (n: usize)
        requires
            self.wf(),
            self@.node_count() <= usize::MAX,
        ensures
            n == self@.node_count(),
        decreases self,
    {
        1 + self.forest.node_count()
    }

    /// Returns the data of the node.
    pub fn data(&self) -> (data: &T)
        ensures
            *data == self@.data,
    {
        &self.data
    }

    /// Replaces the data of the node.
    pub fn set_data(&mut self, data: T)
        ensures
            final(self)@ == (Shape { data, children: old(self)@.children }),
            final(self).wf() == old(self).wf(),
    {
        self.data = data;
    }

    /// Returns the children as a forest.
    pub fn forest(&self) -> (forest: &Forest<T>)
        ensures
            *forest == self.spec_forest(),
            forest.wf() == self.wf(),
            forest@ == self@.children,
    {
        &self.forest
    }

    /// Returns the children as a forest, for changing it in place.
    pub fn forest_mut(&mut self) -> (forest: &mut Forest<T>)
        ensures
            *forest == old(self).spec_forest(),
            forest.wf() == old(self).wf(),
            forest@ == old(self)@.children,
            final(self).wf() == final(forest).wf(),
            final(self)@ == old(self)@.with_children(final(forest)@),
    {
        &mut self.forest
    }

    /// Takes the node apart into its data and the forest of its children.
    pub(crate) fn into_parts(self) -> (parts: (T, Forest<T>))
        requires
            self.wf(),
        ensures
            parts.1.wf(),
            self@ == (Shape { data: parts.0, children: parts.1@ }),
    {
        (self.data, self.forest)
    }

    /// Removes all the children and returns them as a forest.
    pub(crate) fn abandon(&mut self) -> (forest: Forest<T>)
        requires
            old(self).wf(),
        ensures
            final(self).wf(),
            forest.wf(),
            forest@ == old(self)@.children,
            final(self)@ == old(self)@.abandon(),
    {
        let mut forest = Forest::new();
        core::mem::swap(&mut self.forest, &mut forest);
        forest
    }

    /// Returns the first child, or `None` if the node is a leaf.
    pub fn first(&self) -> (node: Option<&Node<T>>)
        requires
            self.wf(),
        ensures
            self@.children.len() == 0 ==> node is None,
            self@.children.len() > 0 ==> node is Some && node.unwrap().wf() && node.unwrap()@ == self@.children[0],
    {
        self.forest.first()
    }

    /// Returns the last child, or `None` if the node is a leaf.
    pub fn last(&self) -> (node: Option<&Node<T>>)
        requires
            self.wf(),
        ensures
            self@.children.len() == 0 ==> node is None,
            self@.children.len() > 0 ==> node is Some && node.unwrap().wf() && node.unwrap()@ == self@.children.last(),
    {
        self.forest.last()
    }

    /// Returns the first child for changing it in place, or `None` if the
    /// node is a leaf.
    pub fn first_mut(&mut self) -> (node: Option<&mut Node<T>>)
        requires
            old(self).wf(),
        ensures
            old(self)@.children.len() == 0 ==> node is None && *final(self) == *old(self),
            old(self)@.children.len() > 0 ==> node is Some && node.unwrap().wf() && node.unwrap()@ == old(self)@.children[0]
                && final(self)@ == old(self)@.with_children(old(self)@.children.update(0, final(node.unwrap())@))
                && (final(node.unwrap()).wf() ==> final(self).wf()),
    {
        self.forest.first_mut()
    }

    /// Returns the last child for changing it in place, or `None` if the
    /// node is a leaf.
    pub fn last_mut(&mut self) -> (node: Option<&mut Node<T>>)
        requires
            old(self).wf(),
        ensures
            old(self)@.children.len() == 0 ==> node is None && *final(self) == *old(self),
            old(self)@.children.len() > 0 ==> node is Some && node.unwrap().wf() && node.unwrap()@ == old(self)@.children.last()
                && final(self)@ == old(self)@.with_children(old(self)@.children.update(old(self)@.children.len() - 1, final(node.unwrap())@))
                && (final(node.unwrap()).wf() ==> final(self).wf()),
    {
        self.forest.last_mut()
    }

    /// Provides a forward iterator over the children.
    pub fn iter(&self) -> (iter: Iter<'_, T>)
        requires
            self.wf(),
        ensures
            iter.wf(),
            iter@ == self@.children,
            iter.source() == self.spec_forest(),
            decreases_to!(*self => iter.source()),
    {
        self.forest.iter()
    }

    /// Provides a forward iterator over the children that lets each child
    /// be changed in place.
    pub fn iter_mut(&mut self) -> (iter: IterMut<'_, T>)
        requires
            old(self).wf(),
        ensures
            iter.wf(),
            iter.pos@ == 0,
            iter.forest@ == old(self)@.children,
            final(self).wf() == final(iter.forest).wf(),
            final(self)@ == old(self)@.with_children(final(iter.forest)@),
    {
        self.forest.iter_mut()
    }

    /// Provides an iterator over the children that can put trees in and
    /// take trees out on its way.
    pub fn onto_iter(&mut self) -> (iter: OntoIter<'_, T>)
        requires
            old(self).wf(),
        ensures
            iter.wf(),
            iter.forest@ == old(self)@.children,
            iter.rest@.len() == old(self)@.children.len(),
            final(self).wf() == final(iter.forest).wf(),
            final(self)@ == old(self)@.with_children(final(iter.forest)@),
    {
        proof {
            self.forest.lemma_ring();
        }
        self.forest.onto_iter()
    }

    /// Provides the visits of the nodes of the subtree in a depth-first
    /// manner.
    pub fn walk(&self) -> (walk: Walk<'_, T>)
        requires
            self.wf(),
        ensures
            walk.wf(),
            walk@ == events(self@),
    {
        Walk::new(self)
    }

    /// Adds the trees of `forest` behind the children, one after the
    /// other.
    pub fn extend(&mut self, forest: Forest<T>)
        requires
            old(self).wf(),
            forest.wf(),
        ensures
            final(self).wf(),
            final(self)@ == old(self)@.append(forest@),
    {
        self.forest.extend(forest.into_iter());
    }

    /// Provides the visits of the nodes of the subtree in a breadth-first
    /// manner, with the size of the subtree.
    pub fn bfs(&self) -> (bfs: BfsTree<Splitted<'_, T>>)
        requires
            self.wf(),
            self@.node_count() <= u32::MAX,
        ensures
            bfs.iter.wf(),
            bfs.iter@ == seq![self@],
            bfs.size.degree == 1,
            bfs.size.node_cnt == self@.node_count(),
    {
        let count = self.node_count();
        BfsTree::from(Splitted::from_node(self), Size { degree: 1, node_cnt: count as u32 })
    }

    /// Adds the tree as the first child.
    pub fn push_front(&mut self, tree: Tree<T>)
        requires
            old(self).wf(),
            tree.wf(),
        ensures
            final(self).wf(),
            final(self)@ == old(self)@.push_front(tree@),
    {
        self.forest.push_front(tree);
    }

    /// Adds the tree as the last child.
    pub fn push_back(&mut self, tree: Tree<T>)
        requires
            old(self).wf(),
            tree.wf(),
        ensures
            final(self).wf(),
            final(self)@ == old(self)@.push_back(tree@),
    {
        self.forest.push_back(tree);
    }

    /// Removes and returns the first child, or `None` if the node is a
    /// leaf.
    pub fn pop_front(&mut self) -> (tree: Option<Tree<T>>)
        requires
            old(self).wf(),
        ensures
            final(self).wf(),
            old(self)@.children.len() == 0 ==> tree is None && final(self)@ == old(self)@,
            old(self)@.children.len() > 0 ==> tree is Some && tree.unwrap().wf() && tree.unwrap()@ == old(self)@.children[0]
                && final(self)@ == old(self)@.pop_front(),
    {
        self.forest.pop_front()
    }

    /// Removes and returns the last child, or `None` if the node is a
    /// leaf.
    pub fn pop_back(&mut self) -> (tree: Option<Tree<T>>)
        requires
            old(self).wf(),
        ensures
            final(self).wf(),
            old(self)@.children.len() == 0 ==> tree is None && final(self)@ == old(self)@,
            old(self)@.children.len() > 0 ==> tree is Some && tree.unwrap().wf() && tree.unwrap()@ == old(self)@.children.last()
                && final(self)@ == old(self)@.pop_back(),
    {
        self.forest.pop_back()
    }

    /// Adds all the trees of `forest` in front of the children, in their
    /// order.
    pub fn prepend(&mut self, forest: Forest<T>)
        requires
            old(self).wf(),
            forest.wf(),
        ensures
            final(self).wf(),
            final(self)@ == old(self)@.prepend(forest@),
    {
        self.forest.prepend(forest);
    }

    /// Adds all the trees of `forest` behind the children, in their
    /// order.
    pub fn append(&mut self, forest: Forest<T>)
        requires
            old(self).wf(),
            forest.wf(),
        ensures
            final(self).wf(),
            final(self)@ == old(self)@.append(forest@),
    {
        self.forest.append(forest);
    }
}

impl<T: Clone> Node<T> {
    /// Makes a tree that is a copy of the subtree of this node, with a
    /// clone of the data at each node.
    pub fn to_owned(&self) -> (tree: Tree<T>)
        requires
            self.wf(),
        ensures
            tree.wf(),
            cloned_tree(self@, tree@),
        decreases self,
    {
        let data = self.data.clone();
        let forest = self.forest.clone();
        Tree::from_parts(data, forest)
    }
}

} // verus!
