//! Tree node implementation.

use vstd::prelude::*;
use crate::size::Size;

verus! {

/// Indices of which one stands for "no node".
pub trait NullIndex: Sized {
    /// Whether the index stands for "no node", in specifications.
    spec fn spec_is_null(self) -> bool;

    /// Returns the index that stands for "no node".
    fn null() -> (index: Self)
        ensures
            index.spec_is_null(),
    ;

    /// Returns `true` if the index stands for "no node".
    fn is_null(self) -> (b: bool)
        ensures
            b == self.spec_is_null(),
    ;
}

impl NullIndex for u32 {
    open spec fn spec_is_null(self) -> bool {
        self == 0
    }

    fn null() -> (index: u32) {
        0
    }

    fn is_null(self) -> (b: bool) {
        self == 0
    }
}

impl NullIndex for usize {
    open spec fn spec_is_null(self) -> bool {
        self == 0
    }

    fn null() -> (index: usize) {
        0
    }

    fn is_null(self) -> (b: bool) {
        self == 0
    }
}

/// One node in the pot: the positions of its neighbours, its size, its
/// own position, and its data.
pub struct Node<T> {
    /// next sibling
    pub(crate) next: usize,
    /// last child
    pub(crate) child: usize,
    /// previous sibling
    pub(crate) prev: usize,
    /// parent node
    pub(crate) parent: usize,
    /// count of children and count of all nodes, including itself and
    /// all its descendants
    pub(crate) size: Size,
    /// position in the pot
    pub(crate) index: usize,
    /// the data, which only the node that stands for "no node" and the
    /// fake root of a forest lack
    pub(crate) data: Option<T>,
}

impl<T> Node<T> {
    /// The data of the node, in specifications.
    pub closed spec fn spec_data(&self) -> Option<T> {
        self.data
    }

    /// The position of the last child, in specifications.
    pub closed spec fn spec_child(&self) -> usize {
        self.child
    }

    /// The size of the node, in specifications.
    pub closed spec fn spec_size(&self) -> Size {
        self.size
    }

    /// The position of the node in the pot, in specifications.
    pub closed spec fn spec_index(&self) -> usize {
        self.index
    }

    /// What the node says of itself in specifications is what its fields
    /// hold.
    pub(crate) proof fn lemma_fields(&self)
        ensures
            self.spec_data() == self.data,
            self.spec_child() == self.child,
            self.spec_size() == self.size,
            self.spec_index() == self.index,
    {
    }

    /// The node with `data` in place of its data.
    pub closed spec fn with_data(&self, data: T) -> Node<T> {
        Node { data: Some(data), ..*self }
    }

    /// A node with other data is the same node but for its data.
    pub(crate) proof fn lemma_with_data(&self, data: T)
        ensures
            self.with_data(data) == (Node { data: Some(data), ..*self }),
    {
    }

    #[inline]
    pub(crate) fn next(&self) -> (index: usize)
        ensures
            index == self.next,
    {
        self.next
    }

    #[inline]
    pub(crate) fn child(&self) -> (index: usize)
        ensures
            index == self.child,
    {
        self.child
    }

    /// Returns the position of the node in the pot.
    #[inline]
    pub fn index(&self) -> (index: usize)
        ensures
            index == self.spec_index(),
    {
        self.index
    }

    /// Returns the number of children.
    #[inline]
    pub fn degree(&self) -> (n: usize)
        ensures
            n == self.spec_size().degree,
    {
        self.size.degree as usize
    }

    /// Returns the number of nodes of the subtree, this node included.
    #[inline]
    pub fn node_count(&self) -> (n: usize)
        ensures
            n == self.spec_size().node_cnt,
    {
        self.size.node_cnt as usize
    }

    #[inline]
    pub(crate) fn set_next(&mut self, index: usize)
        ensures
            *final(self) == (Node { next: index, ..*old(self) }),
    {
        self.next = index;
    }

    #[inline]
    pub(crate) fn set_prev(&mut self, index: usize)
        ensures
            *final(self) == (Node { prev: index, ..*old(self) }),
    {
        self.prev = index;
    }

    #[inline]
    pub(crate) fn set_child(&mut self, index: usize)
        ensures
            *final(self) == (Node { child: index, ..*old(self) }),
    {
        self.child = index;
    }

    #[inline]
    pub(crate) fn set_parent(&mut self, index: usize)
        ensures
            *final(self) == (Node { parent: index, ..*old(self) }),
    {
        self.parent = index;
    }

    #[inline]
    pub(crate) fn reset_child(&mut self)
        ensures
            *final(self) == (Node { child: 0, ..*old(self) }),
    {
        self.set_child(usize::null());
    }

    /// Returns `true` if the node has no children.
    #[inline]
    pub fn is_leaf(&self) -> (b: bool)
        ensures
            b == (self.spec_child() == 0),
    {
        self.child.is_null()
    }

    /// Returns the data of the node.
    #[inline]
    pub fn data(&self) -> (data: &T)
        requires
            self.spec_data() is Some,
        ensures
            *data == self.spec_data().unwrap(),
    {
        self.data.as_ref().unwrap()
    }

    /// Returns the data of the node, for changing it in place.
    #[inline]
    pub fn data_mut(&mut self) -> (data: &mut T)
        requires
            old(self).spec_data() is Some,
        ensures
            *data == old(self).spec_data().unwrap(),
            *final(self) == old(self).with_data(*final(data)),
    {
        self.data.as_mut().unwrap()
    }

    /// Replaces the data of the node.
    #[inline]
    pub fn set_data(&mut self, data: T)
        ensures
            *final(self) == old(self).with_data(data),
    {
        self.data = Some(data);
    }
}

} // verus!
