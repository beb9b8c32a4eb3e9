//! Equality of trees and forests: the same data at the same places.

use vstd::prelude::*;
use vstd::std_specs::cmp::PartialEqSpec;
use super::forest::Forest;
use super::node::Node;
use super::tree::Tree;
use crate::shape::Shape;

verus! {

/// Whether two trees hold equal data at their roots and have equal
/// children, one by one.
pub open spec fn equal_trees<T: PartialEq>(a: Shape<T>, b: Shape<T>) -> bool
    decreases a,
{
    &&& a.data.eq_spec(&b.data)
    &&& a.children.len() == b.children.len()
    &&& forall|i: int| 0 <= i < a.children.len() ==> equal_trees(#[trigger] a.children[i], b.children[i])
}

/// Whether two forests have equal trees, one by one.
pub open spec fn equal_forests<T: PartialEq>(a: Seq<Shape<T>>, b: Seq<Shape<T>>) -> bool {
    &&& a.len() == b.len()
    &&& forall|i: int| 0 <= i < a.len() ==> equal_trees(#[trigger] a[i], b[i])
}

impl<T: PartialEq> Node<T> {
    /// Returns `true` if the subtrees of the two nodes are equal.
    pub fn eq(&self, other: &Node<T>) -> (b: bool)
        requires
            self.wf(),
            other.wf(),
        ensures
            T::obeys_eq_spec() ==> b == equal_trees(self@, other@),
        decreases self,
    {
        if !(*self.data() == *other.data()) {
            return false;
        }
        let mut mine = self.iter();
        let mut theirs = other.iter();
        if mine.len() != theirs.len() {
            return false;
        }
        let ghost done: int = 0;
        loop
            invariant
                mine.wf(),
                theirs.wf(),
                decreases_to!(*self => mine.source()),
                0 <= done <= self@.children.len(),
                self@.children.len() == other@.children.len(),
                mine@ == self@.children.skip(done),
                theirs@ == other@.children.skip(done),
                T::obeys_eq_spec() ==> self@.data.eq_spec(&other@.data),
                T::obeys_eq_spec() ==> forall|i: int| 0 <= i < done ==> equal_trees(#[trigger] self@.children[i], other@.children[i]),
            decreases mine@.len(),
        {
            match mine.next() {
                Some(x) => {
                    match theirs.next() {
                        Some(y) => {
                            let same = x.eq(y);
                            proof {
                                assert(self@.children.skip(done)[0] == self@.children[done]);
                                assert(other@.children.skip(done)[0] == other@.children[done]);
                                assert(self@.children.skip(done).drop_first() =~= self@.children.skip(done + 1));
                                assert(other@.children.skip(done).drop_first() =~= other@.children.skip(done + 1));
                            }
                            if !same {
                                return false;
                            }
                            proof {
                                done = done + 1;
                            }
                        },
                        None => {
                            return false;
                        },
                    }
                },
                None => {
                    return true;
                },
            }
        }
    }
}

impl<T: PartialEq> Tree<T> {
    /// Returns `true` if the two trees are equal.
    pub fn eq(&self, other: &Tree<T>) -> (b: bool)
        requires
            self.wf(),
            other.wf(),
        ensures
            T::obeys_eq_spec() ==> b == equal_trees(self@, other@),
    {
        self.root().eq(other.root())
    }
}

impl<T: PartialEq> Forest<T> {
    /// Returns `true` if the two forests are equal.
    pub fn eq(&self, other: &Forest<T>) -> (b: bool)
        requires
            self.wf(),
            other.wf(),
        ensures
            T::obeys_eq_spec() ==> b == equal_forests(self@, other@),
    {
        let mut mine = self.iter();
        let mut theirs = other.iter();
        if mine.len() != theirs.len() {
            return false;
        }
        let ghost done: int = 0;
        loop
            invariant
                mine.wf(),
                theirs.wf(),
                0 <= done <= self@.len(),
                self@.len() == other@.len(),
                mine@ == self@.skip(done),
                theirs@ == other@.skip(done),
                T::obeys_eq_spec() ==> forall|i: int| 0 <= i < done ==> equal_trees(#[trigger] self@[i], other@[i]),
            decreases mine@.len(),
        {
            match mine.next() {
                Some(x) => {
                    match theirs.next() {
                        Some(y) => {
                            let same = x.eq(y);
                            proof {
                                assert(self@.skip(done)[0] == self@[done]);
                                assert(other@.skip(done)[0] == other@[done]);
                                assert(self@.skip(done).drop_first() =~= self@.skip(done + 1));
                                assert(other@.skip(done).drop_first() =~= other@.skip(done + 1));
                            }
                            if !same {
                                return false;
                            }
                            proof {
                                done = done + 1;
                            }
                        },
                        None => {
                            return false;
                        },
                    }
                },
                None => {
                    return true;
                },
            }
        }
    }
}

} // verus!
