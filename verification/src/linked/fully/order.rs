//! Ordering of trees and forests: by the data of the roots first, then
//! by the children, the first that differ deciding.

use vstd::prelude::*;
use vstd::std_specs::cmp::{OrdSpec, PartialOrdSpec};
use core::cmp::Ordering;
use super::forest::Forest;
use super::iter::Iter;
use super::node::Node;
use super::tree::Tree;
use crate::shape::Shape;

verus! {

/// How two trees compare where the data may be incomparable: as their
/// data compare, and where the data are equal, as their children
/// compare.
pub open spec fn partial_order_of_trees<T: PartialOrd>(a: Shape<T>, b: Shape<T>) -> Option<Ordering>
    decreases a,
{
    match a.data.partial_cmp_spec(&b.data) {
        Some(Ordering::Equal) => partial_order_of_forests(a.children, b.children),
        other => other,
    }
}

/// How two forests compare where the data may be incomparable: as the
/// first trees compare that are not equal, and where one forest ends
/// before such trees are found, the shorter as the less.
pub open spec fn partial_order_of_forests<T: PartialOrd>(a: Seq<Shape<T>>, b: Seq<Shape<T>>) -> Option<Ordering>
    decreases a,
{
    if a.len() == 0 {
        if b.len() == 0 {
            Some(Ordering::Equal)
        } else {
            Some(Ordering::Less)
        }
    } else if b.len() == 0 {
        Some(Ordering::Greater)
    } else {
        match partial_order_of_trees(a[0], b[0]) {
            Some(Ordering::Equal) => partial_order_of_forests(a.drop_first(), b.drop_first()),
            other => other,
        }
    }
}

/// How two trees compare: as their data compare, and where the data are
/// equal, as their children compare.
pub open spec fn order_of_trees<T: Ord>(a: Shape<T>, b: Shape<T>) -> Ordering
    decreases a,
{
    match a.data.cmp_spec(&b.data) {
        Ordering::Equal => order_of_forests(a.children, b.children),
        other => other,
    }
}

/// How two forests compare: as the first trees compare that are not
/// equal, and where one forest ends before such trees are found, the
/// shorter as the less.
pub open spec fn order_of_forests<T: Ord>(a: Seq<Shape<T>>, b: Seq<Shape<T>>) -> Ordering
    decreases a,
{
    if a.len() == 0 {
        if b.len() == 0 {
            Ordering::Equal
        } else {
            Ordering::Less
        }
    } else if b.len() == 0 {
        Ordering::Greater
    } else {
        match order_of_trees(a[0], b[0]) {
            Ordering::Equal => order_of_forests(a.drop_first(), b.drop_first()),
            other => other,
        }
    }
}

/// Compares what two iterators are yet to yield, tree by tree.
fn partial_cmp_rest<'a, T: PartialOrd>(mine: Iter<'a, T>, theirs: Iter<'a, T>, Ghost(bound): Ghost<Forest<T>>) -> (order: Option<
    Ordering,
>)
    requires
        mine.wf(),
        theirs.wf(),
        mine.source() == bound,
    ensures
        T::obeys_partial_cmp_spec() ==> order == partial_order_of_forests(mine@, theirs@),
    decreases bound, 0nat,
{
    let mut left = mine;
    let mut right = theirs;
    loop
        invariant
            left.wf(),
            right.wf(),
            left.source() == bound,
            T::obeys_partial_cmp_spec() ==> partial_order_of_forests(left@, right@) == partial_order_of_forests(mine@, theirs@),
        decreases left@.len(),
    {
        match left.next() {
            Some(x) => {
                match right.next() {
                    Some(y) => {
                        match x.partial_cmp(y) {
                            Some(Ordering::Equal) => {},
                            other => {
                                return other;
                            },
                        }
                    },
                    None => {
                        return Some(Ordering::Greater);
                    },
                }
            },
            None => {
                return match right.next() {
                    Some(_) => Some(Ordering::Less),
                    None => Some(Ordering::Equal),
                };
            },
        }
    }
}

/// Compares what two iterators are yet to yield, tree by tree.
fn cmp_rest<'a, T: Ord>(mine: Iter<'a, T>, theirs: Iter<'a, T>, Ghost(bound): Ghost<Forest<T>>) -> (order: Ordering)
    requires
        mine.wf(),
        theirs.wf(),
        mine.source() == bound,
    ensures
        T::obeys_cmp_spec() ==> order == order_of_forests(mine@, theirs@),
    decreases bound, 0nat,
{
    let mut left = mine;
    let mut right = theirs;
    loop
        invariant
            left.wf(),
            right.wf(),
            left.source() == bound,
            T::obeys_cmp_spec() ==> order_of_forests(left@, right@) == order_of_forests(mine@, theirs@),
        decreases left@.len(),
    {
        match left.next() {
            Some(x) => {
                match right.next() {
                    Some(y) => {
                        match x.cmp(y) {
                            Ordering::Equal => {},
                            other => {
                                return other;
                            },
                        }
                    },
                    None => {
                        return Ordering::Greater;
                    },
                }
            },
            None => {
                return match right.next() {
                    Some(_) => Ordering::Less,
                    None => Ordering::Equal,
                };
            },
        }
    }
}

impl<T: PartialOrd> Node<T> {
    /// Compares the subtrees of the two nodes, where the data may be
    /// incomparable.
    pub fn partial_cmp(&self, other: &Node<T>) -> (order: Option<Ordering>)
        requires
            self.wf(),
            other.wf(),
        ensures
            T::obeys_partial_cmp_spec() ==> order == partial_order_of_trees(self@, other@),
        decreases self, 1nat,
    {
        match self.data().partial_cmp(other.data()) {
            Some(Ordering::Equal) => {
                let mine = self.iter();
                partial_cmp_rest(mine, other.iter(), Ghost(mine.source()))
            },
            other => other,
        }
    }
}

impl<T: Ord> Node<T> {
    /// Compares the subtrees of the two nodes.
    pub fn cmp(&self, other: &Node<T>) -> (order: Ordering)
        requires
            self.wf(),
            other.wf(),
        ensures
            T::obeys_cmp_spec() ==> order == order_of_trees(self@, other@),
        decreases self, 1nat,
    {
        match self.data().cmp(other.data()) {
            Ordering::Equal => {
                let mine = self.iter();
                cmp_rest(mine, other.iter(), Ghost(mine.source()))
            },
            other => other,
        }
    }
}

impl<T: PartialOrd> Tree<T> {
    /// Compares the two trees, where the data may be incomparable.
    pub fn partial_cmp(&self, other: &Tree<T>) -> (order: Option<Ordering>)
        requires
            self.wf(),
            other.wf(),
        ensures
            T::obeys_partial_cmp_spec() ==> order == partial_order_of_trees(self@, other@),
    {
        self.root().partial_cmp(other.root())
    }
}

impl<T: Ord> Tree<T> {
    /// Compares the two trees.
    pub fn cmp(&self, other: &Tree<T>) -> (order: Ordering)
        requires
            self.wf(),
            other.wf(),
        ensures
            T::obeys_cmp_spec() ==> order == order_of_trees(self@, other@),
    {
        self.root().cmp(other.root())
    }
}

impl<T: PartialOrd> Forest<T> {
    /// Compares the two forests, where the data may be incomparable.
    pub fn partial_cmp(&self, other: &Forest<T>) -> (order: Option<Ordering>)
        requires
            self.wf(),
            other.wf(),
        ensures
            T::obeys_partial_cmp_spec() ==> order == partial_order_of_forests(self@, other@),
    {
        let mine = self.iter();
        partial_cmp_rest(mine, other.iter(), Ghost(mine.source()))
    }
}

impl<T: Ord> Forest<T> {
    /// Compares the two forests.
    pub fn cmp(&self, other: &Forest<T>) -> (order: Ordering)
        requires
            self.wf(),
            other.wf(),
        ensures
            T::obeys_cmp_spec() ==> order == order_of_forests(self@, other@),
    {
        let mine = self.iter();
        cmp_rest(mine, other.iter(), Ghost(mine.source()))
    }
}

} // verus!
