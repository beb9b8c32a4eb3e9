//! Notations for building trees and forests: `tr(0) / tr(1) / tr(2)`
//! is the tree with root 0 and children 1 and 2, and `tr(1) - tr(2)` is
//! the forest of the trees 1 and 2.

use vstd::prelude::*;
use vstd::std_specs::ops::{DivSpecImpl, NegSpecImpl, SubSpecImpl};
use super::fully::forest::Forest;
use super::fully::tree::Tree;
use crate::shape::{cloned_forest, cloned_tree, Shape};

verus! {

/// Makes a tree of one node that holds `data`.
pub fn tr<T>(data: T) -> (tree: Tree<T>)
    ensures
        tree.wf(),
        tree@ == Shape::leaf(data),
{
    Tree::new(data)
}

/// Makes an empty forest.
pub fn fr<T>() -> (forest: Forest<T>)
    ensures
        forest.wf(),
        forest@ == Seq::<Shape<T>>::empty(),
{
    Forest::new()
}

impl<T> NegSpecImpl for Tree<T> {
    open spec fn obeys_neg_spec() -> bool {
        false
    }

    open spec fn neg_req(self) -> bool {
        self.wf()
    }

    open spec fn neg_spec(self) -> Forest<T> {
        arbitrary()
    }
}

/// `-tree` is the forest that holds `tree` alone; a tree that is given
/// by reference is copied.
impl<T> core::ops::Neg for Tree<T> {
    type Output = Forest<T>;

    fn neg(self) -> (forest: Forest<T>)
        ensures
            forest.wf(),
            forest@.len() == 1,
            forest@[0] == self@,
    {
        let mut forest = fr();
        forest.push_back(self);
        forest
    }
}

impl<'a, T: Clone> NegSpecImpl for &'a Tree<T> {
    open spec fn obeys_neg_spec() -> bool {
        false
    }

    open spec fn neg_req(self) -> bool {
        self.wf()
    }

    open spec fn neg_spec(self) -> Forest<T> {
        arbitrary()
    }
}

/// `-tree` is the forest that holds `tree` alone; a tree that is given
/// by reference is copied.
impl<'a, T: Clone> core::ops::Neg for &'a Tree<T> {
    type Output = Forest<T>;

    fn neg(self) -> (forest: Forest<T>)
        ensures
            forest.wf(),
            forest@.len() == 1,
            cloned_tree(self@, forest@[0]),
    {
        let mut forest = fr();
        forest.push_back(self.clone());
        forest
    }
}

impl<T> SubSpecImpl<Tree<T>> for Tree<T> {
    open spec fn obeys_sub_spec() -> bool {
        false
    }

    open spec fn sub_req(self, rhs: Tree<T>) -> bool {
        self.wf() && rhs.wf()
    }

    open spec fn sub_spec(self, rhs: Tree<T>) -> Forest<T> {
        arbitrary()
    }
}

/// `a - b` is the forest of the trees `a` and `b`; a tree that is given
/// by reference is copied.
impl<T> core::ops::Sub<Tree<T>> for Tree<T> {
    type Output = Forest<T>;

    fn sub(self, rhs: Tree<T>) -> (forest: Forest<T>)
        ensures
            forest.wf(),
            forest@.len() == 2,
            forest@[0] == self@,
            forest@[1] == rhs@,
    {
        let mut forest = fr();
        forest.push_back(self);
        forest.push_back(rhs);
        forest
    }
}

impl<'a, T: Clone> SubSpecImpl<&'a Tree<T>> for Tree<T> {
    open spec fn obeys_sub_spec() -> bool {
        false
    }

    open spec fn sub_req(self, rhs: &'a Tree<T>) -> bool {
        self.wf() && rhs.wf()
    }

    open spec fn sub_spec(self, rhs: &'a Tree<T>) -> Forest<T> {
        arbitrary()
    }
}

/// `a - b` is the forest of the trees `a` and `b`; a tree that is given
/// by reference is copied.
impl<'a, T: Clone> core::ops::Sub<&'a Tree<T>> for Tree<T> {
    type Output = Forest<T>;

    fn sub(self, rhs: &'a Tree<T>) -> (forest: Forest<T>)
        ensures
            forest.wf(),
            forest@.len() == 2,
            forest@[0] == self@,
            cloned_tree(rhs@, forest@[1]),
    {
        let mut forest = fr();
        forest.push_back(self);
        forest.push_back(rhs.clone());
        forest
    }
}

impl<'a, T: Clone> SubSpecImpl<Tree<T>> for &'a Tree<T> {
    open spec fn obeys_sub_spec() -> bool {
        false
    }

    open spec fn sub_req(self, rhs: Tree<T>) -> bool {
        self.wf() && rhs.wf()
    }

    open spec fn sub_spec(self, rhs: Tree<T>) -> Forest<T> {
        arbitrary()
    }
}

/// `a - b` is the forest of the trees `a` and `b`; a tree that is given
/// by reference is copied.
impl<'a, T: Clone> core::ops::Sub<Tree<T>> for &'a Tree<T> {
    type Output = Forest<T>;

    fn sub(self, rhs: Tree<T>) -> (forest: Forest<T>)
        ensures
            forest.wf(),
            forest@.len() == 2,
            cloned_tree(self@, forest@[0]),
            forest@[1] == rhs@,
    {
        let mut forest = fr();
        forest.push_back(self.clone());
        forest.push_back(rhs);
        forest
    }
}

impl<'a, T: Clone> SubSpecImpl<&'a Tree<T>> for &'a Tree<T> {
    open spec fn obeys_sub_spec() -> bool {
        false
    }

    open spec fn sub_req(self, rhs: &'a Tree<T>) -> bool {
        self.wf() && rhs.wf()
    }

    open spec fn sub_spec(self, rhs: &'a Tree<T>) -> Forest<T> {
        arbitrary()
    }
}

/// `a - b` is the forest of the trees `a` and `b`; a tree that is given
/// by reference is copied.
impl<'a, T: Clone> core::ops::Sub<&'a Tree<T>> for &'a Tree<T> {
    type Output = Forest<T>;

    fn sub(self, rhs: &'a Tree<T>) -> (forest: Forest<T>)
        ensures
            forest.wf(),
            forest@.len() == 2,
            cloned_tree(self@, forest@[0]),
            cloned_tree(rhs@, forest@[1]),
    {
        let mut forest = fr();
        forest.push_back(self.clone());
        forest.push_back(rhs.clone());
        forest
    }
}

impl<T> DivSpecImpl<Forest<T>> for Tree<T> {
    open spec fn obeys_div_spec() -> bool {
        false
    }

    open spec fn div_req(self, rhs: Forest<T>) -> bool {
        self.wf() && rhs.wf()
    }

    open spec fn div_spec(self, rhs: Forest<T>) -> Tree<T> {
        arbitrary()
    }
}

/// `tree / forest` is `tree` with the trees of `forest` behind its
/// children; what is given by reference is copied.
impl<T> core::ops::Div<Forest<T>> for Tree<T> {
    type Output = Tree<T>;

    fn div(self, rhs: Forest<T>) -> (tree: Tree<T>)
        ensures
            tree.wf(),
            tree@.children.len() == self@.children.len() + rhs@.len(),
            tree@.data == self@.data,
            tree@.children.take(self@.children.len() as int) == self@.children,
            tree@.children.skip(self@.children.len() as int) == rhs@,
    {
        let mut tree = self;
        let forest = rhs;
        let ghost base = tree@;
        tree.root_mut().append(forest);
        proof {
            assert(tree@.children.take(base.children.len() as int) =~= base.children);
            assert(tree@.children.skip(base.children.len() as int) =~= forest@);
        }
        tree
    }
}

impl<'a, T: Clone> DivSpecImpl<&'a Forest<T>> for Tree<T> {
    open spec fn obeys_div_spec() -> bool {
        false
    }

    open spec fn div_req(self, rhs: &'a Forest<T>) -> bool {
        self.wf() && rhs.wf()
    }

    open spec fn div_spec(self, rhs: &'a Forest<T>) -> Tree<T> {
        arbitrary()
    }
}

/// `tree / forest` is `tree` with the trees of `forest` behind its
/// children; what is given by reference is copied.
impl<'a, T: Clone> core::ops::Div<&'a Forest<T>> for Tree<T> {
    type Output = Tree<T>;

    fn div(self, rhs: &'a Forest<T>) -> (tree: Tree<T>)
        ensures
            tree.wf(),
            tree@.children.len() == self@.children.len() + rhs@.len(),
            tree@.data == self@.data,
            tree@.children.take(self@.children.len() as int) == self@.children,
            cloned_forest(rhs@, tree@.children.skip(self@.children.len() as int)),
    {
        let mut tree = self;
        let forest = rhs.clone();
        let ghost base = tree@;
        tree.root_mut().append(forest);
        proof {
            assert(tree@.children.take(base.children.len() as int) =~= base.children);
            assert(tree@.children.skip(base.children.len() as int) =~= forest@);
        }
        tree
    }
}

impl<'a, T: Clone> DivSpecImpl<Forest<T>> for &'a Tree<T> {
    open spec fn obeys_div_spec() -> bool {
        false
    }

    open spec fn div_req(self, rhs: Forest<T>) -> bool {
        self.wf() && rhs.wf()
    }

    open spec fn div_spec(self, rhs: Forest<T>) -> Tree<T> {
        arbitrary()
    }
}

/// `tree / forest` is `tree` with the trees of `forest` behind its
/// children; what is given by reference is copied.
impl<'a, T: Clone> core::ops::Div<Forest<T>> for &'a Tree<T> {
    type Output = Tree<T>;

    fn div(self, rhs: Forest<T>) -> (tree: Tree<T>)
        ensures
            tree.wf(),
            tree@.children.len() == self@.children.len() + rhs@.len(),
            cloned::<T>(self@.data, tree@.data),
            cloned_forest(self@.children, tree@.children.take(self@.children.len() as int)),
            tree@.children.skip(self@.children.len() as int) == rhs@,
    {
        let mut tree = self.clone();
        let forest = rhs;
        let ghost base = tree@;
        tree.root_mut().append(forest);
        proof {
            assert(tree@.children.take(base.children.len() as int) =~= base.children);
            assert(tree@.children.skip(base.children.len() as int) =~= forest@);
        }
        tree
    }
}

impl<'a, T: Clone> DivSpecImpl<&'a Forest<T>> for &'a Tree<T> {
    open spec fn obeys_div_spec() -> bool {
        false
    }

    open spec fn div_req(self, rhs: &'a Forest<T>) -> bool {
        self.wf() && rhs.wf()
    }

    open spec fn div_spec(self, rhs: &'a Forest<T>) -> Tree<T> {
        arbitrary()
    }
}

/// `tree / forest` is `tree` with the trees of `forest` behind its
/// children; what is given by reference is copied.
impl<'a, T: Clone> core::ops::Div<&'a Forest<T>> for &'a Tree<T> {
    type Output = Tree<T>;

    fn div(self, rhs: &'a Forest<T>) -> (tree: Tree<T>)
        ensures
            tree.wf(),
            tree@.children.len() == self@.children.len() + rhs@.len(),
            cloned::<T>(self@.data, tree@.data),
            cloned_forest(self@.children, tree@.children.take(self@.children.len() as int)),
            cloned_forest(rhs@, tree@.children.skip(self@.children.len() as int)),
    {
        let mut tree = self.clone();
        let forest = rhs.clone();
        let ghost base = tree@;
        tree.root_mut().append(forest);
        proof {
            assert(tree@.children.take(base.children.len() as int) =~= base.children);
            assert(tree@.children.skip(base.children.len() as int) =~= forest@);
        }
        tree
    }
}

impl<T> DivSpecImpl<Tree<T>> for Tree<T> {
    open spec fn obeys_div_spec() -> bool {
        false
    }

    open spec fn div_req(self, rhs: Tree<T>) -> bool {
        self.wf() && rhs.wf()
    }

    open spec fn div_spec(self, rhs: Tree<T>) -> Tree<T> {
        arbitrary()
    }
}

/// `tree / child` is `tree` with `child` behind its children; what is
/// given by reference is copied.
impl<T> core::ops::Div<Tree<T>> for Tree<T> {
    type Output = Tree<T>;

    fn div(self, rhs: Tree<T>) -> (tree: Tree<T>)
        ensures
            tree.wf(),
            tree@.children.len() == self@.children.len() + 1,
            tree@.data == self@.data,
            tree@.children.take(self@.children.len() as int) == self@.children,
            tree@.children[self@.children.len() as int] == rhs@,
    {
        let mut tree = self;
        let child = rhs;
        let ghost base = tree@;
        tree.root_mut().push_back(child);
        proof {
            assert(tree@.children.take(base.children.len() as int) =~= base.children);
        }
        tree
    }
}

impl<'a, T: Clone> DivSpecImpl<&'a Tree<T>> for Tree<T> {
    open spec fn obeys_div_spec() -> bool {
        false
    }

    open spec fn div_req(self, rhs: &'a Tree<T>) -> bool {
        self.wf() && rhs.wf()
    }

    open spec fn div_spec(self, rhs: &'a Tree<T>) -> Tree<T> {
        arbitrary()
    }
}

/// `tree / child` is `tree` with `child` behind its children; what is
/// given by reference is copied.
impl<'a, T: Clone> core::ops::Div<&'a Tree<T>> for Tree<T> {
    type Output = Tree<T>;

    fn div(self, rhs: &'a Tree<T>) -> (tree: Tree<T>)
        ensures
            tree.wf(),
            tree@.children.len() == self@.children.len() + 1,
            tree@.data == self@.data,
            tree@.children.take(self@.children.len() as int) == self@.children,
            cloned_tree(rhs@, tree@.children[self@.children.len() as int]),
    {
        let mut tree = self;
        let child = rhs.clone();
        let ghost base = tree@;
        tree.root_mut().push_back(child);
        proof {
            assert(tree@.children.take(base.children.len() as int) =~= base.children);
        }
        tree
    }
}

impl<'a, T: Clone> DivSpecImpl<Tree<T>> for &'a Tree<T> {
    open spec fn obeys_div_spec() -> bool {
        false
    }

    open spec fn div_req(self, rhs: Tree<T>) -> bool {
        self.wf() && rhs.wf()
    }

    open spec fn div_spec(self, rhs: Tree<T>) -> Tree<T> {
        arbitrary()
    }
}

/// `tree / child` is `tree` with `child` behind its children; what is
/// given by reference is copied.
impl<'a, T: Clone> core::ops::Div<Tree<T>> for &'a Tree<T> {
    type Output = Tree<T>;

    fn div(self, rhs: Tree<T>) -> (tree: Tree<T>)
        ensures
            tree.wf(),
            tree@.children.len() == self@.children.len() + 1,
            cloned::<T>(self@.data, tree@.data),
            cloned_forest(self@.children, tree@.children.take(self@.children.len() as int)),
            tree@.children[self@.children.len() as int] == rhs@,
    {
        let mut tree = self.clone();
        let child = rhs;
        let ghost base = tree@;
        tree.root_mut().push_back(child);
        proof {
            assert(tree@.children.take(base.children.len() as int) =~= base.children);
        }
        tree
    }
}

impl<'a, T: Clone> DivSpecImpl<&'a Tree<T>> for &'a Tree<T> {
    open spec fn obeys_div_spec() -> bool {
        false
    }

    open spec fn div_req(self, rhs: &'a Tree<T>) -> bool {
        self.wf() && rhs.wf()
    }

    open spec fn div_spec(self, rhs: &'a Tree<T>) -> Tree<T> {
        arbitrary()
    }
}

/// `tree / child` is `tree` with `child` behind its children; what is
/// given by reference is copied.
impl<'a, T: Clone> core::ops::Div<&'a Tree<T>> for &'a Tree<T> {
    type Output = Tree<T>;

    fn div(self, rhs: &'a Tree<T>) -> (tree: Tree<T>)
        ensures
            tree.wf(),
            tree@.children.len() == self@.children.len() + 1,
            cloned::<T>(self@.data, tree@.data),
            cloned_forest(self@.children, tree@.children.take(self@.children.len() as int)),
            cloned_tree(rhs@, tree@.children[self@.children.len() as int]),
    {
        let mut tree = self.clone();
        let child = rhs.clone();
        let ghost base = tree@;
        tree.root_mut().push_back(child);
        proof {
            assert(tree@.children.take(base.children.len() as int) =~= base.children);
        }
        tree
    }
}

impl<T> DivSpecImpl<()> for Tree<T> {
    open spec fn obeys_div_spec() -> bool {
        false
    }

    open spec fn div_req(self, rhs: ()) -> bool {
        self.wf()
    }

    open spec fn div_spec(self, rhs: ()) -> Tree<T> {
        arbitrary()
    }
}

/// `tree / ()` is `tree`; a tree that is given by reference is copied.
impl<T> core::ops::Div<()> for Tree<T> {
    type Output = Tree<T>;

    fn div(self, rhs: ()) -> (tree: Tree<T>)
        ensures
            tree.wf(),
            tree@ == self@,
    {
        self
    }
}

impl<'a, T: Clone> DivSpecImpl<()> for &'a Tree<T> {
    open spec fn obeys_div_spec() -> bool {
        false
    }

    open spec fn div_req(self, rhs: ()) -> bool {
        self.wf()
    }

    open spec fn div_spec(self, rhs: ()) -> Tree<T> {
        arbitrary()
    }
}

/// `tree / ()` is `tree`; a tree that is given by reference is copied.
impl<'a, T: Clone> core::ops::Div<()> for &'a Tree<T> {
    type Output = Tree<T>;

    fn div(self, rhs: ()) -> (tree: Tree<T>)
        ensures
            tree.wf(),
            cloned_tree(self@, tree@),
    {
        self.clone()
    }
}

impl<T> SubSpecImpl<Tree<T>> for Forest<T> {
    open spec fn obeys_sub_spec() -> bool {
        false
    }

    open spec fn sub_req(self, rhs: Tree<T>) -> bool {
        self.wf() && rhs.wf()
    }

    open spec fn sub_spec(self, rhs: Tree<T>) -> Forest<T> {
        arbitrary()
    }
}

/// `forest - tree` is `forest` with `tree` behind its trees; what is
/// given by reference is copied.
impl<T> core::ops::Sub<Tree<T>> for Forest<T> {
    type Output = Forest<T>;

    fn sub(self, rhs: Tree<T>) -> (forest: Forest<T>)
        ensures
            forest.wf(),
            forest@.len() == self@.len() + 1,
            forest@.take(self@.len() as int) == self@,
            forest@[self@.len() as int] == rhs@,
    {
        let mut forest = self;
        let tree = rhs;
        let ghost base = forest@;
        forest.push_back(tree);
        proof {
            assert(forest@.take(base.len() as int) =~= base);
        }
        forest
    }
}

impl<'a, T: Clone> SubSpecImpl<&'a Tree<T>> for Forest<T> {
    open spec fn obeys_sub_spec() -> bool {
        false
    }

    open spec fn sub_req(self, rhs: &'a Tree<T>) -> bool {
        self.wf() && rhs.wf()
    }

    open spec fn sub_spec(self, rhs: &'a Tree<T>) -> Forest<T> {
        arbitrary()
    }
}

/// `forest - tree` is `forest` with `tree` behind its trees; what is
/// given by reference is copied.
impl<'a, T: Clone> core::ops::Sub<&'a Tree<T>> for Forest<T> {
    type Output = Forest<T>;

    fn sub(self, rhs: &'a Tree<T>) -> (forest: Forest<T>)
        ensures
            forest.wf(),
            forest@.len() == self@.len() + 1,
            forest@.take(self@.len() as int) == self@,
            cloned_tree(rhs@, forest@[self@.len() as int]),
    {
        let mut forest = self;
        let tree = rhs.clone();
        let ghost base = forest@;
        forest.push_back(tree);
        proof {
            assert(forest@.take(base.len() as int) =~= base);
        }
        forest
    }
}

impl<'a, T: Clone> SubSpecImpl<Tree<T>> for &'a Forest<T> {
    open spec fn obeys_sub_spec() -> bool {
        false
    }

    open spec fn sub_req(self, rhs: Tree<T>) -> bool {
        self.wf() && rhs.wf()
    }

    open spec fn sub_spec(self, rhs: Tree<T>) -> Forest<T> {
        arbitrary()
    }
}

/// `forest - tree` is `forest` with `tree` behind its trees; what is
/// given by reference is copied.
impl<'a, T: Clone> core::ops::Sub<Tree<T>> for &'a Forest<T> {
    type Output = Forest<T>;

    fn sub(self, rhs: Tree<T>) -> (forest: Forest<T>)
        ensures
            forest.wf(),
            forest@.len() == self@.len() + 1,
            cloned_forest(self@, forest@.take(self@.len() as int)),
            forest@[self@.len() as int] == rhs@,
    {
        let mut forest = self.clone();
        let tree = rhs;
        let ghost base = forest@;
        forest.push_back(tree);
        proof {
            assert(forest@.take(base.len() as int) =~= base);
        }
        forest
    }
}

impl<'a, T: Clone> SubSpecImpl<&'a Tree<T>> for &'a Forest<T> {
    open spec fn obeys_sub_spec() -> bool {
        false
    }

    open spec fn sub_req(self, rhs: &'a Tree<T>) -> bool {
        self.wf() && rhs.wf()
    }

    open spec fn sub_spec(self, rhs: &'a Tree<T>) -> Forest<T> {
        arbitrary()
    }
}

/// `forest - tree` is `forest` with `tree` behind its trees; what is
/// given by reference is copied.
impl<'a, T: Clone> core::ops::Sub<&'a Tree<T>> for &'a Forest<T> {
    type Output = Forest<T>;

    fn sub(self, rhs: &'a Tree<T>) -> (forest: Forest<T>)
        ensures
            forest.wf(),
            forest@.len() == self@.len() + 1,
            cloned_forest(self@, forest@.take(self@.len() as int)),
            cloned_tree(rhs@, forest@[self@.len() as int]),
    {
        let mut forest = self.clone();
        let tree = rhs.clone();
        let ghost base = forest@;
        forest.push_back(tree);
        proof {
            assert(forest@.take(base.len() as int) =~= base);
        }
        forest
    }
}

impl<T> SubSpecImpl<Forest<T>> for Forest<T> {
    open spec fn obeys_sub_spec() -> bool {
        false
    }

    open spec fn sub_req(self, rhs: Forest<T>) -> bool {
        self.wf() && rhs.wf()
    }

    open spec fn sub_spec(self, rhs: Forest<T>) -> Forest<T> {
        arbitrary()
    }
}

/// `a - b` is the forest of the trees of `a` followed by the trees of
/// `b`; what is given by reference is copied.
impl<T> core::ops::Sub<Forest<T>> for Forest<T> {
    type Output = Forest<T>;

    fn sub(self, rhs: Forest<T>) -> (forest: Forest<T>)
        ensures
            forest.wf(),
            forest@.len() == self@.len() + rhs@.len(),
            forest@.take(self@.len() as int) == self@,
            forest@.skip(self@.len() as int) == rhs@,
    {
        let mut forest = self;
        let other = rhs;
        let ghost base = forest@;
        forest.append(other);
        proof {
            assert(forest@.take(base.len() as int) =~= base);
            assert(forest@.skip(base.len() as int) =~= other@);
        }
        forest
    }
}

impl<'a, T: Clone> SubSpecImpl<&'a Forest<T>> for Forest<T> {
    open spec fn obeys_sub_spec() -> bool {
        false
    }

    open spec fn sub_req(self, rhs: &'a Forest<T>) -> bool {
        self.wf() && rhs.wf()
    }

    open spec fn sub_spec(self, rhs: &'a Forest<T>) -> Forest<T> {
        arbitrary()
    }
}

/// `a - b` is the forest of the trees of `a` followed by the trees of
/// `b`; what is given by reference is copied.
impl<'a, T: Clone> core::ops::Sub<&'a Forest<T>> for Forest<T> {
    type Output = Forest<T>;

    fn sub(self, rhs: &'a Forest<T>) -> (forest: Forest<T>)
        ensures
            forest.wf(),
            forest@.len() == self@.len() + rhs@.len(),
            forest@.take(self@.len() as int) == self@,
            cloned_forest(rhs@, forest@.skip(self@.len() as int)),
    {
        let mut forest = self;
        let other = rhs.clone();
        let ghost base = forest@;
        forest.append(other);
        proof {
            assert(forest@.take(base.len() as int) =~= base);
            assert(forest@.skip(base.len() as int) =~= other@);
        }
        forest
    }
}

impl<'a, T: Clone> SubSpecImpl<Forest<T>> for &'a Forest<T> {
    open spec fn obeys_sub_spec() -> bool {
        false
    }

    open spec fn sub_req(self, rhs: Forest<T>) -> bool {
        self.wf() && rhs.wf()
    }

    open spec fn sub_spec(self, rhs: Forest<T>) -> Forest<T> {
        arbitrary()
    }
}

/// `a - b` is the forest of the trees of `a` followed by the trees of
/// `b`; what is given by reference is copied.
impl<'a, T: Clone> core::ops::Sub<Forest<T>> for &'a Forest<T> {
    type Output = Forest<T>;

    fn sub(self, rhs: Forest<T>) -> (forest: Forest<T>)
        ensures
            forest.wf(),
            forest@.len() == self@.len() + rhs@.len(),
            cloned_forest(self@, forest@.take(self@.len() as int)),
            forest@.skip(self@.len() as int) == rhs@,
    {
        let mut forest = self.clone();
        let other = rhs;
        let ghost base = forest@;
        forest.append(other);
        proof {
            assert(forest@.take(base.len() as int) =~= base);
            assert(forest@.skip(base.len() as int) =~= other@);
        }
        forest
    }
}

impl<'a, T: Clone> SubSpecImpl<&'a Forest<T>> for &'a Forest<T> {
    open spec fn obeys_sub_spec() -> bool {
        false
    }

    open spec fn sub_req(self, rhs: &'a Forest<T>) -> bool {
        self.wf() && rhs.wf()
    }

    open spec fn sub_spec(self, rhs: &'a Forest<T>) -> Forest<T> {
        arbitrary()
    }
}

/// `a - b` is the forest of the trees of `a` followed by the trees of
/// `b`; what is given by reference is copied.
impl<'a, T: Clone> core::ops::Sub<&'a Forest<T>> for &'a Forest<T> {
    type Output = Forest<T>;

    fn sub(self, rhs: &'a Forest<T>) -> (forest: Forest<T>)
        ensures
            forest.wf(),
            forest@.len() == self@.len() + rhs@.len(),
            cloned_forest(self@, forest@.take(self@.len() as int)),
            cloned_forest(rhs@, forest@.skip(self@.len() as int)),
    {
        let mut forest = self.clone();
        let other = rhs.clone();
        let ghost base = forest@;
        forest.append(other);
        proof {
            assert(forest@.take(base.len() as int) =~= base);
            assert(forest@.skip(base.len() as int) =~= other@);
        }
        forest
    }
}

} // verus!
