//! Trees and forests written as tuples: `(0, (1, 2, 3), (4, 5, 6))` is
//! the tree with root 0 and the children 1 and 4, which have the
//! children 2, 3 and 5, 6; `(fr(), 1, 2)` is the forest of the trees 1
//! and 2.

use vstd::prelude::*;
use super::forest::Forest;
use super::pot::{Pot, ROOT};
use super::tree::Tree;
use crate::shape::{count_nodes, Shape};

verus! {

/// The types whose values are data of nodes, and no tuples of trees.
pub trait TreeData: Sized {

}

impl TreeData for bool {

}

impl TreeData for i8 {

}

impl TreeData for u8 {

}

impl TreeData for i16 {

}

impl TreeData for u16 {

}

impl TreeData for i32 {

}

impl TreeData for u32 {

}

impl TreeData for i64 {

}

impl TreeData for u64 {

}

impl TreeData for i128 {

}

impl TreeData for u128 {

}

impl TreeData for isize {

}

impl TreeData for usize {

}

impl TreeData for &'static str {

}

impl TreeData for String {

}

/// What stands for a tree: a value of the data type for a leaf, or a
/// tuple of the data of the root and what stands for each child.
pub trait TupleTree: Sized {
    type Data;

    /// The tree that the value stands for.
    spec fn shape(&self) -> Shape<Self::Data>;

    /// Plants the tree behind the children of the node at `parent`, and
    /// returns the position of its root.
    fn construct_all_nodes(self, parent: usize, pot: &mut Pot<Self::Data>) -> (child: usize)
        requires
            old(pot).wf(),
            old(pot).has(parent),
            old(pot).spec_len() + self.shape().node_count() <= u32::MAX,
        ensures
            final(pot).wf(),
            child == old(pot).spec_len(),
            final(pot).spec_len() == old(pot).spec_len() + self.shape().node_count(),
            final(pot).children(parent) == old(pot).children(parent).push(child),
            final(pot).shape(child) == self.shape(),
            final(pot).level(child) == old(pot).level(parent) + 1,
            forall|i: usize| old(pot).has(i) && i != parent ==> #[trigger] final(pot).children(i) == old(pot).children(i),
            forall|i: usize| old(pot).has(i) ==> #[trigger] final(pot).datum(i) == old(pot).datum(i),
            forall|i: usize| old(pot).has(i) ==> #[trigger] final(pot).parent_of(i) == old(pot).parent_of(i),
            forall|i: usize| old(pot).has(i) ==> #[trigger] final(pot).level(i) == old(pot).level(i),
    ;

    /// Plants the tree in a pot of its own, with its root at the root of
    /// the pot.
    fn construct_root(self) -> (pot: Pot<Self::Data>)
        requires
            self.shape().node_count() + 1 <= u32::MAX,
        ensures
            pot.wf(),
            pot.datum(ROOT) is Some,
            pot.parent_of(ROOT) == 0,
            pot.shape(ROOT) == self.shape(),
    ;
}

impl<T: TreeData> TupleTree for T {
    type Data = T;

    open spec fn shape(&self) -> Shape<T> {
        Shape::leaf(*self)
    }

    fn construct_all_nodes(self, parent: usize, pot: &mut Pot<T>) -> (child: usize) {
        let child = pot.append(parent, self);
        proof {
            pot.lemma_shape(child);
            assert(pot.shapes(pot.children(child)) =~= Seq::<Shape<T>>::empty());
            assert(count_nodes(Shape::leaf(self).children) == 0);
        }
        child
    }

    fn construct_root(self) -> (pot: Pot<T>) {
        let pot = Pot::new_tree(self);
        proof {
            pot.lemma_root();
            pot.lemma_shape(ROOT);
            assert(pot.shapes(pot.children(ROOT)) =~= Seq::<Shape<T>>::empty());
        }
        pot
    }
}

/// Plants the tree that `tree` stands for behind the children of the
/// node at `root`. Of the trees `rest` that the node is to get, it is
/// the first; the trees `done` are those that the node has.
fn graft<A: TupleTree>(
    pot: &mut Pot<A::Data>,
    root: usize,
    tree: A,
    Ghost(done): Ghost<Seq<Shape<A::Data>>>,
    Ghost(rest): Ghost<Seq<Shape<A::Data>>>,
)
    requires
        old(pot).wf(),
        old(pot).has(root),
        rest.len() > 0,
        rest[0] == tree.shape(),
        old(pot).spec_len() + count_nodes(rest) <= u32::MAX,
        old(pot).shapes(old(pot).children(root)) == done,
    ensures
        final(pot).wf(),
        final(pot).spec_len() + count_nodes(rest.drop_first()) == old(pot).spec_len() + count_nodes(rest),
        final(pot).shapes(final(pot).children(root)) == done.push(rest[0]),
        final(pot).children(root).len() == old(pot).children(root).len() + 1,
        final(pot).children(root).take(old(pot).children(root).len() as int) == old(pot).children(root),
        forall|i: usize| old(pot).has(i) && i != root ==> #[trigger] final(pot).children(i) == old(pot).children(i),
        forall|i: usize| old(pot).has(i) ==> #[trigger] final(pot).datum(i) == old(pot).datum(i),
        forall|i: usize| old(pot).has(i) ==> #[trigger] final(pot).parent_of(i) == old(pot).parent_of(i),
        forall|i: usize| old(pot).has(i) ==> #[trigger] final(pot).level(i) == old(pot).level(i),
{
    proof {
        assert(count_nodes(rest) == rest[0].node_count() + count_nodes(rest.drop_first()));
    }
    let ghost before = *pot;
    let child = tree.construct_all_nodes(root, pot);
    proof {
        before.lemma_same_children(pot, root);
        let ks = before.children(root);
        let ks2 = pot.children(root);
        assert(ks2.take(ks.len() as int) =~= ks);
        assert forall|r: int| 0 <= r < ks2.len() implies #[trigger] pot.shapes(ks2)[r] == done.push(rest[0])[r] by {
            if r < ks.len() {
                assert(pot.shapes(ks)[r] == before.shapes(ks)[r]);
                assert(ks2[r] == ks[r]);
            }
        }
        assert(pot.shapes(ks2) =~= done.push(rest[0]));
    }
}

/// The fake root of a forest written as a tuple.
pub struct FakeRoot<T>(pub core::marker::PhantomData<T>);

/// Returns the fake root with which a tuple that stands for a forest
/// begins.
pub fn fr<T>() -> FakeRoot<T> {
    FakeRoot(core::marker::PhantomData)
}

/// What stands for a forest: a tuple of a fake root and what stands for
/// each tree.
pub trait TupleForest: Sized {
    type Data;

    /// The forest that the value stands for.
    spec fn shapes(&self) -> Seq<Shape<Self::Data>>;

    /// Plants the trees behind the children of the node at `parent`.
    fn construct_all_nodes(self, parent: usize, pot: &mut Pot<Self::Data>)
        requires
            old(pot).wf(),
            old(pot).has(parent),
            old(pot).spec_len() + count_nodes(self.shapes()) <= u32::MAX,
        ensures
            final(pot).wf(),
            final(pot).spec_len() == old(pot).spec_len() + count_nodes(self.shapes()),
            final(pot).children(parent).len() == old(pot).children(parent).len() + self.shapes().len(),
            final(pot).children(parent).take(old(pot).children(parent).len() as int) == old(pot).children(parent),
            final(pot).shapes(final(pot).children(parent)) == old(pot).shapes(old(pot).children(parent)) + self.shapes(),
            forall|i: usize| old(pot).has(i) && i != parent ==> #[trigger] final(pot).children(i) == old(pot).children(i),
            forall|i: usize| old(pot).has(i) ==> #[trigger] final(pot).datum(i) == old(pot).datum(i),
            forall|i: usize| old(pot).has(i) ==> #[trigger] final(pot).parent_of(i) == old(pot).parent_of(i),
            forall|i: usize| old(pot).has(i) ==> #[trigger] final(pot).level(i) == old(pot).level(i),
    ;
}

impl<T: TreeData> TupleTree for (T,) {
    type Data = T;

    open spec fn shape(&self) -> Shape<T> {
        Shape { data: self.0, children: Seq::empty() }
    }

    fn construct_all_nodes(self, parent: usize, pot: &mut Pot<T>) -> (child: usize) {
        let ghost kids = self.shape().children;
        let (data,) = self;
        let root = pot.append(parent, data);
        proof {
            assert(pot.shapes(pot.children(root)) =~= kids.take(0));
            assert(kids.skip(0) =~= kids);
        }
        let ghost mid = *pot;
        proof {
            pot.lemma_shape(root);
            assert(kids.take(0) =~= kids);
            assert(count_nodes(kids.skip(0)) == 0);
            assert(mid.has(parent));
            assert(mid.has(root));
        }
        root
    }

    fn construct_root(self) -> (pot: Pot<T>) {
        let ghost kids = self.shape().children;
        let (data,) = self;
        let mut pot = Pot::new_tree(data);
        proof {
            pot.lemma_root();
            assert(pot.shapes(pot.children(ROOT)) =~= kids.take(0));
            assert(kids.skip(0) =~= kids);
        }
        proof {
            pot.lemma_root();
            pot.lemma_shape(ROOT);
            assert(kids.take(0) =~= kids);
        }
        pot
    }
}

impl<T: TreeData> TupleForest for (FakeRoot<T>,) {
    type Data = T;

    open spec fn shapes(&self) -> Seq<Shape<T>> {
        Seq::empty()
    }

    fn construct_all_nodes(self, parent: usize, pot: &mut Pot<T>) {
        let ghost kids = self.shapes();
        let ghost had = pot.shapes(pot.children(parent));
        let ghost old_kids = pot.children(parent);
        let (_,) = self;
        proof {
            assert(had + kids.take(0) =~= had);
            assert(kids.skip(0) =~= kids);
            assert(pot.children(parent).take(old_kids.len() as int) =~= old_kids);
        }
        proof {
            assert(kids.take(0) =~= kids);
            assert(count_nodes(kids.skip(0)) == 0);
        }
    }
}

impl<T: TreeData, A: TupleTree<Data = T>> TupleTree for (T, A,) {
    type Data = T;

    open spec fn shape(&self) -> Shape<T> {
        Shape { data: self.0, children: seq![self.1.shape()] }
    }

    fn construct_all_nodes(self, parent: usize, pot: &mut Pot<T>) -> (child: usize) {
        let ghost kids = self.shape().children;
        let (data, a,) = self;
        let root = pot.append(parent, data);
        proof {
            assert(pot.shapes(pot.children(root)) =~= kids.take(0));
            assert(kids.skip(0) =~= kids);
        }
        let ghost mid = *pot;
        graft(pot, root, a, Ghost(kids.take(0)), Ghost(kids.skip(0)));
        proof {
            assert(kids.take(0).push(kids.skip(0)[0]) =~= kids.take(1));
            assert(kids.skip(0).drop_first() =~= kids.skip(1));
        }
        proof {
            pot.lemma_shape(root);
            assert(kids.take(1) =~= kids);
            assert(count_nodes(kids.skip(1)) == 0);
            assert(mid.has(parent));
            assert(mid.has(root));
        }
        root
    }

    fn construct_root(self) -> (pot: Pot<T>) {
        let ghost kids = self.shape().children;
        let (data, a,) = self;
        let mut pot = Pot::new_tree(data);
        proof {
            pot.lemma_root();
            assert(pot.shapes(pot.children(ROOT)) =~= kids.take(0));
            assert(kids.skip(0) =~= kids);
        }
        graft(&mut pot, ROOT, a, Ghost(kids.take(0)), Ghost(kids.skip(0)));
        proof {
            assert(kids.take(0).push(kids.skip(0)[0]) =~= kids.take(1));
            assert(kids.skip(0).drop_first() =~= kids.skip(1));
        }
        proof {
            pot.lemma_root();
            pot.lemma_shape(ROOT);
            assert(kids.take(1) =~= kids);
        }
        pot
    }
}

impl<T: TreeData, A: TupleTree<Data = T>> TupleForest for (FakeRoot<T>, A,) {
    type Data = T;

    open spec fn shapes(&self) -> Seq<Shape<T>> {
        seq![self.1.shape()]
    }

    fn construct_all_nodes(self, parent: usize, pot: &mut Pot<T>) {
        let ghost kids = self.shapes();
        let ghost had = pot.shapes(pot.children(parent));
        let ghost old_kids = pot.children(parent);
        let (_, a,) = self;
        proof {
            assert(had + kids.take(0) =~= had);
            assert(kids.skip(0) =~= kids);
            assert(pot.children(parent).take(old_kids.len() as int) =~= old_kids);
        }
        graft(pot, parent, a, Ghost(had + kids.take(0)), Ghost(kids.skip(0)));
        proof {
            assert((had + kids.take(0)).push(kids.skip(0)[0]) =~= had + kids.take(1));
            assert(kids.skip(0).drop_first() =~= kids.skip(1));
        }
        proof {
            assert(kids.take(1) =~= kids);
            assert(count_nodes(kids.skip(1)) == 0);
        }
    }
}

impl<T: TreeData, A: TupleTree<Data = T>, B: TupleTree<Data = T>> TupleTree for (T, A, B,) {
    type Data = T;

    open spec fn shape(&self) -> Shape<T> {
        Shape { data: self.0, children: seq![self.1.shape(), self.2.shape()] }
    }

    fn construct_all_nodes(self, parent: usize, pot: &mut Pot<T>) -> (child: usize) {
        let ghost kids = self.shape().children;
        let (data, a, b,) = self;
        let root = pot.append(parent, data);
        proof {
            assert(pot.shapes(pot.children(root)) =~= kids.take(0));
            assert(kids.skip(0) =~= kids);
        }
        let ghost mid = *pot;
        graft(pot, root, a, Ghost(kids.take(0)), Ghost(kids.skip(0)));
        proof {
            assert(kids.take(0).push(kids.skip(0)[0]) =~= kids.take(1));
            assert(kids.skip(0).drop_first() =~= kids.skip(1));
        }
        graft(pot, root, b, Ghost(kids.take(1)), Ghost(kids.skip(1)));
        proof {
            assert(kids.take(1).push(kids.skip(1)[0]) =~= kids.take(2));
            assert(kids.skip(1).drop_first() =~= kids.skip(2));
        }
        proof {
            pot.lemma_shape(root);
            assert(kids.take(2) =~= kids);
            assert(count_nodes(kids.skip(2)) == 0);
            assert(mid.has(parent));
            assert(mid.has(root));
        }
        root
    }

    fn construct_root(self) -> (pot: Pot<T>) {
        let ghost kids = self.shape().children;
        let (data, a, b,) = self;
        let mut pot = Pot::new_tree(data);
        proof {
            pot.lemma_root();
            assert(pot.shapes(pot.children(ROOT)) =~= kids.take(0));
            assert(kids.skip(0) =~= kids);
        }
        graft(&mut pot, ROOT, a, Ghost(kids.take(0)), Ghost(kids.skip(0)));
        proof {
            assert(kids.take(0).push(kids.skip(0)[0]) =~= kids.take(1));
            assert(kids.skip(0).drop_first() =~= kids.skip(1));
        }
        graft(&mut pot, ROOT, b, Ghost(kids.take(1)), Ghost(kids.skip(1)));
        proof {
            assert(kids.take(1).push(kids.skip(1)[0]) =~= kids.take(2));
            assert(kids.skip(1).drop_first() =~= kids.skip(2));
        }
        proof {
            pot.lemma_root();
            pot.lemma_shape(ROOT);
            assert(kids.take(2) =~= kids);
        }
        pot
    }
}

impl<T: TreeData, A: TupleTree<Data = T>, B: TupleTree<Data = T>> TupleForest for (FakeRoot<T>, A, B,) {
    type Data = T;

    open spec fn shapes(&self) -> Seq<Shape<T>> {
        seq![self.1.shape(), self.2.shape()]
    }

    fn construct_all_nodes(self, parent: usize, pot: &mut Pot<T>) {
        let ghost kids = self.shapes();
        let ghost had = pot.shapes(pot.children(parent));
        let ghost old_kids = pot.children(parent);
        let (_, a, b,) = self;
        proof {
            assert(had + kids.take(0) =~= had);
            assert(kids.skip(0) =~= kids);
            assert(pot.children(parent).take(old_kids.len() as int) =~= old_kids);
        }
        graft(pot, parent, a, Ghost(had + kids.take(0)), Ghost(kids.skip(0)));
        proof {
            assert((had + kids.take(0)).push(kids.skip(0)[0]) =~= had + kids.take(1));
            assert(kids.skip(0).drop_first() =~= kids.skip(1));
        }
        graft(pot, parent, b, Ghost(had + kids.take(1)), Ghost(kids.skip(1)));
        proof {
            assert((had + kids.take(1)).push(kids.skip(1)[0]) =~= had + kids.take(2));
            assert(kids.skip(1).drop_first() =~= kids.skip(2));
        }
        proof {
            assert(kids.take(2) =~= kids);
            assert(count_nodes(kids.skip(2)) == 0);
        }
    }
}

impl<T: TreeData, A: TupleTree<Data = T>, B: TupleTree<Data = T>, C: TupleTree<Data = T>> TupleTree for (T, A, B, C,) {
    type Data = T;

    open spec fn shape(&self) -> Shape<T> {
        Shape { data: self.0, children: seq![self.1.shape(), self.2.shape(), self.3.shape()] }
    }

    fn construct_all_nodes(self, parent: usize, pot: &mut Pot<T>) -> (child: usize) {
        let ghost kids = self.shape().children;
        let (data, a, b, c,) = self;
        let root = pot.append(parent, data);
        proof {
            assert(pot.shapes(pot.children(root)) =~= kids.take(0));
            assert(kids.skip(0) =~= kids);
        }
        let ghost mid = *pot;
        graft(pot, root, a, Ghost(kids.take(0)), Ghost(kids.skip(0)));
        proof {
            assert(kids.take(0).push(kids.skip(0)[0]) =~= kids.take(1));
            assert(kids.skip(0).drop_first() =~= kids.skip(1));
        }
        graft(pot, root, b, Ghost(kids.take(1)), Ghost(kids.skip(1)));
        proof {
            assert(kids.take(1).push(kids.skip(1)[0]) =~= kids.take(2));
            assert(kids.skip(1).drop_first() =~= kids.skip(2));
        }
        graft(pot, root, c, Ghost(kids.take(2)), Ghost(kids.skip(2)));
        proof {
            assert(kids.take(2).push(kids.skip(2)[0]) =~= kids.take(3));
            assert(kids.skip(2).drop_first() =~= kids.skip(3));
        }
        proof {
            pot.lemma_shape(root);
            assert(kids.take(3) =~= kids);
            assert(count_nodes(kids.skip(3)) == 0);
            assert(mid.has(parent));
            assert(mid.has(root));
        }
        root
    }

    fn construct_root(self) -> (pot: Pot<T>) {
        let ghost kids = self.shape().children;
        let (data, a, b, c,) = self;
        let mut pot = Pot::new_tree(data);
        proof {
            pot.lemma_root();
            assert(pot.shapes(pot.children(ROOT)) =~= kids.take(0));
            assert(kids.skip(0) =~= kids);
        }
        graft(&mut pot, ROOT, a, Ghost(kids.take(0)), Ghost(kids.skip(0)));
        proof {
            assert(kids.take(0).push(kids.skip(0)[0]) =~= kids.take(1));
            assert(kids.skip(0).drop_first() =~= kids.skip(1));
        }
        graft(&mut pot, ROOT, b, Ghost(kids.take(1)), Ghost(kids.skip(1)));
        proof {
            assert(kids.take(1).push(kids.skip(1)[0]) =~= kids.take(2));
            assert(kids.skip(1).drop_first() =~= kids.skip(2));
        }
        graft(&mut pot, ROOT, c, Ghost(kids.take(2)), Ghost(kids.skip(2)));
        proof {
            assert(kids.take(2).push(kids.skip(2)[0]) =~= kids.take(3));
            assert(kids.skip(2).drop_first() =~= kids.skip(3));
        }
        proof {
            pot.lemma_root();
            pot.lemma_shape(ROOT);
            assert(kids.take(3) =~= kids);
        }
        pot
    }
}

impl<T: TreeData, A: TupleTree<Data = T>, B: TupleTree<Data = T>, C: TupleTree<Data = T>> TupleForest for (FakeRoot<T>, A, B, C,) {
    type Data = T;

    open spec fn shapes(&self) -> Seq<Shape<T>> {
        seq![self.1.shape(), self.2.shape(), self.3.shape()]
    }

    fn construct_all_nodes(self, parent: usize, pot: &mut Pot<T>) {
        let ghost kids = self.shapes();
        let ghost had = pot.shapes(pot.children(parent));
        let ghost old_kids = pot.children(parent);
        let (_, a, b, c,) = self;
        proof {
            assert(had + kids.take(0) =~= had);
            assert(kids.skip(0) =~= kids);
            assert(pot.children(parent).take(old_kids.len() as int) =~= old_kids);
        }
        graft(pot, parent, a, Ghost(had + kids.take(0)), Ghost(kids.skip(0)));
        proof {
            assert((had + kids.take(0)).push(kids.skip(0)[0]) =~= had + kids.take(1));
            assert(kids.skip(0).drop_first() =~= kids.skip(1));
        }
        graft(pot, parent, b, Ghost(had + kids.take(1)), Ghost(kids.skip(1)));
        proof {
            assert((had + kids.take(1)).push(kids.skip(1)[0]) =~= had + kids.take(2));
            assert(kids.skip(1).drop_first() =~= kids.skip(2));
        }
        graft(pot, parent, c, Ghost(had + kids.take(2)), Ghost(kids.skip(2)));
        proof {
            assert((had + kids.take(2)).push(kids.skip(2)[0]) =~= had + kids.take(3));
            assert(kids.skip(2).drop_first() =~= kids.skip(3));
        }
        proof {
            assert(kids.take(3) =~= kids);
            assert(count_nodes(kids.skip(3)) == 0);
        }
    }
}

impl<T: TreeData, A: TupleTree<Data = T>, B: TupleTree<Data = T>, C: TupleTree<Data = T>, D: TupleTree<Data = T>> TupleTree for (T, A, B, C, D,) {
    type Data = T;

    open spec fn shape(&self) -> Shape<T> {
        Shape { data: self.0, children: seq![self.1.shape(), self.2.shape(), self.3.shape(), self.4.shape()] }
    }

    fn construct_all_nodes(self, parent: usize, pot: &mut Pot<T>) -> (child: usize) {
        let ghost kids = self.shape().children;
        let (data, a, b, c, d,) = self;
        let root = pot.append(parent, data);
        proof {
            assert(pot.shapes(pot.children(root)) =~= kids.take(0));
            assert(kids.skip(0) =~= kids);
        }
        let ghost mid = *pot;
        graft(pot, root, a, Ghost(kids.take(0)), Ghost(kids.skip(0)));
        proof {
            assert(kids.take(0).push(kids.skip(0)[0]) =~= kids.take(1));
            assert(kids.skip(0).drop_first() =~= kids.skip(1));
        }
        graft(pot, root, b, Ghost(kids.take(1)), Ghost(kids.skip(1)));
        proof {
            assert(kids.take(1).push(kids.skip(1)[0]) =~= kids.take(2));
            assert(kids.skip(1).drop_first() =~= kids.skip(2));
        }
        graft(pot, root, c, Ghost(kids.take(2)), Ghost(kids.skip(2)));
        proof {
            assert(kids.take(2).push(kids.skip(2)[0]) =~= kids.take(3));
            assert(kids.skip(2).drop_first() =~= kids.skip(3));
        }
        graft(pot, root, d, Ghost(kids.take(3)), Ghost(kids.skip(3)));
        proof {
            assert(kids.take(3).push(kids.skip(3)[0]) =~= kids.take(4));
            assert(kids.skip(3).drop_first() =~= kids.skip(4));
        }
        proof {
            pot.lemma_shape(root);
            assert(kids.take(4) =~= kids);
            assert(count_nodes(kids.skip(4)) == 0);
            assert(mid.has(parent));
            assert(mid.has(root));
        }
        root
    }

    fn construct_root(self) -> (pot: Pot<T>) {
        let ghost kids = self.shape().children;
        let (data, a, b, c, d,) = self;
        let mut pot = Pot::new_tree(data);
        proof {
            pot.lemma_root();
            assert(pot.shapes(pot.children(ROOT)) =~= kids.take(0));
            assert(kids.skip(0) =~= kids);
        }
        graft(&mut pot, ROOT, a, Ghost(kids.take(0)), Ghost(kids.skip(0)));
        proof {
            assert(kids.take(0).push(kids.skip(0)[0]) =~= kids.take(1));
            assert(kids.skip(0).drop_first() =~= kids.skip(1));
        }
        graft(&mut pot, ROOT, b, Ghost(kids.take(1)), Ghost(kids.skip(1)));
        proof {
            assert(kids.take(1).push(kids.skip(1)[0]) =~= kids.take(2));
            assert(kids.skip(1).drop_first() =~= kids.skip(2));
        }
        graft(&mut pot, ROOT, c, Ghost(kids.take(2)), Ghost(kids.skip(2)));
        proof {
            assert(kids.take(2).push(kids.skip(2)[0]) =~= kids.take(3));
            assert(kids.skip(2).drop_first() =~= kids.skip(3));
        }
        graft(&mut pot, ROOT, d, Ghost(kids.take(3)), Ghost(kids.skip(3)));
        proof {
            assert(kids.take(3).push(kids.skip(3)[0]) =~= kids.take(4));
            assert(kids.skip(3).drop_first() =~= kids.skip(4));
        }
        proof {
            pot.lemma_root();
            pot.lemma_shape(ROOT);
            assert(kids.take(4) =~= kids);
        }
        pot
    }
}

impl<T: TreeData, A: TupleTree<Data = T>, B: TupleTree<Data = T>, C: TupleTree<Data = T>, D: TupleTree<Data = T>> TupleForest for (FakeRoot<T>, A, B, C, D,) {
    type Data = T;

    open spec fn shapes(&self) -> Seq<Shape<T>> {
        seq![self.1.shape(), self.2.shape(), self.3.shape(), self.4.shape()]
    }

    fn construct_all_nodes(self, parent: usize, pot: &mut Pot<T>) {
        let ghost kids = self.shapes();
        let ghost had = pot.shapes(pot.children(parent));
        let ghost old_kids = pot.children(parent);
        let (_, a, b, c, d,) = self;
        proof {
            assert(had + kids.take(0) =~= had);
            assert(kids.skip(0) =~= kids);
            assert(pot.children(parent).take(old_kids.len() as int) =~= old_kids);
        }
        graft(pot, parent, a, Ghost(had + kids.take(0)), Ghost(kids.skip(0)));
        proof {
            assert((had + kids.take(0)).push(kids.skip(0)[0]) =~= had + kids.take(1));
            assert(kids.skip(0).drop_first() =~= kids.skip(1));
        }
        graft(pot, parent, b, Ghost(had + kids.take(1)), Ghost(kids.skip(1)));
        proof {
            assert((had + kids.take(1)).push(kids.skip(1)[0]) =~= had + kids.take(2));
            assert(kids.skip(1).drop_first() =~= kids.skip(2));
        }
        graft(pot, parent, c, Ghost(had + kids.take(2)), Ghost(kids.skip(2)));
        proof {
            assert((had + kids.take(2)).push(kids.skip(2)[0]) =~= had + kids.take(3));
            assert(kids.skip(2).drop_first() =~= kids.skip(3));
        }
        graft(pot, parent, d, Ghost(had + kids.take(3)), Ghost(kids.skip(3)));
        proof {
            assert((had + kids.take(3)).push(kids.skip(3)[0]) =~= had + kids.take(4));
            assert(kids.skip(3).drop_first() =~= kids.skip(4));
        }
        proof {
            assert(kids.take(4) =~= kids);
            assert(count_nodes(kids.skip(4)) == 0);
        }
    }
}

impl<T: TreeData, A: TupleTree<Data = T>, B: TupleTree<Data = T>, C: TupleTree<Data = T>, D: TupleTree<Data = T>, E: TupleTree<Data = T>> TupleTree for (T, A, B, C, D, E,) {
    type Data = T;

    open spec fn shape(&self) -> Shape<T> {
        Shape { data: self.0, children: seq![self.1.shape(), self.2.shape(), self.3.shape(), self.4.shape(), self.5.shape()] }
    }

    fn construct_all_nodes(self, parent: usize, pot: &mut Pot<T>) -> (child: usize) {
        let ghost kids = self.shape().children;
        let (data, a, b, c, d, e,) = self;
        let root = pot.append(parent, data);
        proof {
            assert(pot.shapes(pot.children(root)) =~= kids.take(0));
            assert(kids.skip(0) =~= kids);
        }
        let ghost mid = *pot;
        graft(pot, root, a, Ghost(kids.take(0)), Ghost(kids.skip(0)));
        proof {
            assert(kids.take(0).push(kids.skip(0)[0]) =~= kids.take(1));
            assert(kids.skip(0).drop_first() =~= kids.skip(1));
        }
        graft(pot, root, b, Ghost(kids.take(1)), Ghost(kids.skip(1)));
        proof {
            assert(kids.take(1).push(kids.skip(1)[0]) =~= kids.take(2));
            assert(kids.skip(1).drop_first() =~= kids.skip(2));
        }
        graft(pot, root, c, Ghost(kids.take(2)), Ghost(kids.skip(2)));
        proof {
            assert(kids.take(2).push(kids.skip(2)[0]) =~= kids.take(3));
            assert(kids.skip(2).drop_first() =~= kids.skip(3));
        }
        graft(pot, root, d, Ghost(kids.take(3)), Ghost(kids.skip(3)));
        proof {
            assert(kids.take(3).push(kids.skip(3)[0]) =~= kids.take(4));
            assert(kids.skip(3).drop_first() =~= kids.skip(4));
        }
        graft(pot, root, e, Ghost(kids.take(4)), Ghost(kids.skip(4)));
        proof {
            assert(kids.take(4).push(kids.skip(4)[0]) =~= kids.take(5));
            assert(kids.skip(4).drop_first() =~= kids.skip(5));
        }
        proof {
            pot.lemma_shape(root);
            assert(kids.take(5) =~= kids);
            assert(count_nodes(kids.skip(5)) == 0);
            assert(mid.has(parent));
            assert(mid.has(root));
        }
        root
    }

    fn construct_root(self) -> (pot: Pot<T>) {
        let ghost kids = self.shape().children;
        let (data, a, b, c, d, e,) = self;
        let mut pot = Pot::new_tree(data);
        proof {
            pot.lemma_root();
            assert(pot.shapes(pot.children(ROOT)) =~= kids.take(0));
            assert(kids.skip(0) =~= kids);
        }
        graft(&mut pot, ROOT, a, Ghost(kids.take(0)), Ghost(kids.skip(0)));
        proof {
            assert(kids.take(0).push(kids.skip(0)[0]) =~= kids.take(1));
            assert(kids.skip(0).drop_first() =~= kids.skip(1));
        }
        graft(&mut pot, ROOT, b, Ghost(kids.take(1)), Ghost(kids.skip(1)));
        proof {
            assert(kids.take(1).push(kids.skip(1)[0]) =~= kids.take(2));
            assert(kids.skip(1).drop_first() =~= kids.skip(2));
        }
        graft(&mut pot, ROOT, c, Ghost(kids.take(2)), Ghost(kids.skip(2)));
        proof {
            assert(kids.take(2).push(kids.skip(2)[0]) =~= kids.take(3));
            assert(kids.skip(2).drop_first() =~= kids.skip(3));
        }
        graft(&mut pot, ROOT, d, Ghost(kids.take(3)), Ghost(kids.skip(3)));
        proof {
            assert(kids.take(3).push(kids.skip(3)[0]) =~= kids.take(4));
            assert(kids.skip(3).drop_first() =~= kids.skip(4));
        }
        graft(&mut pot, ROOT, e, Ghost(kids.take(4)), Ghost(kids.skip(4)));
        proof {
            assert(kids.take(4).push(kids.skip(4)[0]) =~= kids.take(5));
            assert(kids.skip(4).drop_first() =~= kids.skip(5));
        }
        proof {
            pot.lemma_root();
            pot.lemma_shape(ROOT);
            assert(kids.take(5) =~= kids);
        }
        pot
    }
}

impl<T: TreeData, A: TupleTree<Data = T>, B: TupleTree<Data = T>, C: TupleTree<Data = T>, D: TupleTree<Data = T>, E: TupleTree<Data = T>> TupleForest for (FakeRoot<T>, A, B, C, D, E,) {
    type Data = T;

    open spec fn shapes(&self) -> Seq<Shape<T>> {
        seq![self.1.shape(), self.2.shape(), self.3.shape(), self.4.shape(), self.5.shape()]
    }

    fn construct_all_nodes(self, parent: usize, pot: &mut Pot<T>) {
        let ghost kids = self.shapes();
        let ghost had = pot.shapes(pot.children(parent));
        let ghost old_kids = pot.children(parent);
        let (_, a, b, c, d, e,) = self;
        proof {
            assert(had + kids.take(0) =~= had);
            assert(kids.skip(0) =~= kids);
            assert(pot.children(parent).take(old_kids.len() as int) =~= old_kids);
        }
        graft(pot, parent, a, Ghost(had + kids.take(0)), Ghost(kids.skip(0)));
        proof {
            assert((had + kids.take(0)).push(kids.skip(0)[0]) =~= had + kids.take(1));
            assert(kids.skip(0).drop_first() =~= kids.skip(1));
        }
        graft(pot, parent, b, Ghost(had + kids.take(1)), Ghost(kids.skip(1)));
        proof {
            assert((had + kids.take(1)).push(kids.skip(1)[0]) =~= had + kids.take(2));
            assert(kids.skip(1).drop_first() =~= kids.skip(2));
        }
        graft(pot, parent, c, Ghost(had + kids.take(2)), Ghost(kids.skip(2)));
        proof {
            assert((had + kids.take(2)).push(kids.skip(2)[0]) =~= had + kids.take(3));
            assert(kids.skip(2).drop_first() =~= kids.skip(3));
        }
        graft(pot, parent, d, Ghost(had + kids.take(3)), Ghost(kids.skip(3)));
        proof {
            assert((had + kids.take(3)).push(kids.skip(3)[0]) =~= had + kids.take(4));
            assert(kids.skip(3).drop_first() =~= kids.skip(4));
        }
        graft(pot, parent, e, Ghost(had + kids.take(4)), Ghost(kids.skip(4)));
        proof {
            assert((had + kids.take(4)).push(kids.skip(4)[0]) =~= had + kids.take(5));
            assert(kids.skip(4).drop_first() =~= kids.skip(5));
        }
        proof {
            assert(kids.take(5) =~= kids);
            assert(count_nodes(kids.skip(5)) == 0);
        }
    }
}

impl<T: TreeData, A: TupleTree<Data = T>, B: TupleTree<Data = T>, C: TupleTree<Data = T>, D: TupleTree<Data = T>, E: TupleTree<Data = T>, F: TupleTree<Data = T>> TupleTree for (T, A, B, C, D, E, F,) {
    type Data = T;

    open spec fn shape(&self) -> Shape<T> {
        Shape { data: self.0, children: seq![self.1.shape(), self.2.shape(), self.3.shape(), self.4.shape(), self.5.shape(), self.6.shape()] }
    }

    fn construct_all_nodes(self, parent: usize, pot: &mut Pot<T>) -> (child: usize) {
        let ghost kids = self.shape().children;
        let (data, a, b, c, d, e, f,) = self;
        let root = pot.append(parent, data);
        proof {
            assert(pot.shapes(pot.children(root)) =~= kids.take(0));
            assert(kids.skip(0) =~= kids);
        }
        let ghost mid = *pot;
        graft(pot, root, a, Ghost(kids.take(0)), Ghost(kids.skip(0)));
        proof {
            assert(kids.take(0).push(kids.skip(0)[0]) =~= kids.take(1));
            assert(kids.skip(0).drop_first() =~= kids.skip(1));
        }
        graft(pot, root, b, Ghost(kids.take(1)), Ghost(kids.skip(1)));
        proof {
            assert(kids.take(1).push(kids.skip(1)[0]) =~= kids.take(2));
            assert(kids.skip(1).drop_first() =~= kids.skip(2));
        }
        graft(pot, root, c, Ghost(kids.take(2)), Ghost(kids.skip(2)));
        proof {
            assert(kids.take(2).push(kids.skip(2)[0]) =~= kids.take(3));
            assert(kids.skip(2).drop_first() =~= kids.skip(3));
        }
        graft(pot, root, d, Ghost(kids.take(3)), Ghost(kids.skip(3)));
        proof {
            assert(kids.take(3).push(kids.skip(3)[0]) =~= kids.take(4));
            assert(kids.skip(3).drop_first() =~= kids.skip(4));
        }
        graft(pot, root, e, Ghost(kids.take(4)), Ghost(kids.skip(4)));
        proof {
            assert(kids.take(4).push(kids.skip(4)[0]) =~= kids.take(5));
            assert(kids.skip(4).drop_first() =~= kids.skip(5));
        }
        graft(pot, root, f, Ghost(kids.take(5)), Ghost(kids.skip(5)));
        proof {
            assert(kids.take(5).push(kids.skip(5)[0]) =~= kids.take(6));
            assert(kids.skip(5).drop_first() =~= kids.skip(6));
        }
        proof {
            pot.lemma_shape(root);
            assert(kids.take(6) =~= kids);
            assert(count_nodes(kids.skip(6)) == 0);
            assert(mid.has(parent));
            assert(mid.has(root));
        }
        root
    }

    fn construct_root(self) -> (pot: Pot<T>) {
        let ghost kids = self.shape().children;
        let (data, a, b, c, d, e, f,) = self;
        let mut pot = Pot::new_tree(data);
        proof {
            pot.lemma_root();
            assert(pot.shapes(pot.children(ROOT)) =~= kids.take(0));
            assert(kids.skip(0) =~= kids);
        }
        graft(&mut pot, ROOT, a, Ghost(kids.take(0)), Ghost(kids.skip(0)));
        proof {
            assert(kids.take(0).push(kids.skip(0)[0]) =~= kids.take(1));
            assert(kids.skip(0).drop_first() =~= kids.skip(1));
        }
        graft(&mut pot, ROOT, b, Ghost(kids.take(1)), Ghost(kids.skip(1)));
        proof {
            assert(kids.take(1).push(kids.skip(1)[0]) =~= kids.take(2));
            assert(kids.skip(1).drop_first() =~= kids.skip(2));
        }
        graft(&mut pot, ROOT, c, Ghost(kids.take(2)), Ghost(kids.skip(2)));
        proof {
            assert(kids.take(2).push(kids.skip(2)[0]) =~= kids.take(3));
            assert(kids.skip(2).drop_first() =~= kids.skip(3));
        }
        graft(&mut pot, ROOT, d, Ghost(kids.take(3)), Ghost(kids.skip(3)));
        proof {
            assert(kids.take(3).push(kids.skip(3)[0]) =~= kids.take(4));
            assert(kids.skip(3).drop_first() =~= kids.skip(4));
        }
        graft(&mut pot, ROOT, e, Ghost(kids.take(4)), Ghost(kids.skip(4)));
        proof {
            assert(kids.take(4).push(kids.skip(4)[0]) =~= kids.take(5));
            assert(kids.skip(4).drop_first() =~= kids.skip(5));
        }
        graft(&mut pot, ROOT, f, Ghost(kids.take(5)), Ghost(kids.skip(5)));
        proof {
            assert(kids.take(5).push(kids.skip(5)[0]) =~= kids.take(6));
            assert(kids.skip(5).drop_first() =~= kids.skip(6));
        }
        proof {
            pot.lemma_root();
            pot.lemma_shape(ROOT);
            assert(kids.take(6) =~= kids);
        }
        pot
    }
}

impl<T: TreeData, A: TupleTree<Data = T>, B: TupleTree<Data = T>, C: TupleTree<Data = T>, D: TupleTree<Data = T>, E: TupleTree<Data = T>, F: TupleTree<Data = T>> TupleForest for (FakeRoot<T>, A, B, C, D, E, F,) {
    type Data = T;

    open spec fn shapes(&self) -> Seq<Shape<T>> {
        seq![self.1.shape(), self.2.shape(), self.3.shape(), self.4.shape(), self.5.shape(), self.6.shape()]
    }

    fn construct_all_nodes(self, parent: usize, pot: &mut Pot<T>) {
        let ghost kids = self.shapes();
        let ghost had = pot.shapes(pot.children(parent));
        let ghost old_kids = pot.children(parent);
        let (_, a, b, c, d, e, f,) = self;
        proof {
            assert(had + kids.take(0) =~= had);
            assert(kids.skip(0) =~= kids);
            assert(pot.children(parent).take(old_kids.len() as int) =~= old_kids);
        }
        graft(pot, parent, a, Ghost(had + kids.take(0)), Ghost(kids.skip(0)));
        proof {
            assert((had + kids.take(0)).push(kids.skip(0)[0]) =~= had + kids.take(1));
            assert(kids.skip(0).drop_first() =~= kids.skip(1));
        }
        graft(pot, parent, b, Ghost(had + kids.take(1)), Ghost(kids.skip(1)));
        proof {
            assert((had + kids.take(1)).push(kids.skip(1)[0]) =~= had + kids.take(2));
            assert(kids.skip(1).drop_first() =~= kids.skip(2));
        }
        graft(pot, parent, c, Ghost(had + kids.take(2)), Ghost(kids.skip(2)));
        proof {
            assert((had + kids.take(2)).push(kids.skip(2)[0]) =~= had + kids.take(3));
            assert(kids.skip(2).drop_first() =~= kids.skip(3));
        }
        graft(pot, parent, d, Ghost(had + kids.take(3)), Ghost(kids.skip(3)));
        proof {
            assert((had + kids.take(3)).push(kids.skip(3)[0]) =~= had + kids.take(4));
            assert(kids.skip(3).drop_first() =~= kids.skip(4));
        }
        graft(pot, parent, e, Ghost(had + kids.take(4)), Ghost(kids.skip(4)));
        proof {
            assert((had + kids.take(4)).push(kids.skip(4)[0]) =~= had + kids.take(5));
            assert(kids.skip(4).drop_first() =~= kids.skip(5));
        }
        graft(pot, parent, f, Ghost(had + kids.take(5)), Ghost(kids.skip(5)));
        proof {
            assert((had + kids.take(5)).push(kids.skip(5)[0]) =~= had + kids.take(6));
            assert(kids.skip(5).drop_first() =~= kids.skip(6));
        }
        proof {
            assert(kids.take(6) =~= kids);
            assert(count_nodes(kids.skip(6)) == 0);
        }
    }
}

impl<T: TreeData, A: TupleTree<Data = T>, B: TupleTree<Data = T>, C: TupleTree<Data = T>, D: TupleTree<Data = T>, E: TupleTree<Data = T>, F: TupleTree<Data = T>, G: TupleTree<Data = T>> TupleTree for (T, A, B, C, D, E, F, G,) {
    type Data = T;

    open spec fn shape(&self) -> Shape<T> {
        Shape { data: self.0, children: seq![self.1.shape(), self.2.shape(), self.3.shape(), self.4.shape(), self.5.shape(), self.6.shape(), self.7.shape()] }
    }

    fn construct_all_nodes(self, parent: usize, pot: &mut Pot<T>) -> (child: usize) {
        let ghost kids = self.shape().children;
        let (data, a, b, c, d, e, f, g,) = self;
        let root = pot.append(parent, data);
        proof {
            assert(pot.shapes(pot.children(root)) =~= kids.take(0));
            assert(kids.skip(0) =~= kids);
        }
        let ghost mid = *pot;
        graft(pot, root, a, Ghost(kids.take(0)), Ghost(kids.skip(0)));
        proof {
            assert(kids.take(0).push(kids.skip(0)[0]) =~= kids.take(1));
            assert(kids.skip(0).drop_first() =~= kids.skip(1));
        }
        graft(pot, root, b, Ghost(kids.take(1)), Ghost(kids.skip(1)));
        proof {
            assert(kids.take(1).push(kids.skip(1)[0]) =~= kids.take(2));
            assert(kids.skip(1).drop_first() =~= kids.skip(2));
        }
        graft(pot, root, c, Ghost(kids.take(2)), Ghost(kids.skip(2)));
        proof {
            assert(kids.take(2).push(kids.skip(2)[0]) =~= kids.take(3));
            assert(kids.skip(2).drop_first() =~= kids.skip(3));
        }
        graft(pot, root, d, Ghost(kids.take(3)), Ghost(kids.skip(3)));
        proof {
            assert(kids.take(3).push(kids.skip(3)[0]) =~= kids.take(4));
            assert(kids.skip(3).drop_first() =~= kids.skip(4));
        }
        graft(pot, root, e, Ghost(kids.take(4)), Ghost(kids.skip(4)));
        proof {
            assert(kids.take(4).push(kids.skip(4)[0]) =~= kids.take(5));
            assert(kids.skip(4).drop_first() =~= kids.skip(5));
        }
        graft(pot, root, f, Ghost(kids.take(5)), Ghost(kids.skip(5)));
        proof {
            assert(kids.take(5).push(kids.skip(5)[0]) =~= kids.take(6));
            assert(kids.skip(5).drop_first() =~= kids.skip(6));
        }
        graft(pot, root, g, Ghost(kids.take(6)), Ghost(kids.skip(6)));
        proof {
            assert(kids.take(6).push(kids.skip(6)[0]) =~= kids.take(7));
            assert(kids.skip(6).drop_first() =~= kids.skip(7));
        }
        proof {
            pot.lemma_shape(root);
            assert(kids.take(7) =~= kids);
            assert(count_nodes(kids.skip(7)) == 0);
            assert(mid.has(parent));
            assert(mid.has(root));
        }
        root
    }

    fn construct_root(self) -> (pot: Pot<T>) {
        let ghost kids = self.shape().children;
        let (data, a, b, c, d, e, f, g,) = self;
        let mut pot = Pot::new_tree(data);
        proof {
            pot.lemma_root();
            assert(pot.shapes(pot.children(ROOT)) =~= kids.take(0));
            assert(kids.skip(0) =~= kids);
        }
        graft(&mut pot, ROOT, a, Ghost(kids.take(0)), Ghost(kids.skip(0)));
        proof {
            assert(kids.take(0).push(kids.skip(0)[0]) =~= kids.take(1));
            assert(kids.skip(0).drop_first() =~= kids.skip(1));
        }
        graft(&mut pot, ROOT, b, Ghost(kids.take(1)), Ghost(kids.skip(1)));
        proof {
            assert(kids.take(1).push(kids.skip(1)[0]) =~= kids.take(2));
            assert(kids.skip(1).drop_first() =~= kids.skip(2));
        }
        graft(&mut pot, ROOT, c, Ghost(kids.take(2)), Ghost(kids.skip(2)));
        proof {
            assert(kids.take(2).push(kids.skip(2)[0]) =~= kids.take(3));
            assert(kids.skip(2).drop_first() =~= kids.skip(3));
        }
        graft(&mut pot, ROOT, d, Ghost(kids.take(3)), Ghost(kids.skip(3)));
        proof {
            assert(kids.take(3).push(kids.skip(3)[0]) =~= kids.take(4));
            assert(kids.skip(3).drop_first() =~= kids.skip(4));
        }
        graft(&mut pot, ROOT, e, Ghost(kids.take(4)), Ghost(kids.skip(4)));
        proof {
            assert(kids.take(4).push(kids.skip(4)[0]) =~= kids.take(5));
            assert(kids.skip(4).drop_first() =~= kids.skip(5));
        }
        graft(&mut pot, ROOT, f, Ghost(kids.take(5)), Ghost(kids.skip(5)));
        proof {
            assert(kids.take(5).push(kids.skip(5)[0]) =~= kids.take(6));
            assert(kids.skip(5).drop_first() =~= kids.skip(6));
        }
        graft(&mut pot, ROOT, g, Ghost(kids.take(6)), Ghost(kids.skip(6)));
        proof {
            assert(kids.take(6).push(kids.skip(6)[0]) =~= kids.take(7));
            assert(kids.skip(6).drop_first() =~= kids.skip(7));
        }
        proof {
            pot.lemma_root();
            pot.lemma_shape(ROOT);
            assert(kids.take(7) =~= kids);
        }
        pot
    }
}

impl<T: TreeData, A: TupleTree<Data = T>, B: TupleTree<Data = T>, C: TupleTree<Data = T>, D: TupleTree<Data = T>, E: TupleTree<Data = T>, F: TupleTree<Data = T>, G: TupleTree<Data = T>> TupleForest for (FakeRoot<T>, A, B, C, D, E, F, G,) {
    type Data = T;

    open spec fn shapes(&self) -> Seq<Shape<T>> {
        seq![self.1.shape(), self.2.shape(), self.3.shape(), self.4.shape(), self.5.shape(), self.6.shape(), self.7.shape()]
    }

    fn construct_all_nodes(self, parent: usize, pot: &mut Pot<T>) {
        let ghost kids = self.shapes();
        let ghost had = pot.shapes(pot.children(parent));
        let ghost old_kids = pot.children(parent);
        let (_, a, b, c, d, e, f, g,) = self;
        proof {
            assert(had + kids.take(0) =~= had);
            assert(kids.skip(0) =~= kids);
            assert(pot.children(parent).take(old_kids.len() as int) =~= old_kids);
        }
        graft(pot, parent, a, Ghost(had + kids.take(0)), Ghost(kids.skip(0)));
        proof {
            assert((had + kids.take(0)).push(kids.skip(0)[0]) =~= had + kids.take(1));
            assert(kids.skip(0).drop_first() =~= kids.skip(1));
        }
        graft(pot, parent, b, Ghost(had + kids.take(1)), Ghost(kids.skip(1)));
        proof {
            assert((had + kids.take(1)).push(kids.skip(1)[0]) =~= had + kids.take(2));
            assert(kids.skip(1).drop_first() =~= kids.skip(2));
        }
        graft(pot, parent, c, Ghost(had + kids.take(2)), Ghost(kids.skip(2)));
        proof {
            assert((had + kids.take(2)).push(kids.skip(2)[0]) =~= had + kids.take(3));
            assert(kids.skip(2).drop_first() =~= kids.skip(3));
        }
        graft(pot, parent, d, Ghost(had + kids.take(3)), Ghost(kids.skip(3)));
        proof {
            assert((had + kids.take(3)).push(kids.skip(3)[0]) =~= had + kids.take(4));
            assert(kids.skip(3).drop_first() =~= kids.skip(4));
        }
        graft(pot, parent, e, Ghost(had + kids.take(4)), Ghost(kids.skip(4)));
        proof {
            assert((had + kids.take(4)).push(kids.skip(4)[0]) =~= had + kids.take(5));
            assert(kids.skip(4).drop_first() =~= kids.skip(5));
        }
        graft(pot, parent, f, Ghost(had + kids.take(5)), Ghost(kids.skip(5)));
        proof {
            assert((had + kids.take(5)).push(kids.skip(5)[0]) =~= had + kids.take(6));
            assert(kids.skip(5).drop_first() =~= kids.skip(6));
        }
        graft(pot, parent, g, Ghost(had + kids.take(6)), Ghost(kids.skip(6)));
        proof {
            assert((had + kids.take(6)).push(kids.skip(6)[0]) =~= had + kids.take(7));
            assert(kids.skip(6).drop_first() =~= kids.skip(7));
        }
        proof {
            assert(kids.take(7) =~= kids);
            assert(count_nodes(kids.skip(7)) == 0);
        }
    }
}

impl<T> Tree<T> {
    /// Makes the tree that `tuple` stands for.
    pub fn from_tuple<Tuple: TupleTree<Data = T>>(tuple: Tuple) -> (tree: Self)
        requires
            tuple.shape().node_count() + 1 <= u32::MAX,
        ensures
            tree.wf(),
            tree@ == tuple.shape(),
    {
        Tree::from_pot(tuple.construct_root())
    }
}

impl<T> Forest<T> {
    /// Makes the forest that `tuple` stands for.
    pub fn from_tuple<Tuple: TupleForest<Data = T>>(tuple: Tuple) -> (forest: Self)
        requires
            count_nodes(tuple.shapes()) + 2 <= u32::MAX,
        ensures
            forest.wf(),
            forest@ == tuple.shapes(),
    {
        let mut pot = Pot::new_forest();
        proof {
            pot.lemma_root();
            assert(pot.shapes(pot.children(ROOT)) =~= Seq::<Shape<T>>::empty());
        }
        tuple.construct_all_nodes(ROOT, &mut pot);
        proof {
            assert(Seq::<Shape<T>>::empty() + tuple.shapes() =~= tuple.shapes());
        }
        Forest::from_pot(pot)
    }
}

} // verus!
