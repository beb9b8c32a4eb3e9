//! Breadth first search.

use vstd::prelude::*;
use std::collections::VecDeque;
use crate::linked::fully::forest::{Forest, IntoIter};
use crate::linked::fully::iter::Iter;
use crate::linked::fully::node::Node;
use crate::linked::fully::tree::Tree;
use crate::shape::{breadth_first, count_nodes, lemma_count_at_least, lemma_count_concat, lemma_count_one, lemma_count_step, Shape};
use crate::size::Size;

verus! {

/// One visit in breadth first search: the data of a node, the number of
/// its children and the number of nodes of its subtree.
pub struct Visit<T> {
    pub data: T,
    pub size: Size,
}

impl<T> Visit<T> {
    /// Whether the visit shows the root of `tree`.
    pub open spec fn shows(&self, tree: Shape<T>) -> bool {
        &&& self.data == tree.data
        &&& self.size.degree == tree.degree()
        &&& self.size.node_cnt == tree.node_count()
    }
}

/// The visits of one tree in breadth first order, with the size of what
/// is visited.
pub struct BfsTree<Iter> {
    pub iter: Iter,
    pub size: Size,
}

impl<Iter> BfsTree<Iter> {
    /// Puts the visits and their size together.
    pub fn from(iter: Iter, size: Size) -> (bfs: Self)
        ensures
            bfs.iter == iter,
            bfs.size == size,
    {
        BfsTree { iter, size }
    }

    /// Wraps the visits as those of a tree.
    pub fn wrap(self) -> (bfs: Bfs<Iter>)
        ensures
            bfs == Bfs::Tree(self),
    {
        Bfs::Tree(self)
    }
}

/// The visits of the trees of one forest in breadth first order, with
/// the size of what is visited.
pub struct BfsForest<Iter> {
    pub iter: Iter,
    pub size: Size,
}

impl<Iter> BfsForest<Iter> {
    /// Puts the visits and their size together.
    pub fn from(iter: Iter, size: Size) -> (bfs: Self)
        ensures
            bfs.iter == iter,
            bfs.size == size,
    {
        BfsForest { iter, size }
    }

    /// Wraps the visits as those of a forest.
    pub fn wrap(self) -> (bfs: Bfs<Iter>)
        ensures
            bfs == Bfs::Forest(self),
    {
        Bfs::Forest(self)
    }
}

/// The visits of a tree or of a forest.
pub enum Bfs<Iter> {
    Tree(BfsTree<Iter>),
    Forest(BfsForest<Iter>),
}

impl<Iter> Bfs<Iter> {
    /// The visits, in specifications.
    pub open spec fn spec_iter(self) -> Iter {
        match self {
            Bfs::Tree(tree) => tree.iter,
            Bfs::Forest(forest) => forest.iter,
        }
    }

    /// The size of what is visited, in specifications.
    pub open spec fn spec_size(self) -> Size {
        match self {
            Bfs::Tree(tree) => tree.size,
            Bfs::Forest(forest) => forest.size,
        }
    }

    /// Returns the visits.
    pub fn iter(self) -> (iter: Iter)
        ensures
            iter == self.spec_iter(),
    {
        match self {
            Bfs::Tree(tree) => tree.iter,
            Bfs::Forest(forest) => forest.iter,
        }
    }

    /// Returns the visits and the size of what is visited.
    pub fn iter_and_size(self) -> (parts: (Iter, Size))
        ensures
            parts.0 == self.spec_iter(),
            parts.1 == self.spec_size(),
    {
        match self {
            Bfs::Tree(tree) => (tree.iter, tree.size),
            Bfs::Forest(forest) => (forest.iter, forest.size),
        }
    }

    /// Returns the visits if they are those of a tree.
    pub fn tree_iter(self) -> (iter: Option<Iter>)
        ensures
            iter == (match self {
                Bfs::Tree(tree) => Some(tree.iter),
                Bfs::Forest(_) => None,
            }),
    {
        match self {
            Bfs::Tree(tree) => Some(tree.iter),
            _ => None,
        }
    }

    /// Returns the visits if they are those of a forest.
    pub fn forest_iter(self) -> (iter: Option<Iter>)
        ensures
            iter == (match self {
                Bfs::Forest(forest) => Some(forest.iter),
                Bfs::Tree(_) => None,
            }),
    {
        match self {
            Bfs::Forest(forest) => Some(forest.iter),
            _ => None,
        }
    }
}

/// What stands for a tree and can be taken apart for a breadth first
/// search: into the data of the root, an iterator over the children, and
/// the number of nodes.
pub trait Split: Sized {
    type Item;

    type Iter;

    /// Whether the value can be taken apart.
    spec fn fit(&self) -> bool;

    fn split(self) -> (parts: (Self::Item, Self::Iter, u32))
        requires
            self.fit(),
    ;
}

impl<'a, T> Split for &'a Node<T> {
    type Item = &'a T;

    type Iter = Iter<'a, T>;

    open spec fn fit(&self) -> bool {
        self.wf() && self@.node_count() <= u32::MAX
    }

    fn split(self) -> (parts: (&'a T, Iter<'a, T>, u32))
        ensures
            *parts.0 == self@.data,
            parts.1.wf(),
            parts.1@ == self@.children,
            parts.2 == self@.node_count(),
    {
        let count = self.node_count();
        (self.data(), self.iter(), count as u32)
    }
}

impl<T> Split for Tree<T> {
    type Item = T;

    type Iter = IntoIter<T>;

    open spec fn fit(&self) -> bool {
        self.wf() && self@.node_count() <= u32::MAX
    }

    fn split(self) -> (parts: (T, IntoIter<T>, u32))
        ensures
            parts.0 == self@.data,
            parts.1.wf(),
            parts.1@ == self@.children,
            parts.2 == self@.node_count(),
    {
        let count = self.root().node_count();
        let (data, forest) = self.into_parts();
        (data, forest.into_iter(), count as u32)
    }
}

/// The trees that the iterators of a queue are yet to yield, one
/// iterator after the other.
pub open spec fn waiting<'a, T>(iters: Seq<Iter<'a, T>>) -> Seq<Shape<T>>
    decreases iters.len(),
{
    if iters.len() == 0 {
        Seq::empty()
    } else {
        iters[0]@ + waiting(iters.drop_first())
    }
}

/// Putting an iterator at the end of a queue puts its trees behind all
/// that waits.
pub proof fn lemma_waiting_push<'a, T>(iters: Seq<Iter<'a, T>>, last: Iter<'a, T>)
    ensures
        waiting(iters.push(last)) == waiting(iters) + last@,
    decreases iters.len(),
{
    if iters.len() == 0 {
        assert(iters.push(last).drop_first() =~= iters);
        assert(waiting(iters.push(last)) =~= waiting(iters) + last@);
    } else {
        assert(iters.push(last).drop_first() =~= iters.drop_first().push(last));
        lemma_waiting_push(iters.drop_first(), last);
        assert(waiting(iters.push(last)) =~= waiting(iters) + last@);
    }
}

/// An iterator in breadth-first manner over the nodes of borrowed trees.
pub struct Splitted<'a, T> {
    first: Option<&'a Node<T>>,
    iters: VecDeque<Iter<'a, T>>,
}

impl<'a, T> Splitted<'a, T> {
    /// The trees that wait to be visited, in the order of the queue.
    pub closed spec fn view(&self) -> Seq<Shape<T>> {
        match self.first {
            Some(node) => seq![node@] + waiting(self.iters@),
            None => waiting(self.iters@),
        }
    }

    /// Every iterator of the queue is well formed, and what waits has no
    /// more nodes than a `u32` can count.
    pub closed spec fn wf(&self) -> bool {
        &&& self.first is Some ==> self.first.unwrap().wf()
        &&& forall|i: int| 0 <= i < self.iters@.len() ==> (#[trigger] self.iters@[i]).wf()
        &&& count_nodes(self@) <= u32::MAX
    }

    /// Makes the iterator over the nodes of the tree below `node`.
    pub fn from_node(node: &'a Node<T>) -> (iter: Self)
        requires
            node.wf(),
            node@.node_count() <= u32::MAX,
        ensures
            iter.wf(),
            iter@ == seq![node@],
    {
        let iter = Splitted { first: Some(node), iters: VecDeque::new() };
        proof {
            lemma_count_one(node@);
            assert(iter@ =~= seq![node@]);
        }
        iter
    }

    /// Makes the iterator over the nodes of the trees of `forest`.
    pub fn from_forest(forest: &'a Forest<T>) -> (iter: Self)
        requires
            forest.wf(),
            count_nodes(forest@) <= u32::MAX,
        ensures
            iter.wf(),
            iter@ == forest@,
    {
        let mut iters = VecDeque::new();
        let sibs = forest.iter();
        iters.push_back(sibs);
        let iter = Splitted { first: None, iters };
        proof {
            assert(iter.iters@ =~= seq![sibs]);
            assert(iter.iters@.drop_first() =~= Seq::<Iter<'a, T>>::empty());
            assert(waiting(iter.iters@.drop_first()) =~= Seq::<Shape<T>>::empty());
            assert(waiting(iter.iters@) =~= sibs@ + Seq::<Shape<T>>::empty());
            assert(iter@ =~= forest@);
        }
        iter
    }

    /// Takes `node` apart, puts its children at the end of the queue and
    /// returns the visit of `node`.
    fn visit(&mut self, node: &'a Node<T>) -> (visit: Visit<&'a T>)
        requires
            forall|i: int| 0 <= i < old(self).iters@.len() ==> (#[trigger] old(self).iters@[i]).wf(),
            node.wf(),
            node@.node_count() <= u32::MAX,
        ensures
            *visit.data == node@.data,
            visit.size.degree == node@.degree(),
            visit.size.node_cnt == node@.node_count(),
            final(self).first == old(self).first,
            forall|i: int| 0 <= i < final(self).iters@.len() ==> (#[trigger] final(self).iters@[i]).wf(),
            waiting(final(self).iters@) == waiting(old(self).iters@) + node@.children,
    {
        let (data, children, node_cnt) = node.split();
        let degree = children.len();
        proof {
            lemma_waiting_push(self.iters@, children);
            lemma_count_at_least(node@.children);
        }
        self.iters.push_back(children);
        Visit { data, size: Size { degree: degree as u32, node_cnt } }
    }

    /// Visits the node at the head of the queue and puts its children at
    /// the end of the queue, or returns `None` if nothing waits.
    pub fn next(&mut self) -> (visit: Option<Visit<&'a T>>)
        requires
            old(self).wf(),
        ensures
            final(self).wf(),
            old(self)@.len() == 0 ==> visit is None && final(self)@ == old(self)@,
            old(self)@.len() > 0 ==> visit is Some
                && *visit.unwrap().data == old(self)@[0].data
                && visit.unwrap().size.degree == old(self)@[0].degree()
                && visit.unwrap().size.node_cnt == old(self)@[0].node_count()
                && final(self)@ == old(self)@.drop_first() + old(self)@[0].children,
    {
        match self.first.take() {
            Some(node) => {
                proof {
                    assert(old(self)@.drop_first() =~= waiting(self.iters@));
                    lemma_count_step(old(self)@);
                    lemma_count_concat(old(self)@.drop_first(), node@.children);
                }
                let visit = self.visit(node);
                return Some(visit);
            },
            None => {},
        }
        loop
            invariant
                self.first is None,
                forall|i: int| 0 <= i < self.iters@.len() ==> (#[trigger] self.iters@[i]).wf(),
                waiting(self.iters@) == old(self)@,
                count_nodes(old(self)@) <= u32::MAX,
            decreases self.iters@.len(),
        {
            let ghost queue = self.iters@;
            match self.iters.pop_front() {
                None => {
                    return None;
                },
                Some(sibs) => {
                    let mut sibs = sibs;
                    proof {
                        assert(queue[0].wf());
                        assert(self.iters@ =~= queue.drop_first());
                        assert forall|i: int| 0 <= i < self.iters@.len() implies (#[trigger] self.iters@[i]).wf() by {
                            assert(queue[i + 1].wf());
                        }
                    }
                    let ghost before = sibs@;
                    match sibs.next() {
                        Some(node) => {
                            let ghost rest = self.iters@;
                            self.iters.push_front(sibs);
                            proof {
                                assert(self.iters@.drop_first() =~= rest);
                                assert(self.iters@[0] == sibs);
                                assert forall|i: int| 0 <= i < self.iters@.len() implies (#[trigger] self.iters@[i]).wf() by {
                                    if i > 0 {
                                        assert(rest[i - 1].wf());
                                    }
                                }
                                assert(old(self)@ =~= seq![node@] + waiting(self.iters@));
                                lemma_count_step(old(self)@);
                                lemma_count_concat(old(self)@.drop_first(), node@.children);
                                assert(old(self)@.drop_first() =~= waiting(self.iters@));
                            }
                            let visit = self.visit(node);
                            return Some(visit);
                        },
                        None => {
                            proof {
                                assert(before + waiting(self.iters@) =~= waiting(self.iters@));
                            }
                        },
                    }
                },
            }
        }
    }

    /// Visits all the nodes that wait or come to wait, and returns the
    /// visits in the order in which they were made.
    pub fn collect(self) -> (visits: Vec<Visit<&'a T>>)
        requires
            self.wf(),
        ensures
            visits@.len() == breadth_first(self@).len(),
            forall|i: int| 0 <= i < visits@.len() ==> {
                &&& *(#[trigger] visits@[i]).data == breadth_first(self@)[i].data
                &&& visits@[i].size.degree == breadth_first(self@)[i].degree()
                &&& visits@[i].size.node_cnt == breadth_first(self@)[i].node_count()
            },
    {
        let mut iter = self;
        let mut visits: Vec<Visit<&'a T>> = Vec::new();
        let ghost whole = breadth_first(self@);
        loop
            invariant
                iter.wf(),
                whole == breadth_first(self@),
                visits@.len() + breadth_first(iter@).len() == whole.len(),
                forall|i: int| 0 <= i < visits@.len() ==> {
                    &&& *(#[trigger] visits@[i]).data == whole[i].data
                    &&& visits@[i].size.degree == whole[i].degree()
                    &&& visits@[i].size.node_cnt == whole[i].node_count()
                },
                forall|i: int| 0 <= i < breadth_first(iter@).len() ==> #[trigger] breadth_first(iter@)[i] == whole[visits@.len() + i],
            decreases count_nodes(iter@),
        {
            let ghost queue = iter@;
            let ghost done = visits@.len() as int;
            match iter.next() {
                Some(visit) => {
                    proof {
                        lemma_count_step(queue);
                        let rest = breadth_first(iter@);
                        assert(breadth_first(queue) =~= seq![queue[0]] + rest);
                        assert(breadth_first(queue)[0] == whole[done + 0]);
                        assert forall|i: int| 0 <= i < rest.len() implies #[trigger] rest[i] == whole[done + 1 + i] by {
                            assert(breadth_first(queue)[i + 1] == whole[done + (i + 1)]);
                        }
                    }
                    visits.push(visit);
                },
                None => {
                    return visits;
                },
            }
        }
    }
}

/// The trees that the iterators of a queue are yet to hand out, one
/// iterator after the other.
pub open spec fn in_store<T>(iters: Seq<IntoIter<T>>) -> Seq<Shape<T>>
    decreases iters.len(),
{
    if iters.len() == 0 {
        Seq::empty()
    } else {
        iters[0]@ + in_store(iters.drop_first())
    }
}

/// Putting an iterator at the end of a queue puts its trees behind all
/// that is in store.
pub proof fn lemma_in_store_push<T>(iters: Seq<IntoIter<T>>, last: IntoIter<T>)
    ensures
        in_store(iters.push(last)) == in_store(iters) + last@,
    decreases iters.len(),
{
    if iters.len() == 0 {
        assert(iters.push(last).drop_first() =~= iters);
        assert(in_store(iters.push(last)) =~= in_store(iters) + last@);
    } else {
        assert(iters.push(last).drop_first() =~= iters.drop_first().push(last));
        lemma_in_store_push(iters.drop_first(), last);
        assert(in_store(iters.push(last)) =~= in_store(iters) + last@);
    }
}

/// An iterator in breadth-first manner that takes trees apart and hands
/// out the data of their nodes.
pub struct Moved<T> {
    first: Option<Tree<T>>,
    iters: VecDeque<IntoIter<T>>,
}

impl<T> Moved<T> {
    /// The trees that wait to be visited, in the order of the queue.
    pub closed spec fn view(&self) -> Seq<Shape<T>> {
        match self.first {
            Some(tree) => seq![tree@] + in_store(self.iters@),
            None => in_store(self.iters@),
        }
    }

    /// Every iterator of the queue is well formed, and what waits has no
    /// more nodes than a `u32` can count.
    pub closed spec fn wf(&self) -> bool {
        &&& self.first is Some ==> self.first.unwrap().wf()
        &&& forall|i: int| 0 <= i < self.iters@.len() ==> (#[trigger] self.iters@[i]).wf()
        &&& count_nodes(self@) <= u32::MAX
    }

    /// Makes the iterator over the nodes of `tree`.
    pub fn from_tree(tree: Tree<T>) -> (iter: Self)
        requires
            tree.wf(),
            tree@.node_count() <= u32::MAX,
        ensures
            iter.wf(),
            iter@ == seq![tree@],
    {
        let iter = Moved { first: Some(tree), iters: VecDeque::new() };
        proof {
            lemma_count_one(tree@);
            assert(iter@ =~= seq![tree@]);
        }
        iter
    }

    /// Makes the iterator over the nodes of the trees of `forest`.
    pub fn from_forest(forest: Forest<T>) -> (iter: Self)
        requires
            forest.wf(),
            count_nodes(forest@) <= u32::MAX,
        ensures
            iter.wf(),
            iter@ == forest@,
    {
        let mut iters = VecDeque::new();
        let sibs = forest.into_iter();
        iters.push_back(sibs);
        let iter = Moved { first: None, iters };
        proof {
            assert(iter.iters@ =~= seq![sibs]);
            assert(iter.iters@.drop_first() =~= Seq::<IntoIter<T>>::empty());
            assert(in_store(iter.iters@.drop_first()) =~= Seq::<Shape<T>>::empty());
            assert(in_store(iter.iters@) =~= sibs@ + Seq::<Shape<T>>::empty());
            assert(iter@ =~= forest@);
        }
        iter
    }

    /// Takes `tree` apart, puts its children at the end of the queue and
    /// returns the visit of its root.
    fn visit(&mut self, tree: Tree<T>) -> (visit: Visit<T>)
        requires
            forall|i: int| 0 <= i < old(self).iters@.len() ==> (#[trigger] old(self).iters@[i]).wf(),
            tree.wf(),
            tree@.node_count() <= u32::MAX,
        ensures
            visit.shows(tree@),
            final(self).first == old(self).first,
            forall|i: int| 0 <= i < final(self).iters@.len() ==> (#[trigger] final(self).iters@[i]).wf(),
            in_store(final(self).iters@) == in_store(old(self).iters@) + tree@.children,
    {
        let (data, children, node_cnt) = tree.split();
        let degree = children.len();
        proof {
            lemma_in_store_push(self.iters@, children);
            lemma_count_at_least(tree@.children);
        }
        self.iters.push_back(children);
        Visit { data, size: Size { degree: degree as u32, node_cnt } }
    }

    /// Visits the root of the tree at the head of the queue and puts its
    /// children at the end of the queue, or returns `None` if nothing
    /// waits.
    pub fn next(&mut self) -> (visit: Option<Visit<T>>)
        requires
            old(self).wf(),
        ensures
            final(self).wf(),
            old(self)@.len() == 0 ==> visit is None && final(self)@ == old(self)@,
            old(self)@.len() > 0 ==> visit is Some && visit.unwrap().shows(old(self)@[0])
                && final(self)@ == old(self)@.drop_first() + old(self)@[0].children,
    {
        match self.first.take() {
            Some(tree) => {
                proof {
                    assert(old(self)@.drop_first() =~= in_store(self.iters@));
                    lemma_count_step(old(self)@);
                    lemma_count_concat(old(self)@.drop_first(), tree@.children);
                }
                let visit = self.visit(tree);
                return Some(visit);
            },
            None => {},
        }
        loop
            invariant
                self.first is None,
                forall|i: int| 0 <= i < self.iters@.len() ==> (#[trigger] self.iters@[i]).wf(),
                in_store(self.iters@) == old(self)@,
                count_nodes(old(self)@) <= u32::MAX,
            decreases self.iters@.len(),
        {
            let ghost queue = self.iters@;
            match self.iters.pop_front() {
                None => {
                    return None;
                },
                Some(sibs) => {
                    let mut sibs = sibs;
                    proof {
                        assert(queue[0].wf());
                        assert(self.iters@ =~= queue.drop_first());
                        assert forall|i: int| 0 <= i < self.iters@.len() implies (#[trigger] self.iters@[i]).wf() by {
                            assert(queue[i + 1].wf());
                        }
                    }
                    let ghost before = sibs@;
                    match sibs.next() {
                        Some(tree) => {
                            let ghost rest = self.iters@;
                            self.iters.push_front(sibs);
                            proof {
                                assert(self.iters@.drop_first() =~= rest);
                                assert(self.iters@[0] == sibs);
                                assert forall|i: int| 0 <= i < self.iters@.len() implies (#[trigger] self.iters@[i]).wf() by {
                                    if i > 0 {
                                        assert(rest[i - 1].wf());
                                    }
                                }
                                assert(old(self)@ =~= seq![tree@] + in_store(self.iters@));
                                lemma_count_step(old(self)@);
                                lemma_count_concat(old(self)@.drop_first(), tree@.children);
                                assert(old(self)@.drop_first() =~= in_store(self.iters@));
                            }
                            let visit = self.visit(tree);
                            return Some(visit);
                        },
                        None => {
                            proof {
                                assert(before + in_store(self.iters@) =~= in_store(self.iters@));
                            }
                        },
                    }
                },
            }
        }
    }

    /// Visits all the nodes that wait or come to wait, and returns the
    /// visits in the order in which they were made.
    pub fn collect(self) -> (visits: Vec<Visit<T>>)
        requires
            self.wf(),
        ensures
            visits@.len() == breadth_first(self@).len(),
            forall|i: int| 0 <= i < visits@.len() ==> (#[trigger] visits@[i]).shows(breadth_first(self@)[i]),
    {
        let mut iter = self;
        let mut visits: Vec<Visit<T>> = Vec::new();
        let ghost whole = breadth_first(self@);
        loop
            invariant
                iter.wf(),
                whole == breadth_first(self@),
                visits@.len() + breadth_first(iter@).len() == whole.len(),
                forall|i: int| 0 <= i < visits@.len() ==> (#[trigger] visits@[i]).shows(whole[i]),
                forall|i: int| 0 <= i < breadth_first(iter@).len() ==> #[trigger] breadth_first(iter@)[i] == whole[visits@.len() + i],
            decreases count_nodes(iter@),
        {
            let ghost queue = iter@;
            let ghost done = visits@.len() as int;
            match iter.next() {
                Some(visit) => {
                    proof {
                        lemma_count_step(queue);
                        let rest = breadth_first(iter@);
                        assert(breadth_first(queue) =~= seq![queue[0]] + rest);
                        assert(breadth_first(queue)[0] == whole[done + 0]);
                        assert forall|i: int| 0 <= i < rest.len() implies #[trigger] rest[i] == whole[done + 1 + i] by {
                            assert(breadth_first(queue)[i + 1] == whole[done + (i + 1)]);
                        }
                    }
                    visits.push(visit);
                },
                None => {
                    return visits;
                },
            }
        }
    }
}

} // verus!
