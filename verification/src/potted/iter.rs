//! Iterators over the children of a node in a pot.

use vstd::prelude::*;
use std::collections::VecDeque;
use super::node::Node;
use super::pot::Pot;
use crate::bfs::Visit;
use crate::shape::{breadth_first, lemma_count_step, count_nodes, Shape};
use crate::size::Size;

verus! {

/// A forward iterator over the children of a node: it starts at
/// position `head` and follows the links to the next sibling `len`
/// times.
pub struct Iter<'a, T> {
    head: usize,
    len: usize,
    pot: &'a Pot<T>,
    parent: Ghost<usize>,
    pos: Ghost<int>,
}

impl<'a, T> Iter<'a, T> {
    /// The iterator stands before the child at position `head` of a node
    /// of a well formed pot, with `len` children to go.
    pub closed spec fn wf(&self) -> bool {
        let ks = self.pot.children(self.parent@);
        &&& self.pot.wf()
        &&& self.pot.has(self.parent@)
        &&& 0 <= self.pos@ <= ks.len()
        &&& self.len == ks.len() - self.pos@
        &&& self.pos@ < ks.len() ==> self.head == ks[self.pos@]
    }

    /// The positions of the children that are yet to come, in order.
    pub closed spec fn view(&self) -> Seq<usize> {
        self.pot.children(self.parent@).skip(self.pos@)
    }

    /// The pot that holds the children.
    pub closed spec fn pot(&self) -> Pot<T> {
        *self.pot
    }

    /// Makes an iterator over the children of the node at `index`.
    pub(crate) fn new(pot: &'a Pot<T>, index: usize) -> (iter: Self)
        requires
            pot.wf(),
            pot.has(index),
        ensures
            iter.wf(),
            iter@ == pot.children(index),
            iter.pot() == *pot,
    {
        proof {
            assert(pot.children(index).skip(0) =~= pot.children(index));
        }
        Iter { head: pot.head(index), len: pot.degree(index), pot, parent: Ghost(index), pos: Ghost(0) }
    }

    /// Returns the number of children that are yet to come.
    pub fn len(&self) -> (n: usize)
        requires
            self.wf(),
        ensures
            n == self@.len(),
    {
        self.len
    }

    /// Returns the next child and steps behind it, or returns `None`
    /// behind the last child.
    pub fn next(&mut self) -> (node: Option<&'a Node<T>>)
        requires
            old(self).wf(),
        ensures
            final(self).wf(),
            final(self).pot() == old(self).pot(),
            old(self)@.len() == 0 ==> node is None && final(self)@ == old(self)@,
            old(self)@.len() > 0 ==> node is Some && *node.unwrap() == old(self).pot().node_at(old(self)@[0])
                && old(self).pot().has(old(self)@[0]) && old(self).pot().datum(old(self)@[0]) is Some
                && final(self)@ == old(self)@.drop_first(),
    {
        if self.len == 0 {
            None
        } else {
            let pot: &'a Pot<T> = self.pot;
            let index = self.head;
            proof {
                pot.lemma_sizes(self.parent@);
            }
            self.len = self.len - 1;
            self.head = pot.next(index, Ghost(self.pos@));
            proof {
                self.pos = Ghost(self.pos@ + 1);
                assert(self@ =~= old(self)@.drop_first());
            }
            Some(pot.node(index))
        }
    }
}

/// A forward iterator over the children of a node that lets the data of
/// each child be changed in place.
pub struct IterMut<'a, T> {
    /// the pot that holds the children
    pub pot: &'a mut Pot<T>,
    /// the position of the child to visit next
    pub head: usize,
    /// the number of children yet to visit
    pub len: usize,
    /// the position of the parent of the children
    pub parent: Ghost<usize>,
    /// the place of the child to visit next among the children
    pub pos: Ghost<int>,
}

impl<'a, T> IterMut<'a, T> {
    /// The iterator stands before the child at position `head` of a node
    /// of a well formed pot, with `len` children to go.
    pub open spec fn wf(&self) -> bool {
        let ks = self.pot.children(self.parent@);
        &&& self.pot.wf()
        &&& self.pot.has(self.parent@)
        &&& 0 <= self.pos@ <= ks.len()
        &&& self.len == ks.len() - self.pos@
        &&& self.pos@ < ks.len() ==> self.head == ks[self.pos@]
    }

    /// Makes an iterator over the children of the node at `index`.
    pub(crate) fn new(pot: &'a mut Pot<T>, index: usize) -> (iter: Self)
        requires
            old(pot).wf(),
            old(pot).has(index),
        ensures
            iter.wf(),
            iter.parent@ == index,
            iter.pos@ == 0,
            *iter.pot == *old(pot),
            *final(iter.pot) == *final(pot),
    {
        let head = pot.head(index);
        let len = pot.degree(index);
        IterMut { pot, head, len, parent: Ghost(index), pos: Ghost(0) }
    }

    /// Returns the number of children that are yet to come.
    pub fn len(&self) -> (n: usize)
        requires
            self.wf(),
        ensures
            n == old(self.pot).children(self.parent@).len() - self.pos@,
    {
        self.len
    }

    /// Returns the data of the next child for changing it in place and
    /// steps behind that child, or returns `None` behind the last child.
    pub fn next<'b>(&'b mut self) -> (data: Option<&'b mut T>)
        requires
            old(self).wf(),
        ensures
            *final(final(self).pot) == *final(old(self).pot),
            final(self).parent == old(self).parent,
            old(self).len == 0 ==> data is None && final(self).wf() && *final(self).pot == *old(self).pot
                && final(self).pos == old(self).pos,
            old(self).len > 0 ==> data is Some && final(self).wf() && final(self).pos@ == old(self).pos@ + 1 && ({
                let child = old(self).pot.children(old(self).parent@)[old(self).pos@];
                &&& *data.unwrap() == old(self).pot.datum(child).unwrap()
                &&& final(self).pot.datum(child) == Some(*final(data.unwrap()))
                &&& final(self).pot.spec_len() == old(self).pot.spec_len()
                &&& forall|i: usize| old(self).pot.has(i) ==> #[trigger] final(self).pot.children(i) == old(self).pot.children(i)
                &&& forall|i: usize|
                    old(self).pot.has(i) && i != child ==> #[trigger] final(self).pot.datum(i) == old(self).pot.datum(i)
                &&& forall|i: usize| old(self).pot.has(i) ==> #[trigger] final(self).pot.parent_of(i) == old(self).pot.parent_of(i)
            }),
    {
        if self.len == 0 {
            None
        } else {
            let index = self.head;
            let ghost pos = self.pos@;
            proof {
                self.pot.lemma_sizes(self.parent@);
            }
            self.len = self.len - 1;
            self.head = self.pot.next(index, Ghost(pos));
            proof {
                self.pos = Ghost(pos + 1);
            }
            Some(self.pot.data_mut(index))
        }
    }
}

/// The positions that the iterators of a queue are yet to yield, one
/// iterator after the other.
pub open spec fn waiting<'a, T>(iters: Seq<Iter<'a, T>>) -> Seq<usize>
    decreases iters.len(),
{
    if iters.len() == 0 {
        Seq::empty()
    } else {
        iters[0]@ + waiting(iters.drop_first())
    }
}

/// Putting an iterator at the end of a queue puts its positions behind
/// all that waits.
pub proof fn lemma_waiting_push<'a, T>(iters: Seq<Iter<'a, T>>, last: Iter<'a, T>)
    ensures
        waiting(iters.push(last)) == waiting(iters) + last@,
    decreases iters.len(),
{
    if iters.len() == 0 {
        assert(iters.push(last).drop_first() =~= iters);
        assert(waiting(iters.push(last)) =~= waiting(iters) + last@);
    } else {
        assert(iters.push(last).drop_first() =~= iters.drop_first().push(last));
        lemma_waiting_push(iters.drop_first(), last);
        assert(waiting(iters.push(last)) =~= waiting(iters) + last@);
    }
}

/// An iterator in breadth-first manner over nodes of a pot.
pub struct Splitted<'a, T> {
    pot: &'a Pot<T>,
    first: Option<usize>,
    iters: VecDeque<Iter<'a, T>>,
}

impl<'a, T> Splitted<'a, T> {
    /// The positions of the nodes that wait to be visited, in the order
    /// of the queue.
    pub closed spec fn view(&self) -> Seq<usize> {
        match self.first {
            Some(index) => seq![index] + waiting(self.iters@),
            None => waiting(self.iters@),
        }
    }

    /// The pot that holds the nodes.
    pub closed spec fn pot(&self) -> Pot<T> {
        *self.pot
    }

    /// The pot is well formed, every iterator of the queue iterates over
    /// it, and the node that waits first, if there is one, holds data.
    pub closed spec fn wf(&self) -> bool {
        &&& self.pot.wf()
        &&& self.first is Some ==> self.pot.has(self.first.unwrap()) && self.pot.datum(self.first.unwrap()) is Some
        &&& forall|i: int| 0 <= i < self.iters@.len() ==> (#[trigger] self.iters@[i]).wf() && self.iters@[i].pot() == *self.pot
    }

    /// Makes the iterator over the nodes of the tree below the node at
    /// `index`.
    pub fn from_node(pot: &'a Pot<T>, index: usize) -> (iter: Self)
        requires
            pot.wf(),
            pot.has(index),
            pot.datum(index) is Some,
        ensures
            iter.wf(),
            iter.pot() == *pot,
            iter@ == seq![index],
    {
        let iter = Splitted { pot, first: Some(index), iters: VecDeque::new() };
        proof {
            assert(iter@ =~= seq![index]);
        }
        iter
    }

    /// Makes the iterator over the nodes of the trees below the children
    /// of the node at `index`.
    pub fn from_children(pot: &'a Pot<T>, index: usize) -> (iter: Self)
        requires
            pot.wf(),
            pot.has(index),
        ensures
            iter.wf(),
            iter.pot() == *pot,
            iter@ == pot.children(index),
    {
        let mut iters = VecDeque::new();
        let sibs = Iter::new(pot, index);
        iters.push_back(sibs);
        let iter = Splitted { pot, first: None, iters };
        proof {
            assert(iter.iters@ =~= seq![sibs]);
            assert(iter.iters@.drop_first() =~= Seq::<Iter<'a, T>>::empty());
            assert(waiting(iter.iters@.drop_first()) =~= Seq::<usize>::empty());
            assert(waiting(iter.iters@) =~= sibs@ + Seq::<usize>::empty());
            assert(iter@ =~= pot.children(index));
        }
        iter
    }

    /// Puts the children of the node at `index` at the end of the queue
    /// and returns the visit of that node.
    fn visit(&mut self, index: usize) -> (visit: Visit<&'a T>)
        requires
            old(self).pot.wf(),
            old(self).pot.has(index),
            old(self).pot.datum(index) is Some,
            forall|i: int|
                0 <= i < old(self).iters@.len() ==> (#[trigger] old(self).iters@[i]).wf() && old(self).iters@[i].pot() == *old(
                    self,
                ).pot,
        ensures
            *visit.data == old(self).pot.datum(index).unwrap(),
            visit.size.degree == old(self).pot.children(index).len(),
            visit.size.node_cnt == old(self).pot.count(index),
            final(self).first == old(self).first,
            final(self).pot == old(self).pot,
            forall|i: int|
                0 <= i < final(self).iters@.len() ==> (#[trigger] final(self).iters@[i]).wf() && final(self).iters@[i].pot()
                    == *final(self).pot,
            waiting(final(self).iters@) == waiting(old(self).iters@) + old(self).pot.children(index),
    {
        let pot: &'a Pot<T> = self.pot;
        let node = pot.node(index);
        proof {
            pot.lemma_sizes(index);
            pot.node_at(index).lemma_fields();
            pot.lemma_node(index);
        }
        let children = Iter::new(pot, index);
        proof {
            lemma_waiting_push(self.iters@, children);
        }
        self.iters.push_back(children);
        Visit { data: node.data(), size: Size { degree: node.degree() as u32, node_cnt: node.node_count() as u32 } }
    }

    /// Visits the node at the head of the queue and puts its children at
    /// the end of the queue, or returns `None` if nothing waits.
    pub fn next(&mut self) -> (visit: Option<Visit<&'a T>>)
        requires
            old(self).wf(),
        ensures
            final(self).wf(),
            final(self).pot() == old(self).pot(),
            old(self)@.len() == 0 ==> visit is None && final(self)@ == old(self)@,
            old(self)@.len() > 0 ==> visit is Some && old(self).pot().has(old(self)@[0])
                && *visit.unwrap().data == old(self).pot().datum(old(self)@[0]).unwrap()
                && visit.unwrap().size.degree == old(self).pot().children(old(self)@[0]).len()
                && visit.unwrap().size.node_cnt == old(self).pot().count(old(self)@[0])
                && final(self)@ == old(self)@.drop_first() + old(self).pot().children(old(self)@[0]),
    {
        match self.first.take() {
            Some(index) => {
                proof {
                    assert(old(self)@.drop_first() =~= waiting(self.iters@));
                }
                let visit = self.visit(index);
                return Some(visit);
            },
            None => {},
        }
        loop
            invariant
                self.first is None,
                self.pot == old(self).pot,
                self.pot.wf(),
                forall|i: int| 0 <= i < self.iters@.len() ==> (#[trigger] self.iters@[i]).wf() && self.iters@[i].pot() == *self.pot,
                waiting(self.iters@) == old(self)@,
            decreases self.iters@.len(),
        {
            let ghost queue = self.iters@;
            match self.iters.pop_front() {
                None => {
                    return None;
                },
                Some(sibs) => {
                    let mut sibs = sibs;
                    proof {
                        assert(queue[0].wf());
                        assert(self.iters@ =~= queue.drop_first());
                        assert forall|i: int| 0 <= i < self.iters@.len() implies (#[trigger] self.iters@[i]).wf()
                            && self.iters@[i].pot() == *self.pot by {
                            assert(queue[i + 1].wf());
                        }
                    }
                    let ghost before = sibs@;
                    match sibs.next() {
                        Some(node) => {
                            let ghost rest = self.iters@;
                            let index = node.index();
                            proof {
                                self.pot.lemma_node(before[0]);
                            }
                            self.iters.push_front(sibs);
                            proof {
                                assert(self.iters@.drop_first() =~= rest);
                                assert(self.iters@[0] == sibs);
                                assert forall|i: int| 0 <= i < self.iters@.len() implies (#[trigger] self.iters@[i]).wf()
                                    && self.iters@[i].pot() == *self.pot by {
                                    if i > 0 {
                                        assert(rest[i - 1].wf());
                                    }
                                }
                                assert(old(self)@ =~= seq![index] + waiting(self.iters@));
                                assert(old(self)@.drop_first() =~= waiting(self.iters@));
                            }
                            let visit = self.visit(index);
                            return Some(visit);
                        },
                        None => {
                            proof {
                                assert(before + waiting(self.iters@) =~= waiting(self.iters@));
                            }
                        },
                    }
                },
            }
        }
    }

    /// Visits all the nodes that wait or come to wait, and returns the
    /// visits in the order in which they were made.
    pub fn collect(self) -> (visits: Vec<Visit<&'a T>>)
        requires
            self.wf(),
            forall|i: int| 0 <= i < self@.len() ==> self.pot().has(#[trigger] self@[i]),
        ensures
            visits@.len() == breadth_first(self.pot().shapes(self@)).len(),
            forall|i: int|
                0 <= i < visits@.len() ==> {
                    &&& *(#[trigger] visits@[i]).data == breadth_first(self.pot().shapes(self@))[i].data
                    &&& visits@[i].size.degree == breadth_first(self.pot().shapes(self@))[i].degree()
                    &&& visits@[i].size.node_cnt == breadth_first(self.pot().shapes(self@))[i].node_count()
                },
    {
        let mut iter = self;
        let mut visits: Vec<Visit<&'a T>> = Vec::new();
        let ghost pot = *self.pot;
        let ghost whole = breadth_first(pot.shapes(self@));
        loop
            invariant
                iter.wf(),
                iter.pot() == pot,
                pot == self.pot(),
                whole == breadth_first(pot.shapes(self@)),
                pot.wf(),
                forall|i: int| 0 <= i < iter@.len() ==> pot.has(#[trigger] iter@[i]),
                visits@.len() + breadth_first(pot.shapes(iter@)).len() == whole.len(),
                forall|i: int|
                    0 <= i < visits@.len() ==> {
                        &&& *(#[trigger] visits@[i]).data == whole[i].data
                        &&& visits@[i].size.degree == whole[i].degree()
                        &&& visits@[i].size.node_cnt == whole[i].node_count()
                    },
                forall|i: int|
                    0 <= i < breadth_first(pot.shapes(iter@)).len() ==> #[trigger] breadth_first(pot.shapes(iter@))[i] == whole[visits@.len()
                        + i],
            decreases count_nodes(pot.shapes(iter@)),
        {
            let ghost queue = iter@;
            let ghost trees = pot.shapes(queue);
            let ghost done = visits@.len() as int;
            match iter.next() {
                Some(visit) => {
                    proof {
                        let head = queue[0];
                        pot.lemma_shape(head);
                        pot.lemma_sizes(head);
                        pot.lemma_size_of_shape(head);
                        assert(trees[0] == pot.shape(head));
                        assert(pot.shapes(iter@) =~= trees.drop_first() + trees[0].children);
                        lemma_count_step(trees);
                        let rest = breadth_first(pot.shapes(iter@));
                        assert(breadth_first(trees) =~= seq![trees[0]] + rest);
                        assert(breadth_first(trees)[0] == whole[done + 0]);
                        assert forall|i: int| 0 <= i < rest.len() implies #[trigger] rest[i] == whole[done + 1 + i] by {
                            assert(breadth_first(trees)[i + 1] == whole[done + (i + 1)]);
                        }
                        assert forall|i: int| 0 <= i < iter@.len() implies pot.has(#[trigger] iter@[i]) by {
                            if i < queue.len() - 1 {
                                assert(iter@[i] == queue[i + 1]);
                            } else {
                                assert(iter@[i] == pot.children(head)[i - (queue.len() - 1)]);
                            }
                        }
                    }
                    visits.push(visit);
                },
                None => {
                    proof {
                        assert(pot.shapes(queue) =~= Seq::<Shape<T>>::empty());
                    }
                    return visits;
                },
            }
        }
    }
}

} // verus!
