//! Iterators over the trees of a forest, from the first to the last.

use vstd::prelude::*;
use super::forest::Forest;
use super::node::Node;
use crate::shape::Shape;

verus! {

/// A forward iterator over the roots of the trees of a forest. It walks
/// the ring from room `head` and stops behind room `tail`.
pub struct Iter<'a, T> {
    forest: &'a Forest<T>,
    head: Option<usize>,
    tail: Option<usize>,
    len: usize,
    pos: Ghost<int>,
}

impl<'a, T> Iter<'a, T> {
    /// The iterator stands before room `head` of a well formed forest,
    /// with `len` rooms to go.
    pub closed spec fn wf(&self) -> bool {
        let ring = self.forest.ring();
        &&& self.forest.wf()
        &&& 0 <= self.pos@ <= ring.len()
        &&& self.len == ring.len() - self.pos@
        &&& self.head == (if self.pos@ < ring.len() { Some(ring[self.pos@]) } else { None })
        &&& ring.len() > 0 ==> self.tail == Some(ring[ring.len() - 1])
    }

    /// The trees that are yet to come, in order.
    pub closed spec fn view(&self) -> Seq<Shape<T>> {
        self.forest@.skip(self.pos@)
    }

    /// The forest under iteration.
    pub closed spec fn source(&self) -> Forest<T> {
        *self.forest
    }

    /// Makes an iterator over all the trees of `forest`.
    pub(crate) fn new(forest: &'a Forest<T>) -> (iter: Self)
        requires
            forest.wf(),
        ensures
            iter.wf(),
            iter@ == forest@,
            iter.source() == *forest,
    {
        proof {
            forest.lemma_ring();
            assert(forest@.skip(0) =~= forest@);
        }
        Iter { forest, head: forest.head(), tail: forest.tail(), len: forest.degree(), pos: Ghost(0) }
    }

    /// Returns the number of trees that are yet to come.
    pub fn len(&self) -> (n: usize)
        requires
            self.wf(),
        ensures
            n == self@.len(),
    {
        proof {
            self.forest.lemma_ring();
        }
        self.len
    }

    /// Returns the root of the next tree and steps behind it, or returns
    /// `None` behind the last tree.
    pub fn next(&mut self) -> (node: Option<&'a Node<T>>)
        requires
            old(self).wf(),
        ensures
            final(self).wf(),
            final(self).source() == old(self).source(),
            old(self)@.len() == 0 ==> node is None && final(self)@ == old(self)@,
            old(self)@.len() > 0 ==> node is Some && node.unwrap().wf() && node.unwrap()@ == old(self)@[0]
                && final(self)@ == old(self)@.drop_first()
                && decreases_to!(old(self).source() => *node.unwrap()),
    {
        proof {
            self.forest.lemma_ring();
        }
        match self.head {
            None => None,
            Some(h) => {
                let forest: &'a Forest<T> = self.forest;
                let node = forest.node(h, Ghost(self.pos@));
                proof {
                    forest.lemma_lodger_smaller(h);
                }
                let at_tail = match self.tail {
                    Some(t) => t == h,
                    None => false,
                };
                if at_tail {
                    self.head = None;
                } else {
                    self.head = Some(forest.next_room(h, Ghost(self.pos@)));
                }
                self.len = self.len - 1;
                proof {
                    self.pos = Ghost(self.pos@ + 1);
                    assert(self@ =~= old(self)@.drop_first());
                }
                Some(node)
            },
        }
    }
}

/// A forward iterator over the roots of the trees of a forest that lets
/// each root be changed in place.
pub struct IterMut<'a, T> {
    /// the forest under iteration
    pub forest: &'a mut Forest<T>,
    /// the room to visit next
    pub head: Option<usize>,
    /// the room to visit last
    pub tail: Option<usize>,
    /// the number of rooms yet to visit
    pub len: usize,
    /// the position of the room to visit next
    pub pos: Ghost<int>,
}

impl<'a, T> IterMut<'a, T> {
    /// The iterator stands at position `pos` of the ring, before room
    /// `head`, with `len` rooms to go.
    pub open spec fn wf(&self) -> bool {
        let ring = self.forest.ring();
        &&& self.forest.wf()
        &&& 0 <= self.pos@ <= ring.len()
        &&& self.len == ring.len() - self.pos@
        &&& self.head == (if self.pos@ < ring.len() { Some(ring[self.pos@]) } else { None })
        &&& ring.len() > 0 ==> self.tail == Some(ring[ring.len() - 1])
    }

    /// Makes an iterator over all the trees of `forest`.
    pub(crate) fn new(forest: &'a mut Forest<T>) -> (iter: Self)
        requires
            old(forest).wf(),
        ensures
            iter.wf(),
            iter.pos@ == 0,
            *iter.forest == *old(forest),
            *final(iter.forest) == *final(forest),
    {
        let head = forest.head();
        let tail = forest.tail();
        let len = forest.degree();
        proof {
            forest.lemma_ring();
        }
        IterMut { forest, head, tail, len, pos: Ghost(0) }
    }

    /// Returns the number of trees that are yet to come.
    pub fn len(&self) -> (n: usize)
        requires
            self.wf(),
        ensures
            n == old(self.forest)@.len() - self.pos@,
    {
        proof {
            self.forest.lemma_ring();
        }
        self.len
    }

    /// Returns the root of the next tree for changing it in place and
    /// steps behind it, or returns `None` behind the last tree.
    pub fn next<'b>(&'b mut self) -> (node: Option<&'b mut Node<T>>)
        requires
            old(self).wf(),
        ensures
            *final(final(self).forest) == *final(old(self).forest),
            old(self).pos@ >= old(self).forest@.len() ==> node is None && final(self).wf()
                && *final(self).forest == *old(self).forest && final(self).pos == old(self).pos,
            old(self).pos@ < old(self).forest@.len() ==> node is Some && node.unwrap().wf()
                && node.unwrap()@ == old(self).forest@[old(self).pos@]
                && final(self).pos@ == old(self).pos@ + 1
                && final(self).forest@ == old(self).forest@.update(old(self).pos@, final(node.unwrap())@)
                && (final(node.unwrap()).wf() ==> final(self).wf()),
    {
        proof {
            self.forest.lemma_ring();
        }
        match self.head {
            None => None,
            Some(h) => {
                let at_tail = match self.tail {
                    Some(t) => t == h,
                    None => false,
                };
                let ghost pos = self.pos@;
                if at_tail {
                    self.head = None;
                } else {
                    self.head = Some(self.forest.next_room(h, Ghost(pos)));
                }
                self.len = self.len - 1;
                proof {
                    self.pos = Ghost(pos + 1);
                }
                Some(self.forest.node_mut(h, Ghost(pos)))
            },
        }
    }
}

} // verus!
