//! An iterator over the trees of a forest that can, at each tree it
//! comes to, put a new tree before or after it or take it out.

use vstd::prelude::*;
use super::forest::Forest;
use super::node::Node;
use super::tree::Tree;
use crate::shape::Shape;

verus! {

/// Whether the last rooms of `ring` are those of `rest`, in order.
pub open spec fn ends_with(ring: Seq<usize>, rest: Seq<usize>) -> bool {
    &&& rest.len() <= ring.len()
    &&& forall|i: int| 0 <= i < rest.len() ==> ring[ring.len() - rest.len() + i] == #[trigger] rest[i]
}

/// One tree of the forest under iteration, with the means to change the
/// forest around it.
pub struct Subnode<'a, T> {
    /// the forest under iteration
    pub forest: &'a mut Forest<T>,
    /// the room of the subnode's tree
    pub node: usize,
    /// the position of the subnode's tree in the forest
    pub pos: Ghost<int>,
    /// the rooms that the iteration is yet to visit
    pub rest: Ghost<Seq<usize>>,
}

/// An iterator over the trees that stand in a forest when the iterator
/// is made. Trees that are put in on the way are not visited.
pub struct OntoIter<'a, T> {
    /// the forest under iteration
    pub forest: &'a mut Forest<T>,
    /// the room to visit next
    pub next: Option<usize>,
    /// the room visited last
    pub curr: Option<usize>,
    /// the room that was the last of the ring when the iteration began
    pub child: Option<usize>,
    /// the rooms that the iteration is yet to visit
    pub rest: Ghost<Seq<usize>>,
}

impl<'a, T> Subnode<'a, T> {
    /// The subnode's tree stands in the forest at `pos`, and the rooms
    /// yet to visit are the last of the ring.
    pub open spec fn wf(&self) -> bool {
        let ring = self.forest.ring();
        &&& self.forest.wf()
        &&& ends_with(ring, self.rest@)
        &&& 0 <= self.pos@ < ring.len() - self.rest@.len()
        &&& ring[self.pos@] == self.node
    }

    /// Returns the root of the subnode's tree.
    pub fn node(&self) -> (node: &Node<T>)
        requires
            self.wf(),
        ensures
            node.wf(),
            node@ == old(self.forest)@[self.pos@],
    {
        proof {
            self.forest.lemma_ring();
        }
        self.forest.node(self.node, Ghost(self.pos@))
    }

    /// Returns the root of the subnode's tree, for changing it in place.
    pub fn node_mut(&mut self) -> (node: &mut Node<T>)
        requires
            old(self).wf(),
        ensures
            node.wf(),
            node@ == old(self).forest@[old(self).pos@],
            *final(final(self).forest) == *final(old(self).forest),
            final(self).node == old(self).node,
            final(self).rest == old(self).rest,
            final(self).pos == old(self).pos,
            final(self).forest@ == old(self).forest@.update(old(self).pos@, final(node)@),
            final(self).forest.ring() == old(self).forest.ring(),
            final(node).wf() ==> final(self).wf(),
    {
        proof {
            self.forest.lemma_ring();
        }
        self.forest.node_mut(self.node, Ghost(self.pos@))
    }

    /// Puts `sib` into the forest, just before the subnode's tree.
    pub fn insert_before(&mut self, sib: Tree<T>)
        requires
            old(self).wf(),
            sib.wf(),
        ensures
            final(self).wf(),
            *final(final(self).forest) == *final(old(self).forest),
            final(self).node == old(self).node,
            final(self).rest == old(self).rest,
            final(self).pos@ == old(self).pos@ + 1,
            final(self).forest@ == old(self).forest@.insert(old(self).pos@, sib@),
    {
        proof {
            self.forest.lemma_ring();
        }
        let ghost ring = self.forest.ring();
        let before = self.forest.prev_room(self.node, Ghost(self.pos@));
        self.forest.link_in(before, false, sib, Ghost(self.pos@));
        proof {
            self.pos = Ghost(self.pos@ + 1);
            let ring2 = self.forest.ring();
            assert forall|i: int| 0 <= i < self.rest@.len() implies ring2[ring2.len() - self.rest@.len() + i] == #[trigger] self.rest@[i] by {
                assert(ring[ring.len() - self.rest@.len() + i] == self.rest@[i]);
            }
        }
    }

    /// Puts `sib` into the forest, just behind the subnode's tree.
    pub fn insert_after(&mut self, sib: Tree<T>)
        requires
            old(self).wf(),
            sib.wf(),
        ensures
            final(self).wf(),
            *final(final(self).forest) == *final(old(self).forest),
            final(self).node == old(self).node,
            final(self).rest == old(self).rest,
            final(self).pos == old(self).pos,
            final(self).forest@ == old(self).forest@.insert(old(self).pos@ + 1, sib@),
    {
        proof {
            self.forest.lemma_ring();
        }
        let ghost ring = self.forest.ring();
        let last = match self.forest.tail() {
            Some(t) => t == self.node,
            None => false,
        };
        self.forest.link_in(self.node, last, sib, Ghost(self.pos@ + 1));
        proof {
            let ring2 = self.forest.ring();
            assert forall|i: int| 0 <= i < self.rest@.len() implies ring2[ring2.len() - self.rest@.len() + i] == #[trigger] self.rest@[i] by {
                assert(ring[ring.len() - self.rest@.len() + i] == self.rest@[i]);
            }
        }
    }

    /// Takes the subnode's tree out of the forest and returns it.
    pub fn depart(self) -> (tree: Tree<T>)
        requires
            self.wf(),
        ensures
            tree.wf(),
            tree@ == old(self.forest)@[self.pos@],
            final(self.forest).wf(),
            final(self.forest)@ == old(self.forest)@.remove(self.pos@),
            ends_with(final(self.forest).ring(), self.rest@),
    {
        proof {
            self.forest.lemma_ring();
        }
        let ghost ring = self.forest.ring();
        let tree = self.forest.unlink(self.node, Ghost(self.pos@));
        proof {
            let ring2 = self.forest.ring();
            assert forall|i: int| 0 <= i < self.rest@.len() implies ring2[ring2.len() - self.rest@.len() + i] == #[trigger] self.rest@[i] by {
                assert(ring[ring.len() - self.rest@.len() + i] == self.rest@[i]);
            }
        }
        tree
    }
}

impl<'a, T> OntoIter<'a, T> {
    /// The rooms yet to visit are the last of the ring; the first of
    /// them is the room to visit next, and the last of them is the room
    /// that was the last of the ring when the iteration began.
    pub open spec fn wf(&self) -> bool {
        let ring = self.forest.ring();
        let rest = self.rest@;
        &&& self.forest.wf()
        &&& ends_with(ring, rest)
        &&& rest.len() > 0 ==> self.next == Some(rest[0]) && self.child == Some(rest[rest.len() - 1])
        &&& rest.len() == 0 ==> self.child is None || self.curr == self.child
        &&& self.curr is Some ==> !rest.contains(self.curr.unwrap())
    }

    /// Makes an iterator over the trees of `forest`.
    pub(crate) fn new(forest: &'a mut Forest<T>) -> (iter: Self)
        requires
            old(forest).wf(),
        ensures
            iter.wf(),
            *iter.forest == *old(forest),
            *final(iter.forest) == *final(forest),
            iter.rest@ == old(forest).ring(),
    {
        let next = forest.head();
        let child = forest.tail();
        let ghost rest = forest.ring();
        OntoIter { forest, next, curr: None, child, rest: Ghost(rest) }
    }

    /// Steps to the next of the trees that stood in the forest when the
    /// iterator was made, and returns a subnode for it, or returns `None`
    /// when all of them have been visited.
    pub fn next<'b>(&'b mut self) -> (sub: Option<Subnode<'b, T>>)
        requires
            old(self).wf(),
        ensures
            *final(final(self).forest) == *final(old(self).forest),
            old(self).rest@.len() == 0 ==> sub is None && final(self).wf() && *final(self).forest == *old(self).forest
                && final(self).rest@ == old(self).rest@,
            old(self).rest@.len() > 0 ==> sub is Some && sub.unwrap().wf()
                && *sub.unwrap().forest == *old(self).forest
                && sub.unwrap().node == old(self).rest@[0]
                && sub.unwrap().pos@ == old(self).forest@.len() - old(self).rest@.len()
                && sub.unwrap().rest@ == old(self).rest@.drop_first()
                && final(self).rest@ == old(self).rest@.drop_first()
                && *final(self).forest == *final(sub.unwrap().forest)
                && (final(sub.unwrap().forest).wf() && ends_with(final(sub.unwrap().forest).ring(), final(self).rest@)
                    ==> final(self).wf()),
    {
        proof {
            self.forest.lemma_ring();
        }
        let done = match self.child {
            None => true,
            Some(c) => match self.curr {
                Some(k) => k == c,
                None => false,
            },
        };
        if done {
            proof {
                if self.rest@.len() > 0 {
                    assert(self.rest@[self.rest@.len() - 1] == self.child.unwrap());
                }
            }
            return None;
        }
        let curr = self.next.unwrap();
        let ghost ring = self.forest.ring();
        let ghost rest = self.rest@;
        let ghost pos = ring.len() - rest.len();
        proof {
            assert(ring[pos + 0] == rest[0]);
        }
        self.next = Some(self.forest.next_room(curr, Ghost(pos)));
        self.curr = Some(curr);
        proof {
            self.rest = Ghost(rest.drop_first());
            let rest2 = rest.drop_first();
            assert forall|i: int| 0 <= i < rest2.len() implies #[trigger] rest2[i] != curr by {
                assert(ring[pos + (i + 1)] == rest[i + 1]);
                assert(rest2[i] == rest[i + 1]);
            }
            if rest2.len() > 0 {
                assert(ring[pos + 1] == rest[1]);
                assert(rest2[0] == rest[1]);
                assert(rest2[rest2.len() - 1] == rest[rest.len() - 1]);
            } else {
                assert(rest[rest.len() - 1] == curr);
            }
            assert forall|i: int| 0 <= i < rest2.len() implies ring[ring.len() - rest2.len() + i] == #[trigger] rest2[i] by {
                assert(ring[pos + (i + 1)] == rest[i + 1]);
            }
        }
        Some(Subnode { forest: &mut *self.forest, node: curr, pos: Ghost(pos), rest: Ghost(rest.drop_first()) })
    }
}

} // verus!
