//! Depth first search on `Tree`/`Node` or `Forest`.

use vstd::prelude::*;
use crate::linked::fully::forest::Forest;
use crate::linked::fully::node::Node;
use crate::linked::fully::walk::{Visit, VisitType};
use crate::shape::{events, events_of, Event, Shape};

verus! {

/// Whether `visit` is the step `event` of a traversal: of the same kind,
/// at a node with the same tree below it.
pub open spec fn shows<'a, T>(visit: Visit<'a, T>, event: Event<T>) -> bool {
    &&& visit.spec_node().wf()
    &&& match event {
        Event::Begin(tree) => visit.kind() == VisitType::Begin && visit.spec_node()@ == tree,
        Event::End(tree) => visit.kind() == VisitType::End && visit.spec_node()@ == tree,
        Event::Leaf(tree) => visit.kind() == VisitType::Leaf && visit.spec_node()@ == tree,
    }
}

/// One level of the path of a walk: the ring of siblings at that level,
/// the room of the sibling under visit, and the last room of the ring.
/// Before the first sibling is visited, the room under visit is the
/// last room, from which the next step leads to the first.
pub struct Nodes<'a, T> {
    forest: &'a Forest<T>,
    curr: usize,
    tail: usize,
    pos: Ghost<int>,
}

impl<'a, T> Nodes<'a, T> {
    /// The room under visit is a room of the ring, or the last room before
    /// the first visit.
    pub closed spec fn wf(&self) -> bool {
        let ring = self.forest.ring();
        &&& self.forest.wf()
        &&& ring.len() > 0
        &&& -1 <= self.pos@ < ring.len()
        &&& self.tail == ring[ring.len() - 1]
        &&& self.curr == (if self.pos@ == -1 { self.tail } else { ring[self.pos@] })
    }

    /// The trees of the siblings at this level.
    pub closed spec fn sibs(&self) -> Seq<Shape<T>> {
        self.forest@
    }

    /// The position of the sibling under visit, or -1 before the first
    /// is visited.
    pub closed spec fn at(&self) -> int {
        self.pos@
    }

    /// Makes the level of the trees of `forest`, which is not empty.
    fn new(forest: &'a Forest<T>) -> (nodes: Self)
        requires
            forest.wf(),
            forest@.len() > 0,
        ensures
            nodes.wf(),
            nodes.sibs() == forest@,
            nodes.at() == -1,
    {
        proof {
            forest.lemma_ring();
        }
        let tail = forest.tail().unwrap();
        Nodes { forest, curr: tail, tail, pos: Ghost(-1) }
    }
}

/// The steps that are left when the levels `levels` of siblings, each
/// with the position under visit, lie on the path: what is left of the
/// lowest level, then the end of the visit of the node above it and what
/// is left of that level, and so on.
pub open spec fn rest<T>(levels: Seq<(Seq<Shape<T>>, int)>) -> Seq<Event<T>>
    decreases levels.len(),
{
    if levels.len() == 0 {
        Seq::empty()
    } else {
        let (sibs, at) = levels.last();
        let above = levels.drop_last();
        events_of(sibs.skip(at + 1)) + (if above.len() == 0 {
            Seq::empty()
        } else {
            seq![Event::End(above.last().0[above.last().1])] + rest(above)
        })
    }
}

/// Where the lowest level has a sibling to come, the steps of that
/// sibling's traversal are left first, and then what is left when it is
/// the sibling under visit.
pub proof fn lemma_rest_step<T>(levels: Seq<(Seq<Shape<T>>, int)>)
    requires
        levels.len() > 0,
        -1 <= levels.last().1,
        levels.last().1 + 1 < levels.last().0.len(),
    ensures
        rest(levels) == events(levels.last().0[levels.last().1 + 1]) + rest(
            levels.drop_last().push((levels.last().0, levels.last().1 + 1)),
        ),
{
    let (sibs, at) = levels.last();
    let next = levels.drop_last().push((sibs, at + 1));
    assert(next.drop_last() =~= levels.drop_last());
    assert(sibs.skip(at + 1).drop_first() =~= sibs.skip(at + 2));
    assert(sibs.skip(at + 1)[0] == sibs[at + 1]);
    let above = levels.drop_last();
    let tail = if above.len() == 0 {
        Seq::<Event<T>>::empty()
    } else {
        seq![Event::End(above.last().0[above.last().1])] + rest(above)
    };
    assert(rest(levels) == events_of(sibs.skip(at + 1)) + tail);
    assert(rest(next) == events_of(sibs.skip(at + 2)) + tail);
    assert(events_of(sibs.skip(at + 1)) == events(sibs[at + 1]) + events_of(sibs.skip(at + 2)));
    assert(rest(levels) =~= events(sibs[at + 1]) + rest(next));
}

/// With the children of the node under visit as a new lowest level, the
/// steps of their traversals are left first, then the end of the visit
/// of the node, and then what was left before.
pub proof fn lemma_rest_push<T>(levels: Seq<(Seq<Shape<T>>, int)>, children: Seq<Shape<T>>)
    requires
        levels.len() > 0,
    ensures
        rest(levels.push((children, -1))) == events_of(children) + seq![Event::End(levels.last().0[levels.last().1])] + rest(
            levels,
        ),
{
    let lower = levels.push((children, -1int));
    assert(lower.drop_last() =~= levels);
    assert(children.skip(0) =~= children);
    assert(rest(lower) =~= events_of(children) + (seq![Event::End(levels.last().0[levels.last().1])] + rest(levels)));
}

/// Where no sibling of the lowest level is to come, the end of the visit
/// of the node above is left first, if there is a level above.
pub proof fn lemma_rest_pop<T>(levels: Seq<(Seq<Shape<T>>, int)>)
    requires
        levels.len() > 0,
        levels.last().1 + 1 == levels.last().0.len(),
    ensures
        levels.len() == 1 ==> rest(levels) == Seq::<Event<T>>::empty(),
        levels.len() > 1 ==> rest(levels) == seq![Event::End(levels.drop_last().last().0[levels.drop_last().last().1])] + rest(
            levels.drop_last(),
        ),
{
    let (sibs, at) = levels.last();
    assert(sibs.skip(at + 1) =~= Seq::<Shape<T>>::empty());
    assert(events_of(sibs.skip(at + 1)) =~= Seq::<Event<T>>::empty());
    let above = levels.drop_last();
    if above.len() == 0 {
        assert(rest(levels) =~= Seq::<Event<T>>::empty());
    } else {
        assert(rest(levels) =~= seq![Event::End(above.last().0[above.last().1])] + rest(above));
    }
}

/// Depth first search on the subtree of a node, as an iterator over the
/// visits.
pub struct Walk<'a, T> {
    node: &'a Node<T>,
    alive: bool,
    fresh: bool,
    path: Vec<Nodes<'a, T>>,
    forward: bool,
}

impl<'a, T> Walk<'a, T> {
    /// The levels on the path, from the node under walk down to the
    /// siblings under visit.
    pub closed spec fn levels(&self) -> Seq<(Seq<Shape<T>>, int)> {
        if self.alive {
            seq![(seq![self.node@], if self.fresh { -1int } else { 0int })] + Seq::new(
                self.path@.len(),
                |j: int| (self.path@[j].sibs(), self.path@[j].at()),
            )
        } else {
            Seq::empty()
        }
    }

    /// The steps that are left of the traversal.
    pub open spec fn view(&self) -> Seq<Event<T>> {
        rest(self.levels())
    }

    /// Every level of the path is well formed, every level but the lowest
    /// has a sibling under visit, and the walk goes forward if and only
    /// if the lowest level has a sibling to come.
    pub closed spec fn wf(&self) -> bool {
        let levels = self.levels();
        &&& self.node.wf()
        &&& !self.alive ==> self.path@.len() == 0 && !self.forward
        &&& forall|j: int| 0 <= j < self.path@.len() ==> (#[trigger] self.path@[j]).wf()
        &&& forall|j: int| 0 <= j < levels.len() - 1 ==> 0 <= (#[trigger] levels[j]).1 < levels[j].0.len()
        &&& self.alive ==> (self.forward <==> levels.last().1 + 1 < levels.last().0.len())
        &&& self.alive ==> -1 <= levels.last().1 < levels.last().0.len()
    }

    /// Makes a walk on the subtree of `node`.
    pub fn new(node: &'a Node<T>) -> (walk: Self)
        requires
            node.wf(),
        ensures
            walk.wf(),
            walk@ == events(node@),
    {
        let walk = Walk { node, alive: true, fresh: true, path: Vec::new(), forward: true };
        proof {
            let levels = walk.levels();
            assert(levels =~= seq![(seq![node@], -1int)]);
            assert(levels.drop_last() =~= Seq::empty());
            assert(seq![node@].skip(0) =~= seq![node@]);
            assert(seq![node@].drop_first() =~= Seq::<Shape<T>>::empty());
            assert(events_of(seq![node@]) =~= events(node@) + events_of(seq![node@].drop_first()));
            assert(rest(levels) =~= events(node@));
        }
        walk
    }

    /// Starts the walk anew, on the subtree of `node`.
    pub fn on(&mut self, node: &'a Node<T>)
        requires
            node.wf(),
        ensures
            final(self).wf(),
            final(self)@ == events(node@),
    {
        *self = Walk::new(node);
    }

    /// Steps down to the children of `node`, which has some.
    fn enter(&mut self, node: &'a Node<T>)
        requires
            old(self).alive,
            old(self).node.wf(),
            node.wf(),
            node@.children.len() > 0,
            forall|j: int| 0 <= j < old(self).path@.len() ==> (#[trigger] old(self).path@[j]).wf(),
        ensures
            final(self).alive,
            final(self).node.wf(),
            final(self).forward == old(self).forward,
            forall|j: int| 0 <= j < final(self).path@.len() ==> (#[trigger] final(self).path@[j]).wf(),
            final(self).levels() == old(self).levels().push((node@.children, -1int)),
    {
        let lower = Nodes::new(node.forest());
        self.path.push(lower);
        proof {
            assert(self.levels() =~= old(self).levels().push((node@.children, -1int)));
        }
    }

    /// What holds of a walk but for how its direction suits its place.
    pub closed spec fn sane(&self) -> bool {
        let levels = self.levels();
        &&& self.node.wf()
        &&& self.alive
        &&& forall|j: int| 0 <= j < self.path@.len() ==> (#[trigger] self.path@[j]).wf()
        &&& forall|j: int| 0 <= j < levels.len() - 1 ==> 0 <= (#[trigger] levels[j]).1 < levels[j].0.len()
        &&& -1 <= levels.last().1 < levels.last().0.len()
    }

    /// Steps to the next sibling at the lowest level, and returns its
    /// node and whether it is the last sibling.
    fn advance(&mut self) -> (found: (&'a Node<T>, bool))
        requires
            old(self).wf(),
            old(self).forward,
        ensures
            final(self).sane(),
            final(self).forward,
            found.0.wf(),
            found.0@ == old(self).levels().last().0[old(self).levels().last().1 + 1],
            final(self).levels() == old(self).levels().drop_last().push(
                (old(self).levels().last().0, old(self).levels().last().1 + 1),
            ),
            found.1 == (final(self).levels().last().1 + 1 == final(self).levels().last().0.len()),
    {
        let ghost before = self.levels();
        let n = self.path.len();
        if n == 0 {
            let node = self.node;
            self.fresh = false;
            proof {
                assert(before =~= seq![(seq![node@], -1int)]);
                assert(self.levels() =~= seq![(seq![node@], 0int)]);
                assert(self.levels() =~= before.drop_last().push((before.last().0, before.last().1 + 1)));
            }
            (node, true)
        } else {
            let forest: &'a Forest<T> = self.path[n - 1].forest;
            let curr = self.path[n - 1].curr;
            let tail = self.path[n - 1].tail;
            let ghost pos = self.path@[n - 1].pos@;
            proof {
                assert(self.path@[n - 1].wf());
                assert(before.last() == (self.path@[n - 1].sibs(), pos));
                forest.lemma_ring();
            }
            let room = forest.next_room(curr, Ghost(if pos == -1 { forest.ring().len() - 1 } else { pos }));
            let node = forest.node(room, Ghost(pos + 1));
            self.path.set(n - 1, Nodes { forest, curr: room, tail, pos: Ghost(pos + 1) });
            proof {
                assert(self.path@[n - 1].wf());
                let mid = self.levels();
                assert(mid =~= before.drop_last().push((before.last().0, before.last().1 + 1)));
                assert forall|j: int| 0 <= j < self.path@.len() implies (#[trigger] self.path@[j]).wf() by {
                    if j < n - 1 {
                        assert(self.path@[j] == old(self).path@[j]);
                    }
                }
                assert forall|j: int| 0 <= j < mid.len() - 1 implies 0 <= (#[trigger] mid[j]).1 < mid[j].0.len() by {
                    assert(mid[j] == before[j]);
                }
            }
            (node, room == tail)
        }
    }

    /// Steps back to the level above the lowest, and returns the end of
    /// the visit of the node under visit there, or `None` where there is
    /// no level above.
    fn retreat(&mut self) -> (visit: Option<Visit<'a, T>>)
        requires
            old(self).wf(),
            old(self).alive,
            !old(self).forward,
        ensures
            final(self).wf(),
            final(self).levels() == old(self).levels().drop_last(),
            old(self).levels().len() == 1 ==> visit is None,
            old(self).levels().len() > 1 ==> visit is Some && shows(
                visit.unwrap(),
                Event::End(final(self).levels().last().0[final(self).levels().last().1]),
            ),
    {
        let ghost before = self.levels();
        let n = self.path.len();
        if n == 0 {
            self.alive = false;
            proof {
                assert(before =~= seq![(seq![self.node@], 0int)]);
                assert(self.levels() =~= before.drop_last());
            }
            None
        } else {
            self.path.pop();
            let ghost above = self.levels();
            proof {
                assert(above =~= before.drop_last());
                assert forall|j: int| 0 <= j < above.len() - 1 implies 0 <= (#[trigger] above[j]).1 < above[j].0.len() by {
                    assert(above[j] == before[j]);
                }
                assert(above.last() == before[before.len() - 2]);
            }
            if n == 1 {
                proof {
                    assert(above =~= seq![(seq![self.node@], 0int)]);
                }
                Some(Visit::End(self.node))
            } else {
                let forest: &'a Forest<T> = self.path[n - 2].forest;
                let curr = self.path[n - 2].curr;
                proof {
                    assert(self.path@[n - 2].wf());
                    assert(above.last() == (self.path@[n - 2].sibs(), self.path@[n - 2].pos@));
                    forest.lemma_ring();
                }
                if curr != self.path[n - 2].tail {
                    self.forward = true;
                }
                proof {
                    assert(self.levels() =~= above);
                }
                Some(Visit::End(forest.node(curr, Ghost(self.path@[n - 2].pos@))))
            }
        }
    }

    /// Returns the next visit of the traversal and steps behind it, or
    /// returns `None` when the traversal is over.
    pub fn next(&mut self) -> (visit: Option<Visit<'a, T>>)
        requires
            old(self).wf(),
        ensures
            final(self).wf(),
            old(self)@.len() == 0 ==> visit is None && final(self)@ == old(self)@,
            old(self)@.len() > 0 ==> visit is Some && shows(visit.unwrap(), old(self)@[0]) && final(self)@ == old(self)@.drop_first(),
    {
        let ghost before = self.levels();
        if self.forward {
            proof {
                lemma_rest_step(before);
            }
            let (node, last) = self.advance();
            let ghost mid = self.levels();
            if node.is_leaf() {
                if last {
                    self.forward = false;
                }
                proof {
                    assert(self.levels() =~= mid);
                    assert(events(node@) =~= seq![Event::Leaf(node@)]);
                    assert(old(self)@ =~= seq![Event::Leaf(node@)] + rest(mid));
                    assert(old(self)@.drop_first() =~= rest(mid));
                }
                Some(Visit::Leaf(node))
            } else {
                self.enter(node);
                proof {
                    let low = self.levels();
                    lemma_rest_push(mid, node@.children);
                    assert(events(node@) =~= seq![Event::Begin(node@)] + events_of(node@.children) + seq![Event::End(node@)]);
                    assert(old(self)@ =~= seq![Event::Begin(node@)] + (events_of(node@.children) + seq![Event::End(node@)] + rest(mid)));
                    assert(old(self)@.drop_first() =~= rest(low));
                    assert forall|j: int| 0 <= j < low.len() - 1 implies 0 <= (#[trigger] low[j]).1 < low[j].0.len() by {
                        if j < mid.len() - 1 {
                            assert(low[j] == mid[j]);
                        } else {
                            assert(low[j] == mid.last());
                        }
                    }
                }
                Some(Visit::Begin(node))
            }
        } else if !self.alive {
            proof {
                assert(before =~= Seq::empty());
            }
            None
        } else {
            proof {
                lemma_rest_pop(before);
            }
            self.retreat()
        }
    }
}

} // verus!
