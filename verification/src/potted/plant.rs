//! Planting trees into a pot from the visits of a breadth first search.

use vstd::prelude::*;
use super::pot::Pot;
use crate::bfs::{Bfs, Moved};
use crate::shape::{count_nodes, kids_of, lemma_count_step, lemma_kids_concat, Shape};

verus! {

/// The children of no trees are none, and where the children of some
/// trees are none, the first of them has none.
proof fn lemma_kids_first<T>(trees: Seq<Shape<T>>)
    requires
        trees.len() > 0,
    ensures
        kids_of(trees) == trees[0].children + kids_of(trees.drop_first()),
{
}

/// Trees whose children together are none have no children.
proof fn lemma_kids_none<T>(trees: Seq<Shape<T>>, i: int)
    requires
        kids_of(trees).len() == 0,
        0 <= i < trees.len(),
    ensures
        trees[i].children.len() == 0,
    decreases trees.len(),
{
    if i > 0 {
        lemma_kids_none(trees.drop_first(), i - 1);
    }
}

/// What is known of the nodes that were planted: node `n0 + i` holds
/// the data of `trees[i]`, and its children are planted behind it, each
/// for the child of `trees[i]` at its place.
pub open spec fn planted<T>(pot: &Pot<T>, n0: usize, trees: Seq<Shape<T>>, i: int) -> bool {
    let x = (n0 + i) as usize;
    let ks = pot.children(x);
    &&& pot.datum(x) == Some(trees[i].data)
    &&& ks.len() <= trees[i].children.len()
    &&& forall|r: int|
        0 <= r < ks.len() ==> n0 + i < #[trigger] ks[r] < n0 + trees.len() && trees[ks[r] - n0] == trees[i].children[r]
}

/// How many children the planted node `n0 + i` has got: all that
/// `trees[i]` has if its turn to get children is over, `got` if it is
/// its turn, and none before its turn.
pub open spec fn grown<T>(pot: &Pot<T>, n0: usize, trees: Seq<Shape<T>>, cur: int, got: int, i: int) -> bool {
    pot.children((n0 + i) as usize).len() == (if i < cur {
        trees[i].children.len() as int
    } else if i == cur {
        got
    } else {
        0
    })
}

/// Where every planted node has all its children, the tree below each
/// is the tree it was planted for.
proof fn lemma_built<T>(pot: &Pot<T>, n0: usize, trees: Seq<Shape<T>>, i: int)
    requires
        pot.wf(),
        n0 >= 1,
        pot.spec_len() == n0 + trees.len(),
        n0 + trees.len() <= u32::MAX,
        0 <= i < trees.len(),
        forall|j: int| 0 <= j < trees.len() ==> #[trigger] planted(pot, n0, trees, j),
        forall|j: int| 0 <= j < trees.len() ==> pot.children((n0 + j) as usize).len() == (#[trigger] trees[j]).children.len(),
    ensures
        pot.shape((n0 + i) as usize) == trees[i],
    decreases trees.len() - i,
{
    let x = (n0 + i) as usize;
    pot.lemma_shape(x);
    assert(planted(pot, n0, trees, i));
    let ks = pot.children(x);
    assert forall|r: int| 0 <= r < ks.len() implies #[trigger] pot.shapes(ks)[r] == trees[i].children[r] by {
        let k = ks[r];
        lemma_built(pot, n0, trees, k - n0);
    }
    assert(pot.children(x).len() == trees[i].children.len());
    assert(pot.shapes(ks) =~= trees[i].children);
}

impl<T> Pot<T> {
    /// Plants the trees that `bfs` visits behind the children of the
    /// node at `index`. The new nodes stand at the end of the pot, in the
    /// order of the visits.
    pub fn append_bfs(&mut self, index: usize, bfs: Bfs<Moved<T>>)
        requires
            old(self).wf(),
            old(self).has(index),
            bfs.spec_iter().wf(),
            bfs.spec_size().degree == bfs.spec_iter()@.len(),
            old(self).spec_len() + count_nodes(bfs.spec_iter()@) <= u32::MAX,
        ensures
            final(self).wf(),
            final(self).spec_len() == old(self).spec_len() + count_nodes(bfs.spec_iter()@),
            final(self).children(index).len() == old(self).children(index).len() + bfs.spec_iter()@.len(),
            final(self).children(index).take(old(self).children(index).len() as int) == old(self).children(index),
            final(self).shapes(final(self).children(index).skip(old(self).children(index).len() as int)) == bfs.spec_iter()@,
            forall|i: usize| old(self).has(i) && i != index ==> #[trigger] final(self).children(i) == old(self).children(i),
            forall|i: usize| old(self).has(i) ==> #[trigger] final(self).datum(i) == old(self).datum(i),
            forall|i: usize| old(self).has(i) ==> #[trigger] final(self).parent_of(i) == old(self).parent_of(i),
            forall|i: usize| old(self).has(i) ==> #[trigger] final(self).level(i) == old(self).level(i),
    {
        let (iter, size) = bfs.iter_and_size();
        let mut iter = iter;
        let n0 = self.len();
        let ghost forest = iter@;
        let ghost old_kids = self.children(index);
        let mut expect: Vec<u32> = Vec::new();
        let mut parent = index;
        let mut remains: u32 = size.degree;
        let ghost mut trees: Seq<Shape<T>> = Seq::empty();
        let ghost mut cur: int = -1;
        let ghost mut got: int = 0;
        proof {
            assert(forest.skip(0) =~= forest);
            assert(trees.skip(0) =~= trees);
            assert(forest + kids_of(trees.skip(0)) =~= forest);
            assert(self.children(index).take(old_kids.len() as int) =~= old_kids);
        }
        loop
            invariant
                self.wf(),
                iter.wf(),
                old(self).wf(),
                old(self).has(index),
                n0 == old(self).spec_len(),
                n0 >= 1,
                forest == bfs.spec_iter()@,
                old_kids == old(self).children(index),
                self.spec_len() == n0 + trees.len(),
                self.spec_len() + count_nodes(iter@) == n0 + count_nodes(forest),
                n0 + count_nodes(forest) <= u32::MAX,
                n0 + trees.len() <= u32::MAX,
                expect@.len() == trees.len(),
                forall|i: int| 0 <= i < trees.len() ==> (#[trigger] expect@[i]) == trees[i].children.len(),
                -1 <= cur < trees.len(),
                cur == -1 ==> parent == index && 0 <= got <= forest.len(),
                cur >= 0 ==> parent == n0 + cur && 0 <= got <= trees[cur].children.len(),
                iter@ == (if cur == -1 { forest.skip(got) } else { trees[cur].children.skip(got) }) + kids_of(trees.skip(cur + 1)),
                remains == (if cur == -1 { forest.len() - got } else { trees[cur].children.len() - got }),
                forall|i: int| 0 <= i < trees.len() ==> #[trigger] planted(self, n0, trees, i),
                forall|i: int| 0 <= i < trees.len() ==> #[trigger] grown(self, n0, trees, cur, got, i),
                self.children(index).len() == old_kids.len() + (if cur == -1 { got } else { forest.len() as int }),
                self.children(index).take(old_kids.len() as int) == old_kids,
                forall|r: int| old_kids.len() <= r < self.children(index).len() ==> n0 <= #[trigger] self.children(index)[r] < n0 + trees.len()
                    && trees[self.children(index)[r] - n0] == forest[r - old_kids.len()],
                forall|i: usize| old(self).has(i) && i != index ==> #[trigger] self.children(i) == old(self).children(i),
                forall|i: usize| old(self).has(i) ==> #[trigger] self.datum(i) == old(self).datum(i),
                forall|i: usize| old(self).has(i) ==> #[trigger] self.parent_of(i) == old(self).parent_of(i),
                forall|i: usize| old(self).has(i) ==> #[trigger] self.level(i) == old(self).level(i),
            decreases count_nodes(iter@),
        {
            let ghost queue = iter@;
            match iter.next() {
                None => {
                    proof {
                        let m = old_kids.len() as int;
                        let j = trees.len() as int;
                        let later = trees.skip(cur + 1);
                        assert(kids_of(later).len() == 0);
                        assert forall|i: int| 0 <= i < j implies self.children((n0 + i) as usize).len() == (#[trigger] trees[i]).children.len() by {
                            assert(grown(self, n0, trees, cur, got, i));
                            if i > cur {
                                lemma_kids_none(later, i - (cur + 1));
                                assert(later[i - (cur + 1)] == trees[i]);
                            }
                        }
                        let fresh = self.children(index).skip(m);
                        assert forall|r: int| 0 <= r < fresh.len() implies #[trigger] self.shapes(fresh)[r] == forest[r] by {
                            let k = self.children(index)[m + r];
                            assert(fresh[r] == k);
                            lemma_built(self, n0, trees, k - n0);
                        }
                        assert(self.shapes(fresh) =~= forest);
                    }
                    return ;
                },
                Some(visit) => {
                    let ghost tree = queue[0];
                    proof {
                        lemma_count_step(queue);
                    }
                    while remains == 0
                        invariant
                            self.wf(),
                            old(self).has(index),
                            n0 == old(self).spec_len(),
                            self.spec_len() == n0 + trees.len(),
                            expect@.len() == trees.len(),
                            forall|i: int| 0 <= i < trees.len() ==> (#[trigger] expect@[i]) == trees[i].children.len(),
                            -1 <= cur < trees.len(),
                            cur == -1 ==> parent == index && 0 <= got <= forest.len(),
                            cur >= 0 ==> parent == n0 + cur && 0 <= got <= trees[cur].children.len(),
                            queue.len() > 0,
                            queue == (if cur == -1 { forest.skip(got) } else { trees[cur].children.skip(got) }) + kids_of(
                                trees.skip(cur + 1),
                            ),
                            remains == (if cur == -1 { forest.len() - got } else { trees[cur].children.len() - got }),
                            forall|i: int| 0 <= i < trees.len() ==> #[trigger] grown(self, n0, trees, cur, got, i),
                            n0 + trees.len() <= u32::MAX,
                            self.children(index).len() == old_kids.len() + (if cur == -1 { got } else { forest.len() as int }),
                        decreases trees.len() - cur,
                    {
                        let ghost cur0 = cur;
                        let ghost got0 = got;
                        proof {
                            let later = trees.skip(cur + 1);
                            assert(queue =~= kids_of(later));
                            assert(later.len() > 0);
                            lemma_kids_first(later);
                            assert(later.drop_first() =~= trees.skip(cur + 2));
                            assert(later[0] == trees[cur + 1]);
                            assert(trees[cur + 1].children.skip(0) =~= trees[cur + 1].children);
                        }
                        if parent == index {
                            parent = n0;
                        } else {
                            parent = parent + 1;
                        }
                        proof {
                            cur = cur + 1;
                            got = 0;
                            assert forall|i: int| 0 <= i < trees.len() implies #[trigger] grown(self, n0, trees, cur, got, i) by {
                                assert(grown(self, n0, trees, cur0, got0, i));
                            }
                        }
                        remains = expect[parent - n0];
                    }
                    proof {
                        let rem = if cur == -1 { forest.skip(got) } else { trees[cur].children.skip(got) };
                        assert(rem.len() > 0);
                        assert(queue[0] == rem[0]);
                        if cur >= 0 {
                            assert(planted(self, n0, trees, cur));
                        }
                    }
                    let ghost before = *self;
                    let child = self.append(parent, visit.data);
                    expect.push(visit.size.degree);
                    remains = remains - 1;
                    proof {
                        let j = trees.len() as int;
                        let trees2 = trees.push(tree);
                        let rem = if cur == -1 { forest.skip(got) } else { trees[cur].children.skip(got) };
                        let rem2 = if cur == -1 { forest.skip(got + 1) } else { trees[cur].children.skip(got + 1) };
                        assert(rem.drop_first() =~= rem2);
                        lemma_kids_concat(trees.skip(cur + 1), seq![tree]);
                        assert(trees2.skip(cur + 1) =~= trees.skip(cur + 1) + seq![tree]);
                        assert(seq![tree].drop_first() =~= Seq::<Shape<T>>::empty());
                        assert(kids_of(seq![tree]) =~= tree.children + kids_of(seq![tree].drop_first()));
                        assert(kids_of(seq![tree]) =~= tree.children);
                        assert(iter@ =~= rem2 + kids_of(trees2.skip(cur + 1)));
                        assert(child == n0 + j);
                        assert(visit.shows(tree));
                        assert(tree == rem[0]);
                        assert forall|i: int| 0 <= i < trees2.len() implies #[trigger] planted(self, n0, trees2, i) by {
                            let x = (n0 + i) as usize;
                            let ks = self.children(x);
                            if i < j {
                                assert(planted(&before, n0, trees, i));
                                assert(grown(&before, n0, trees, cur, got, i));
                                assert(before.has(x));
                                assert(trees2[i] == trees[i]);
                                if i == cur {
                                    assert(ks =~= before.children(x).push(child));
                                    assert(ks.len() == got + 1);
                                    assert forall|r: int| 0 <= r < ks.len() implies n0 + i < #[trigger] ks[r] < n0 + trees2.len()
                                        && trees2[ks[r] - n0] == trees2[i].children[r] by {
                                        if r < got {
                                            assert(ks[r] == before.children(x)[r]);
                                            assert(trees2[ks[r] - n0] == trees[ks[r] - n0]);
                                        } else {
                                            assert(ks[r] == child);
                                            assert(trees2[j] == tree);
                                            assert(trees[cur].children.skip(got)[0] == trees[cur].children[got]);
                                        }
                                    }
                                } else {
                                    assert(ks == before.children(x));
                                    assert forall|r: int| 0 <= r < ks.len() implies n0 + i < #[trigger] ks[r] < n0 + trees2.len()
                                        && trees2[ks[r] - n0] == trees2[i].children[r] by {
                                        assert(trees2[ks[r] - n0] == trees[ks[r] - n0]);
                                    }
                                }
                            } else {
                                assert(x == child);
                                assert(trees2[i] == tree);
                            }
                        }
                        if cur == -1 {
                            assert(forest.skip(got)[0] == forest[got]);
                        }
                        assert forall|i: int| 0 <= i < trees2.len() implies #[trigger] grown(self, n0, trees2, cur, got + 1, i) by {
                            let x = (n0 + i) as usize;
                            if i < j {
                                assert(before.has(x));
                                assert(grown(&before, n0, trees, cur, got, i));
                            }
                        }
                        assert(before.has(index));
                        if cur == -1 {
                            assert(self.children(index) =~= before.children(index).push(child));
                        } else {
                            assert(self.children(index) == before.children(index));
                        }
                        assert(self.children(index).take(old_kids.len() as int) =~= old_kids) by {
                            assert(before.children(index).take(old_kids.len() as int) == old_kids);
                        }
                        assert forall|i: usize| old(self).has(i) && i != index implies #[trigger] self.children(i) == old(self).children(i) by {
                            assert(before.has(i));
                            assert(before.children(i) == old(self).children(i));
                        }
                        assert forall|i: usize| old(self).has(i) implies #[trigger] self.datum(i) == old(self).datum(i) by {
                            assert(before.has(i));
                            assert(before.datum(i) == old(self).datum(i));
                        }
                        assert forall|i: usize| old(self).has(i) implies #[trigger] self.parent_of(i) == old(self).parent_of(i) by {
                            assert(before.has(i));
                            assert(before.parent_of(i) == old(self).parent_of(i));
                        }
                        assert forall|i: usize| old(self).has(i) implies #[trigger] self.level(i) == old(self).level(i) by {
                            assert(before.has(i));
                            assert(before.level(i) == old(self).level(i));
                        }
                        trees = trees2;
                        got = got + 1;
                    }
                },
            }
        }
    }

    /// Plants the trees that `bfs` visits in front of the children of the
    /// node at `index`. The new nodes stand at the end of the pot, in the
    /// order of the visits.
    pub fn prepend_bfs(&mut self, index: usize, bfs: Bfs<Moved<T>>)
        requires
            old(self).wf(),
            old(self).has(index),
            bfs.spec_iter().wf(),
            bfs.spec_size().degree == bfs.spec_iter()@.len(),
            old(self).spec_len() + count_nodes(bfs.spec_iter()@) <= u32::MAX,
        ensures
            final(self).wf(),
            final(self).spec_len() == old(self).spec_len() + count_nodes(bfs.spec_iter()@),
            final(self).children(index).len() == old(self).children(index).len() + bfs.spec_iter()@.len(),
            final(self).children(index).skip(bfs.spec_iter()@.len() as int) == old(self).children(index),
            final(self).shapes(final(self).children(index).take(bfs.spec_iter()@.len() as int)) == bfs.spec_iter()@,
            forall|i: usize| old(self).has(i) && i != index ==> #[trigger] final(self).children(i) == old(self).children(i),
            forall|i: usize| old(self).has(i) ==> #[trigger] final(self).datum(i) == old(self).datum(i),
            forall|i: usize| old(self).has(i) ==> #[trigger] final(self).parent_of(i) == old(self).parent_of(i),
            forall|i: usize| old(self).has(i) ==> #[trigger] final(self).level(i) == old(self).level(i),
    {
        let ghost ks = self.children(index);
        let ghost forest = bfs.spec_iter()@;
        let m = self.degree(index);
        let tail = self.tail(index);
        self.append_bfs(index, bfs);
        let ghost grown = *self;
        if tail != 0 {
            proof {
                assert(self.children(index).take(m as int)[m - 1] == tail);
            }
            self.turn(index, tail, Ghost(m - 1));
        }
        proof {
            let all = grown.children(index);
            let ks2 = self.children(index);
            let k = forest.len() as int;
            if tail != 0 {
                assert(ks2 =~= all.skip(m as int) + all.take(m as int));
            } else {
                assert(ks2 =~= all);
                assert(all.skip(0) =~= all);
            }
            assert(ks2.skip(k) =~= ks);
            assert(ks2.take(k) =~= all.skip(m as int));
            grown.lemma_sizes(index);
            let fresh = ks2.take(k);
            assert forall|r: int| 0 <= r < fresh.len() implies #[trigger] self.shapes(fresh)[r] == forest[r] by {
                let c = fresh[r];
                assert(c == all[r + m]);
                grown.lemma_same_below(self, c, index);
                assert(grown.shapes(all.skip(m as int))[r] == forest[r]);
            }
            assert(self.shapes(fresh) =~= forest);
            assert forall|i: usize| old(self).has(i) && i != index implies #[trigger] self.children(i) == old(self).children(i) by {
                assert(grown.has(i));
                assert(grown.children(i) == old(self).children(i));
            }
            assert forall|i: usize| old(self).has(i) implies #[trigger] self.datum(i) == old(self).datum(i) by {
                assert(grown.has(i));
                assert(grown.datum(i) == old(self).datum(i));
            }
            assert forall|i: usize| old(self).has(i) implies #[trigger] self.parent_of(i) == old(self).parent_of(i) by {
                assert(grown.has(i));
                assert(grown.parent_of(i) == old(self).parent_of(i));
            }
            assert forall|i: usize| old(self).has(i) implies #[trigger] self.level(i) == old(self).level(i) by {
                assert(grown.has(i));
                assert(grown.level(i) == old(self).level(i));
            }
        }
    }
}

} // verus!
