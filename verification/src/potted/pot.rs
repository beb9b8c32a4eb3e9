//! The pot: the vector in which the nodes of a potted tree stand.

use vstd::prelude::*;
use super::node::Node;
use super::notation::{TupleForest, TupleTree};
use crate::linked::fully::forest::{pred, succ};
use crate::shape::{count_nodes, lemma_count_at_least, lemma_count_concat, lemma_count_one, Shape};
use crate::size::Size;

verus! {

/// The position that stands for "no node". The pot keeps a node there
/// that is part of no tree.
pub const NULL: usize = 0;

/// The position of the root of a potted tree, and of the fake root of a
/// potted forest.
pub const ROOT: usize = 1;

/// The node counts of the nodes at the positions `ks`, added up.
pub closed spec fn sum_counts<T>(nodes: Seq<Node<T>>, ks: Seq<usize>) -> int
    decreases ks.len(),
{
    if ks.len() == 0 {
        0
    } else {
        sum_counts(nodes, ks.drop_last()) + nodes[ks.last() as int].size.node_cnt
    }
}

/// Nodes with the same node counts add up to the same.
proof fn lemma_sum_same<T>(a: Seq<Node<T>>, b: Seq<Node<T>>, ks: Seq<usize>)
    requires
        forall|r: int| 0 <= r < ks.len() ==> b[#[trigger] ks[r] as int].size.node_cnt == a[ks[r] as int].size.node_cnt,
    ensures
        sum_counts(b, ks) == sum_counts(a, ks),
    decreases ks.len(),
{
    if ks.len() > 0 {
        let front = ks.drop_last();
        assert forall|r: int| 0 <= r < front.len() implies b[#[trigger] front[r] as int].size.node_cnt == a[front[r] as int].size.node_cnt by {
            assert(front[r] == ks[r]);
        }
        lemma_sum_same(a, b, front);
        assert(ks.last() == ks[ks.len() - 1]);
    }
}

/// Where one node's count grows by `gap`, the sum grows by `gap`.
proof fn lemma_sum_bump<T>(a: Seq<Node<T>>, b: Seq<Node<T>>, ks: Seq<usize>, at: int, gap: int)
    requires
        0 <= at < ks.len(),
        b[ks[at] as int].size.node_cnt == a[ks[at] as int].size.node_cnt + gap,
        forall|r: int| 0 <= r < ks.len() && r != at ==> b[#[trigger] ks[r] as int].size.node_cnt == a[ks[r] as int].size.node_cnt,
    ensures
        sum_counts(b, ks) == sum_counts(a, ks) + gap,
    decreases ks.len(),
{
    let front = ks.drop_last();
    if at == ks.len() - 1 {
        assert forall|r: int| 0 <= r < front.len() implies b[#[trigger] front[r] as int].size.node_cnt == a[front[r] as int].size.node_cnt by {
            assert(front[r] == ks[r]);
        }
        lemma_sum_same(a, b, front);
    } else {
        assert(front[at] == ks[at]);
        assert forall|r: int| 0 <= r < front.len() && r != at implies b[#[trigger] front[r] as int].size.node_cnt == a[front[r] as int].size.node_cnt by {
            assert(front[r] == ks[r]);
        }
        lemma_sum_bump(a, b, front, at, gap);
        assert(ks.last() == ks[ks.len() - 1]);
    }
}

/// Node counts add up to nothing less than nothing.
proof fn lemma_sum_nonneg<T>(a: Seq<Node<T>>, ks: Seq<usize>)
    ensures
        sum_counts(a, ks) >= 0,
    decreases ks.len(),
{
    if ks.len() > 0 {
        lemma_sum_nonneg(a, ks.drop_last());
    }
}

/// Without the node at `at`, the sum is less by that node's count.
proof fn lemma_sum_remove<T>(a: Seq<Node<T>>, ks: Seq<usize>, at: int)
    requires
        0 <= at < ks.len(),
    ensures
        sum_counts(a, ks.remove(at)) + a[ks[at] as int].size.node_cnt == sum_counts(a, ks),
    decreases ks.len(),
{
    if at == ks.len() - 1 {
        assert(ks.remove(at) =~= ks.drop_last());
    } else {
        lemma_sum_remove(a, ks.drop_last(), at);
        assert(ks.remove(at).drop_last() =~= ks.drop_last().remove(at));
        assert(ks.remove(at).last() == ks.last());
    }
}

/// The counts of the nodes at the positions `a` and then `b` add up to
/// what those at `a` and those at `b` add up to together.
proof fn lemma_sum_concat<T>(nodes: Seq<Node<T>>, a: Seq<usize>, b: Seq<usize>)
    ensures
        sum_counts(nodes, a + b) == sum_counts(nodes, a) + sum_counts(nodes, b),
    decreases b.len(),
{
    if b.len() == 0 {
        assert(a + b =~= a);
    } else {
        lemma_sum_concat(nodes, a, b.drop_last());
        assert((a + b).drop_last() =~= a + b.drop_last());
        assert((a + b).last() == b.last());
    }
}

/// The vector of the nodes of a potted tree or forest. Position 0 stands
/// for "no node", position 1 holds the root. Nodes that were dropped
/// from the tree stay in the pot, as roots of trees of their own.
pub struct Pot<T> {
    pub(crate) nodes: Vec<Node<T>>,
    kids: Ghost<Seq<Seq<usize>>>,
    rank: Ghost<Seq<int>>,
    depth: Ghost<Seq<nat>>,
    deep: Ghost<nat>,
}

impl<T> Pot<T> {
    /// The number of positions of the pot, the one for "no node"
    /// included.
    pub closed spec fn spec_len(&self) -> nat {
        self.nodes@.len()
    }

    /// Whether `index` is the position of a node.
    pub open spec fn has(&self, index: usize) -> bool {
        1 <= index < self.spec_len()
    }

    /// The positions of the children of the node at `index`, in order.
    pub closed spec fn children(&self, index: usize) -> Seq<usize> {
        self.kids@[index as int]
    }

    /// The data of the node at `index`.
    pub closed spec fn datum(&self, index: usize) -> Option<T> {
        self.nodes@[index as int].data
    }

    /// The position of the parent of the node at `index`, or 0 if it is
    /// a root.
    pub closed spec fn parent_of(&self, index: usize) -> usize {
        self.nodes@[index as int].parent
    }

    /// The number of nodes above the node at `index`, up to the root of
    /// its tree, and not counting what may stand above that root.
    pub closed spec fn level(&self, index: usize) -> nat {
        self.depth@[index as int]
    }

    /// The position that the node at `index` names as its next sibling.
    pub closed spec fn next_of(&self, index: usize) -> usize {
        self.nodes@[index as int].next
    }

    /// The position that the node at `index` names as the sibling before
    /// it.
    pub closed spec fn prev_of(&self, index: usize) -> usize {
        self.nodes@[index as int].prev
    }

    /// The position that the node at `index` names as its last child, or
    /// 0 if it names none.
    pub closed spec fn last_child_of(&self, index: usize) -> usize {
        self.nodes@[index as int].child
    }

    /// The place of the node at `index` among the children of its
    /// parent.
    pub closed spec fn place(&self, index: usize) -> int {
        self.rank@[index as int]
    }

    /// The node at `index`.
    pub closed spec fn node_at(&self, index: usize) -> Node<T> {
        self.nodes@[index as int]
    }

    /// Child `r` of node `i` is a node of the pot that knows its parent
    /// and its place among the children.
    pub closed spec fn kid_ok(&self, i: int, r: int) -> bool {
        let k = self.kids@[i][r] as int;
        &&& 1 <= k < self.nodes@.len()
        &&& self.nodes@[k].parent == i
        &&& self.rank@[k] == r
        &&& self.depth@[k] == self.depth@[i] + 1
    }

    /// Node `i` is linked to its children, its siblings and its parent as
    /// the model says, and its size is that of the model, but for node
    /// `at`, which counts `lack.0` children and `lack.1` nodes too few.
    pub closed spec fn sound(&self, i: int, at: int, lack: (int, int)) -> bool {
        let n = self.nodes@.len() as int;
        let node = self.nodes@[i];
        let ks = self.kids@[i];
        &&& node.index == i
        &&& forall|r: int| 0 <= r < ks.len() ==> #[trigger] self.kid_ok(i, r)
        &&& node.child == (if ks.len() == 0 { 0 } else { ks[ks.len() - 1] })
        &&& node.size.degree + (if i == at { lack.0 } else { 0 }) == ks.len()
        &&& node.size.node_cnt + (if i == at { lack.1 } else { 0 }) == 1 + sum_counts(self.nodes@, ks)
        &&& ks.len() < n
        &&& node.size.node_cnt < n
        &&& self.depth@[i] <= self.deep@
        &&& (i >= 2 ==> node.data is Some)
        &&& (i == 1 ==> node.parent == 0)
        &&& if node.parent == 0 {
            node.next == i && node.prev == i
        } else {
            let p = node.parent as int;
            let sibs = self.kids@[p];
            let r = self.rank@[i];
            &&& 1 <= p < n
            &&& 0 <= r < sibs.len()
            &&& sibs[r] == i
            &&& node.next == sibs[succ(r, sibs.len() as int)]
            &&& node.prev == sibs[pred(r, sibs.len() as int)]
        }
    }

    /// The pot is well formed but for the size of node `at`.
    pub closed spec fn wf_but(&self, at: int, lack: (int, int)) -> bool {
        let n = self.nodes@.len();
        &&& n >= 2
        &&& n <= u32::MAX
        &&& self.kids@.len() == n
        &&& self.rank@.len() == n
        &&& self.depth@.len() == n
        &&& forall|i: int| 1 <= i < n ==> #[trigger] self.sound(i, at, lack)
    }

    /// Every node is linked to its children, its siblings and its parent
    /// as the model says; it counts as many children as it has, and one
    /// node more than its children count together.
    pub closed spec fn wf(&self) -> bool {
        self.wf_but(0, (0, 0))
    }

    /// Makes a pot with a root that holds `data`.
    pub fn new_tree(data: T) -> (pot: Self)
        ensures
            pot.wf(),
            pot.spec_len() == 2,
            pot.children(ROOT) == Seq::<usize>::empty(),
            pot.datum(ROOT) == Some(data),
            pot.parent_of(ROOT) == 0,
    {
        let mut nodes = Vec::new();
        nodes.push(Node { next: 0, child: 0, prev: 0, parent: 0, size: Size { degree: 0, node_cnt: 0 }, index: 0, data: None });
        nodes.push(Node { next: 1, child: 0, prev: 1, parent: 0, size: Size { degree: 0, node_cnt: 1 }, index: 1, data: Some(data) });
        let ghost kids = seq![Seq::<usize>::empty(), Seq::<usize>::empty()];
        let ghost rank = seq![0int, 0int];
        let ghost depth = seq![0nat, 0nat];
        let pot = Pot { nodes, kids: Ghost(kids), rank: Ghost(rank), depth: Ghost(depth), deep: Ghost(0) };
        proof {
            assert(pot.sound(1, 0, (0, 0)));
        }
        pot
    }

    /// Makes a pot with a fake root, which holds no data.
    pub fn new_forest() -> (pot: Self)
        ensures
            pot.wf(),
            pot.spec_len() == 2,
            pot.children(ROOT) == Seq::<usize>::empty(),
            pot.datum(ROOT) == None::<T>,
            pot.parent_of(ROOT) == 0,
    {
        let mut nodes = Vec::new();
        nodes.push(Node { next: 0, child: 0, prev: 0, parent: 0, size: Size { degree: 0, node_cnt: 0 }, index: 0, data: None });
        nodes.push(Node { next: 1, child: 0, prev: 1, parent: 0, size: Size { degree: 0, node_cnt: 1 }, index: 1, data: None });
        let ghost kids = seq![Seq::<usize>::empty(), Seq::<usize>::empty()];
        let ghost rank = seq![0int, 0int];
        let ghost depth = seq![0nat, 0nat];
        let pot = Pot { nodes, kids: Ghost(kids), rank: Ghost(rank), depth: Ghost(depth), deep: Ghost(0) };
        proof {
            assert(pot.sound(1, 0, (0, 0)));
        }
        pot
    }

    /// Returns the number of positions of the pot, the one for "no node"
    /// included.
    pub fn len(&self) -> (n: usize)
        ensures
            n == self.spec_len(),
    {
        self.nodes.len()
    }

    /// Returns the node at `index`.
    pub fn node(&self, index: usize) -> (node: &Node<T>)
        requires
            self.has(index),
        ensures
            *node == self.node_at(index),
    {
        &self.nodes[index]
    }

    /// A well formed pot has a root, and no more positions than a `u32`
    /// can count.
    pub proof fn lemma_root(&self)
        requires
            self.wf(),
        ensures
            self.has(ROOT),
            self.spec_len() <= u32::MAX,
    {
    }

    /// What the node at `index` says of itself is what the model says of
    /// it.
    pub proof fn lemma_node(&self, index: usize)
        requires
            self.wf(),
            self.has(index),
        ensures
            self.node_at(index).spec_index() == index,
            self.node_at(index).spec_data() == self.datum(index),
            self.node_at(index).spec_size().degree == self.children(index).len(),
            (self.node_at(index).spec_child() == 0) == (self.children(index).len() == 0),
            index >= 2 ==> self.datum(index) is Some,
    {
        assert(self.sound(index as int, 0, (0, 0)));
        self.node_at(index).lemma_fields();
        if self.children(index).len() > 0 {
            assert(self.kid_ok(index as int, self.children(index).len() - 1));
        }
    }

    /// The pot after `gather` is well formed but for the size of the
    /// parent, which counts one child and one node too few.
    #[verifier::rlimit(30)]
    proof fn lemma_gather(before: &Self, after: &Self, parent: usize, at: int, data: T)
        requires
            before.wf(),
            before.has(parent),
            before.nodes@.len() < u32::MAX,
            0 <= at <= before.kids@[parent as int].len(),
            after.nodes@.len() == before.nodes@.len() + 1,
            after.kids@ == before.kids@.update(parent as int, before.kids@[parent as int].insert(at, before.nodes@.len() as usize)).push(
                Seq::empty(),
            ),
            after.rank@ == Seq::new(
                before.rank@.len() + 1,
                |i: int|
                    if i == before.rank@.len() {
                        at
                    } else if before.nodes@[i].parent == parent && before.rank@[i] >= at {
                        before.rank@[i] + 1
                    } else {
                        before.rank@[i]
                    },
            ),
            after.depth@ == before.depth@.push(before.depth@[parent as int] + 1),
            after.deep@ == (if before.deep@ > before.depth@[parent as int] { before.deep@ } else { before.depth@[parent as int] + 1 }),
            ({
                let k = before.nodes@.len() as int;
                let ks = before.kids@[parent as int];
                let m = ks.len() as int;
                let prev = if m == 0 { k } else { ks[pred(at, m)] as int };
                let next = if m == 0 { k } else { ks[if at == m { 0 } else { at }] as int };
                let node = after.nodes@[k];
                &&& node.index == k
                &&& node.child == 0
                &&& node.parent == parent
                &&& node.size == (Size { degree: 0, node_cnt: 1 })
                &&& node.data == Some(data)
                &&& node.next == next
                &&& node.prev == prev
                &&& forall|i: int| 0 <= i < k ==> {
                    let was = before.nodes@[i];
                    #[trigger] after.nodes@[i] == (Node {
                        next: if m > 0 && i == prev { k as usize } else { was.next },
                        prev: if m > 0 && i == next { k as usize } else { was.prev },
                        child: if i == parent && at == m { k as usize } else { was.child },
                        ..was
                    })
                }
            }),
        ensures
            after.wf_but(parent as int, (1, 1)),
    {
        let n = before.nodes@.len() as int;
        let k = n;
        let p = parent as int;
        let ks = before.kids@[p];
        let m = ks.len() as int;
        let ks2 = ks.insert(at, k as usize);
        assert(before.sound(p, 0, (0, 0)));
        assert forall|r: int| 0 <= r < m + 1 implies #[trigger] ks2[r] == (if r < at { ks[r] } else if r == at { k as usize } else { ks[r - 1] }) by {}
        if m > 0 {
            assert(before.kid_ok(p, m - 1));
            assert(before.kid_ok(p, 0));
            assert(before.kid_ok(p, pred(at, m)));
            assert(before.kid_ok(p, if at == m { 0 } else { at }));
        }
        assert forall|i: int| 1 <= i < n + 1 implies #[trigger] after.sound(i, p, (1, 1)) by {
            let aks = after.kids@[i];
            if i == k {
                assert(aks =~= Seq::<usize>::empty());
                assert(sum_counts(after.nodes@, aks) == 0);
                assert(after.kids@[p] =~= ks2);
            } else {
                assert(before.sound(i, 0, (0, 0)));
                let bks = before.kids@[i];
                if i == p {
                    assert(aks =~= ks2);
                    lemma_sum_remove(after.nodes@, ks2, at);
                    assert(ks2.remove(at) =~= ks);
                    assert forall|r: int| 0 <= r < m implies after.nodes@[#[trigger] ks[r] as int].size.node_cnt == before.nodes@[ks[r] as int].size.node_cnt by {
                        assert(before.kid_ok(p, r));
                    }
                    lemma_sum_same(before.nodes@, after.nodes@, ks);
                    assert forall|r: int| 0 <= r < aks.len() implies #[trigger] after.kid_ok(i, r) by {
                        if r < at {
                            assert(before.kid_ok(p, r));
                        } else if r > at {
                            assert(before.kid_ok(p, r - 1));
                        }
                    }
                    if m > 0 {
                        assert(before.kid_ok(p, m - 1));
                    }
                } else {
                    assert(aks =~= bks);
                    assert forall|r: int| 0 <= r < bks.len() implies after.nodes@[#[trigger] bks[r] as int].size.node_cnt == before.nodes@[bks[r] as int].size.node_cnt by {
                        assert(before.kid_ok(i, r));
                    }
                    lemma_sum_same(before.nodes@, after.nodes@, bks);
                    assert forall|r: int| 0 <= r < aks.len() implies #[trigger] after.kid_ok(i, r) by {
                        assert(before.kid_ok(i, r));
                    }
                }
                let q = before.nodes@[i].parent as int;
                if q != 0 {
                    if q == p {
                        assert(after.kids@[q] =~= ks2);
                        let r = before.rank@[i];
                        assert(before.kid_ok(p, r));
                        assert(before.kid_ok(p, succ(r, m)));
                        assert(before.kid_ok(p, pred(r, m)));
                    } else {
                        assert(after.kids@[q] =~= before.kids@[q]);
                    }
                }
            }
        }
    }

    /// Puts a new node that holds `data` among the children of the node
    /// at `parent`, behind the child at `before`, and returns its
    /// position. With `last` it becomes the last child, else, behind the
    /// last child, the first. The sizes are left as they were: the parent
    /// counts one child too few, and it and the nodes above it one node
    /// too few.
    fn gather(&mut self, parent: usize, before: usize, last: bool, data: T, Ghost(at): Ghost<int>) -> (child: usize)
        requires
            old(self).wf(),
            old(self).has(parent),
            old(self).spec_len() < u32::MAX,
            0 <= at <= old(self).children(parent).len(),
            last <==> at == old(self).children(parent).len(),
            old(self).children(parent).len() > 0 ==> before == old(self).children(parent)[pred(
                at,
                old(self).children(parent).len() as int,
            )],
        ensures
            final(self).wf_but(parent as int, (1, 1)),
            child == old(self).spec_len(),
            final(self).spec_len() == old(self).spec_len() + 1,
            final(self).children(parent) == old(self).children(parent).insert(at, child),
            final(self).children(child) == Seq::<usize>::empty(),
            final(self).datum(child) == Some(data),
            final(self).parent_of(child) == parent,
            forall|i: usize| old(self).has(i) && i != parent ==> #[trigger] final(self).children(i) == old(self).children(i),
            forall|i: usize| old(self).has(i) ==> #[trigger] final(self).datum(i) == old(self).datum(i),
            forall|i: usize| old(self).has(i) ==> #[trigger] final(self).parent_of(i) == old(self).parent_of(i),
            forall|i: int| 0 <= i < old(self).depth@.len() ==> final(self).depth@[i] == old(self).depth@[i],
            final(self).depth@[child as int] == old(self).depth@[parent as int] + 1,
            forall|i: int| 1 <= i < old(self).nodes@.len() ==> (#[trigger] final(self).nodes@[i]).size == old(self).nodes@[i].size,
    {
        let child = self.nodes.len();
        let ghost p = parent as int;
        let ghost m = self.kids@[p].len() as int;
        proof {
            assert(self.sound(p, 0, (0, 0)));
            if m > 0 {
                assert(self.kid_ok(p, m - 1));
                assert(self.kid_ok(p, pred(at, m)));
                assert(self.sound(before as int, 0, (0, 0)));
                assert(self.kid_ok(p, succ(pred(at, m), m)));
            }
        }
        let mut node = Node {
            next: child,
            child: 0,
            prev: child,
            parent,
            size: Size { degree: 0, node_cnt: 1 },
            index: child,
            data: Some(data),
        };
        let tail = self.nodes[parent].child;
        if tail != 0 {
            let after = self.nodes[before].next;
            node.set_prev(before);
            node.set_next(after);
            self.nodes[after].set_prev(child);
            self.nodes[before].set_next(child);
        }
        if last {
            self.nodes[parent].set_child(child);
        }
        self.nodes.push(node);
        proof {
            let was = *old(self);
            self.kids = Ghost(was.kids@.update(p, was.kids@[p].insert(at, child)).push(Seq::empty()));
            self.rank = Ghost(
                Seq::new(
                    was.rank@.len() + 1,
                    |i: int|
                        if i == was.rank@.len() {
                            at
                        } else if was.nodes@[i].parent == parent && was.rank@[i] >= at {
                            was.rank@[i] + 1
                        } else {
                            was.rank@[i]
                        },
                ),
            );
            self.depth = Ghost(was.depth@.push(was.depth@[p] + 1));
            self.deep = Ghost(if was.deep@ > was.depth@[p] { was.deep@ } else { was.depth@[p] + 1 });
            Self::lemma_gather(old(self), self, parent, at, data);
        }
        child
    }

    /// Adds `degree` to the number of children of the node at `index`,
    /// and `node_cnt` to the number of nodes of it and of all the nodes
    /// above it.
    fn inc_sizes(&mut self, index: usize, degree: u32, node_cnt: u32)
        requires
            old(self).wf_but(index as int, (degree as int, node_cnt as int)),
            old(self).has(index),
            forall|i: int| 1 <= i < old(self).nodes@.len() && old(self).depth@[i] <= old(self).depth@[index as int]
                ==> (#[trigger] old(self).nodes@[i]).size.node_cnt + node_cnt < old(self).nodes@.len(),
        ensures
            final(self).wf(),
            final(self).spec_len() == old(self).spec_len(),
            final(self).depth@ == old(self).depth@,
            forall|i: usize| old(self).has(i) ==> #[trigger] final(self).children(i) == old(self).children(i),
            forall|i: usize| old(self).has(i) ==> #[trigger] final(self).datum(i) == old(self).datum(i),
            forall|i: usize| old(self).has(i) ==> #[trigger] final(self).parent_of(i) == old(self).parent_of(i),
    {
        proof {
            assert(self.sound(index as int, index as int, (degree as int, node_cnt as int)));
        }
        let d = self.nodes[index].size.degree;
        self.nodes[index].size.degree = d + degree;
        let ghost lack = (0int, node_cnt as int);
        proof {
            assert forall|i: int| 1 <= i < self.nodes@.len() implies #[trigger] self.sound(i, index as int, lack) by {
                assert(old(self).sound(i, index as int, (degree as int, node_cnt as int)));
                let ks = self.kids@[i];
                assert forall|r: int| 0 <= r < ks.len() implies #[trigger] self.kid_ok(i, r) by {
                    assert(old(self).kid_ok(i, r));
                }
                assert forall|r: int| 0 <= r < ks.len() implies self.nodes@[#[trigger] ks[r] as int].size.node_cnt == old(
                    self,
                ).nodes@[ks[r] as int].size.node_cnt by {
                    assert(old(self).kid_ok(i, r));
                }
                lemma_sum_same(old(self).nodes@, self.nodes@, ks);
            }
        }
        let mut up = index;
        while up != 0
            invariant
                self.wf_but(up as int, lack),
                lack == (0int, node_cnt as int),
                up < self.nodes@.len(),
                self.nodes@.len() == old(self).nodes@.len(),
                self.kids@ == old(self).kids@,
                self.depth@ == old(self).depth@,
                forall|i: int| 0 <= i < self.nodes@.len() ==> (#[trigger] self.nodes@[i]).data == old(self).nodes@[i].data,
                forall|i: int| 0 <= i < self.nodes@.len() ==> (#[trigger] self.nodes@[i]).parent == old(self).nodes@[i].parent,
                up != 0 ==> forall|i: int| 1 <= i < self.nodes@.len() && self.depth@[i] <= self.depth@[up as int]
                    ==> (#[trigger] self.nodes@[i]).size.node_cnt + node_cnt < self.nodes@.len(),
            decreases (if up == 0 { 0 } else { self.depth@[up as int] + 1 }),
        {
            let ghost before = *self;
            proof {
                assert(self.sound(up as int, up as int, lack));
            }
            let c = self.nodes[up].size.node_cnt;
            self.nodes[up].size.node_cnt = c + node_cnt;
            let above = self.nodes[up].parent;
            proof {
                let u = up as int;
                let q = above as int;
                if q != 0 {
                    assert(before.sound(q, u, lack));
                    assert(before.kid_ok(q, before.rank@[u]));
                }
                assert forall|i: int| 1 <= i < self.nodes@.len() implies #[trigger] self.sound(i, q, lack) by {
                    assert(before.sound(i, u, lack));
                    let ks = self.kids@[i];
                    assert forall|r: int| 0 <= r < ks.len() implies #[trigger] self.kid_ok(i, r) by {
                        assert(before.kid_ok(i, r));
                    }
                    if i == q {
                        let at = before.rank@[u];
                        assert forall|r: int| 0 <= r < ks.len() && r != at implies self.nodes@[#[trigger] ks[r] as int].size.node_cnt
                            == before.nodes@[ks[r] as int].size.node_cnt by {
                            assert(before.kid_ok(i, r));
                        }
                        lemma_sum_bump(before.nodes@, self.nodes@, ks, at, node_cnt as int);
                    } else {
                        assert forall|r: int| 0 <= r < ks.len() implies self.nodes@[#[trigger] ks[r] as int].size.node_cnt
                            == before.nodes@[ks[r] as int].size.node_cnt by {
                            assert(before.kid_ok(i, r));
                        }
                        lemma_sum_same(before.nodes@, self.nodes@, ks);
                    }
                }
            }
            up = above;
        }
        proof {
            assert forall|i: int| 1 <= i < self.nodes@.len() implies #[trigger] self.sound(i, 0, (0, 0)) by {
                assert(self.sound(i, 0, lack));
            }
        }
    }

    /// Puts a new node that holds `data` among the children of the node
    /// at `parent`, at place `at`, and brings the sizes up to date.
    fn plant(&mut self, parent: usize, before: usize, last: bool, data: T, Ghost(at): Ghost<int>) -> (child: usize)
        requires
            old(self).wf(),
            old(self).has(parent),
            old(self).spec_len() < u32::MAX,
            0 <= at <= old(self).children(parent).len(),
            last <==> at == old(self).children(parent).len(),
            old(self).children(parent).len() > 0 ==> before == old(self).children(parent)[pred(
                at,
                old(self).children(parent).len() as int,
            )],
        ensures
            final(self).wf(),
            child == old(self).spec_len(),
            final(self).spec_len() == old(self).spec_len() + 1,
            final(self).children(parent) == old(self).children(parent).insert(at, child),
            final(self).children(child) == Seq::<usize>::empty(),
            final(self).datum(child) == Some(data),
            final(self).parent_of(child) == parent,
            final(self).level(child) == old(self).level(parent) + 1,
            forall|i: usize| old(self).has(i) && i != parent ==> #[trigger] final(self).children(i) == old(self).children(i),
            forall|i: usize| old(self).has(i) ==> #[trigger] final(self).datum(i) == old(self).datum(i),
            forall|i: usize| old(self).has(i) ==> #[trigger] final(self).parent_of(i) == old(self).parent_of(i),
            forall|i: usize| old(self).has(i) ==> #[trigger] final(self).level(i) == old(self).level(i),
    {
        proof {
            assert forall|i: int| 1 <= i < self.nodes@.len() implies (#[trigger] self.nodes@[i]).size.node_cnt < self.nodes@.len() by {
                assert(self.sound(i, 0, (0, 0)));
            }
        }
        let child = self.gather(parent, before, last, data, Ghost(at));
        let ghost mid = *self;
        self.inc_sizes(parent, 1, 1);
        proof {
            assert forall|i: usize| old(self).has(i) && i != parent implies #[trigger] self.children(i) == old(self).children(i) by {
                assert(mid.has(i));
                assert(mid.children(i) == old(self).children(i));
            }
            assert forall|i: usize| old(self).has(i) implies #[trigger] self.datum(i) == old(self).datum(i) by {
                assert(mid.has(i));
                assert(mid.datum(i) == old(self).datum(i));
            }
            assert forall|i: usize| old(self).has(i) implies #[trigger] self.parent_of(i) == old(self).parent_of(i) by {
                assert(mid.has(i));
                assert(mid.parent_of(i) == old(self).parent_of(i));
            }
            assert(mid.has(parent));
            assert(mid.has(child));
        }
        child
    }

    /// Adds a node that holds `data` as the last child of the node at
    /// `parent`, and returns its position.
    pub fn append(&mut self, parent: usize, data: T) -> (child: usize)
        requires
            old(self).wf(),
            old(self).has(parent),
            old(self).spec_len() < u32::MAX,
        ensures
            final(self).wf(),
            child == old(self).spec_len(),
            final(self).spec_len() == old(self).spec_len() + 1,
            final(self).children(parent) == old(self).children(parent).push(child),
            final(self).children(child) == Seq::<usize>::empty(),
            final(self).datum(child) == Some(data),
            final(self).parent_of(child) == parent,
            final(self).level(child) == old(self).level(parent) + 1,
            forall|i: usize| old(self).has(i) && i != parent ==> #[trigger] final(self).children(i) == old(self).children(i),
            forall|i: usize| old(self).has(i) ==> #[trigger] final(self).datum(i) == old(self).datum(i),
            forall|i: usize| old(self).has(i) ==> #[trigger] final(self).parent_of(i) == old(self).parent_of(i),
            forall|i: usize| old(self).has(i) ==> #[trigger] final(self).level(i) == old(self).level(i),
    {
        let tail = self.tail(parent);
        let ghost ks = self.children(parent);
        let child = self.plant(parent, tail, true, data, Ghost(ks.len() as int));
        proof {
            assert(ks.insert(ks.len() as int, child) =~= ks.push(child));
        }
        child
    }

    /// Adds a node that holds `data` as the first child of the node at
    /// `parent`, and returns its position.
    pub fn prepend(&mut self, parent: usize, data: T) -> (child: usize)
        requires
            old(self).wf(),
            old(self).has(parent),
            old(self).spec_len() < u32::MAX,
        ensures
            final(self).wf(),
            child == old(self).spec_len(),
            final(self).spec_len() == old(self).spec_len() + 1,
            final(self).children(parent) == seq![child] + old(self).children(parent),
            final(self).children(child) == Seq::<usize>::empty(),
            final(self).datum(child) == Some(data),
            final(self).parent_of(child) == parent,
            final(self).level(child) == old(self).level(parent) + 1,
            forall|i: usize| old(self).has(i) && i != parent ==> #[trigger] final(self).children(i) == old(self).children(i),
            forall|i: usize| old(self).has(i) ==> #[trigger] final(self).datum(i) == old(self).datum(i),
            forall|i: usize| old(self).has(i) ==> #[trigger] final(self).parent_of(i) == old(self).parent_of(i),
            forall|i: usize| old(self).has(i) ==> #[trigger] final(self).level(i) == old(self).level(i),
    {
        let tail = self.tail(parent);
        let ghost ks = self.children(parent);
        let child = self.plant(parent, tail, tail == 0, data, Ghost(0));
        proof {
            assert(ks.insert(0, child) =~= seq![child] + ks);
        }
        child
    }

    /// Adds a node that holds `data` as the child at place `nth` of the
    /// node at `parent`, before the child that stands there, and returns
    /// its position.
    pub fn insert(&mut self, parent: usize, nth: usize, data: T) -> (child: usize)
        requires
            old(self).wf(),
            old(self).has(parent),
            old(self).spec_len() < u32::MAX,
            nth <= old(self).children(parent).len(),
        ensures
            final(self).wf(),
            child == old(self).spec_len(),
            final(self).spec_len() == old(self).spec_len() + 1,
            final(self).children(parent) == old(self).children(parent).insert(nth as int, child),
            final(self).children(child) == Seq::<usize>::empty(),
            final(self).datum(child) == Some(data),
            final(self).parent_of(child) == parent,
            final(self).level(child) == old(self).level(parent) + 1,
            forall|i: usize| old(self).has(i) && i != parent ==> #[trigger] final(self).children(i) == old(self).children(i),
            forall|i: usize| old(self).has(i) ==> #[trigger] final(self).datum(i) == old(self).datum(i),
            forall|i: usize| old(self).has(i) ==> #[trigger] final(self).parent_of(i) == old(self).parent_of(i),
            forall|i: usize| old(self).has(i) ==> #[trigger] final(self).level(i) == old(self).level(i),
    {
        if nth == 0 {
            let ghost ks = self.children(parent);
            let child = self.prepend(parent, data);
            proof {
                assert(ks.insert(0, child) =~= seq![child] + ks);
            }
            child
        } else {
            let degree = self.degree(parent);
            if nth == degree {
                let ghost ks = self.children(parent);
                let child = self.append(parent, data);
                proof {
                    assert(ks.insert(ks.len() as int, child) =~= ks.push(child));
                }
                child
            } else {
                let before = self.nth_child(parent, nth - 1).unwrap();
                self.plant(parent, before, false, data, Ghost(nth as int))
            }
        }
    }

    /// The pot after `unlink` is well formed but for the size of the
    /// parent, which counts the child that left and the nodes of that
    /// child's subtree too many.
    proof fn lemma_unlink(before: &Self, after: &Self, parent: usize, child: usize, at: int)
        requires
            before.wf(),
            before.has(parent),
            0 <= at < before.kids@[parent as int].len(),
            child == before.kids@[parent as int][at],
            after.nodes@.len() == before.nodes@.len(),
            after.kids@ == before.kids@.update(parent as int, before.kids@[parent as int].remove(at)),
            after.rank@ == Seq::new(
                before.rank@.len(),
                |i: int|
                    if before.nodes@[i].parent == parent && before.rank@[i] > at {
                        before.rank@[i] - 1
                    } else {
                        before.rank@[i]
                    },
            ),
            after.depth@ == before.depth@,
            after.deep@ == before.deep@,
            ({
                let c = child as int;
                let m = before.kids@[parent as int].len();
                let prev = before.nodes@[c].prev as int;
                let next = before.nodes@[c].next as int;
                forall|i: int| 0 <= i < before.nodes@.len() ==> {
                    let was = before.nodes@[i];
                    #[trigger] after.nodes@[i] == (if i == c {
                        Node { next: child, prev: child, parent: 0, ..was }
                    } else {
                        Node {
                            next: if m > 1 && i == prev { next as usize } else { was.next },
                            prev: if m > 1 && i == next { prev as usize } else { was.prev },
                            child: if i == parent {
                                if m == 1 {
                                    0
                                } else if was.child == child {
                                    prev as usize
                                } else {
                                    was.child
                                }
                            } else {
                                was.child
                            },
                            ..was
                        }
                    })
                }
            }),
        ensures
            after.wf_but(parent as int, (-1, -(before.nodes@[child as int].size.node_cnt as int))),
    {
        let n = before.nodes@.len() as int;
        let p = parent as int;
        let c = child as int;
        let ks = before.kids@[p];
        let m = ks.len() as int;
        let gone = before.nodes@[c].size.node_cnt as int;
        let lack = (-1int, -gone);
        assert(before.sound(p, 0, (0, 0)));
        assert(before.kid_ok(p, at));
        assert(before.sound(c, 0, (0, 0)));
        assert(before.kid_ok(p, succ(at, m)));
        assert(before.kid_ok(p, pred(at, m)));
        let prev = before.nodes@[c].prev as int;
        let next = before.nodes@[c].next as int;
        assert(prev == ks[pred(at, m)]);
        assert(next == ks[succ(at, m)]);
        let aks_p = ks.remove(at);
        assert forall|i: int| 1 <= i < n implies #[trigger] after.sound(i, p, lack) by {
            assert(before.sound(i, 0, (0, 0)));
            let bks = before.kids@[i];
            let aks = after.kids@[i];
            if i == p {
                assert(aks =~= aks_p);
                assert forall|r: int| 0 <= r < aks.len() implies #[trigger] after.kid_ok(i, r) by {
                    let h = if r < at { r } else { r + 1 };
                    assert(before.kid_ok(p, h));
                    assert(aks[r] == ks[h]);
                }
                lemma_sum_remove(before.nodes@, ks, at);
                assert forall|r: int| 0 <= r < aks.len() implies after.nodes@[#[trigger] aks[r] as int].size.node_cnt
                    == before.nodes@[aks[r] as int].size.node_cnt by {
                    let h = if r < at { r } else { r + 1 };
                    assert(before.kid_ok(p, h));
                    assert(aks[r] == ks[h]);
                }
                lemma_sum_same(before.nodes@, after.nodes@, aks);
                if m > 1 {
                    assert(before.kid_ok(p, m - 1));
                    assert(before.kid_ok(p, m - 2));
                }
            } else {
                assert(aks =~= bks);
                assert forall|r: int| 0 <= r < aks.len() implies #[trigger] after.kid_ok(i, r) by {
                    assert(before.kid_ok(i, r));
                }
                assert forall|r: int| 0 <= r < bks.len() implies after.nodes@[#[trigger] bks[r] as int].size.node_cnt
                    == before.nodes@[bks[r] as int].size.node_cnt by {
                    assert(before.kid_ok(i, r));
                }
                lemma_sum_same(before.nodes@, after.nodes@, bks);
            }
            if i != c {
                let q = before.nodes@[i].parent as int;
                if q != 0 {
                    if q == p {
                        let r = before.rank@[i];
                        assert(before.kid_ok(p, r));
                        assert(after.kids@[q] =~= aks_p);
                        let r2 = after.rank@[i];
                        assert(r != at);
                        assert(aks_p[r2] == i);
                        assert(before.kid_ok(p, succ(r, m)));
                        assert(before.kid_ok(p, pred(r, m)));
                    } else {
                        assert(after.kids@[q] =~= before.kids@[q]);
                    }
                }
            }
        }
    }

    /// Takes the child at place `at` of the node at `parent` out of its
    /// ring and makes it a root. The sizes are left as they were.
    fn unlink(&mut self, parent: usize, child: usize, Ghost(at): Ghost<int>)
        requires
            old(self).wf(),
            old(self).has(parent),
            0 <= at < old(self).children(parent).len(),
            child == old(self).children(parent)[at],
        ensures
            final(self).wf_but(parent as int, (-1, -(old(self).nodes@[child as int].size.node_cnt as int))),
            final(self).spec_len() == old(self).spec_len(),
            final(self).children(parent) == old(self).children(parent).remove(at),
            final(self).parent_of(child) == 0,
            forall|i: usize| old(self).has(i) && i != parent ==> #[trigger] final(self).children(i) == old(self).children(i),
            forall|i: usize| old(self).has(i) ==> #[trigger] final(self).datum(i) == old(self).datum(i),
            forall|i: usize| old(self).has(i) && i != child ==> #[trigger] final(self).parent_of(i) == old(self).parent_of(i),
            final(self).depth@ == old(self).depth@,
            forall|i: int| 1 <= i < old(self).nodes@.len() ==> (#[trigger] final(self).nodes@[i]).size == old(self).nodes@[i].size,
    {
        let ghost p = parent as int;
        let ghost m = self.kids@[p].len() as int;
        proof {
            assert(self.sound(p, 0, (0, 0)));
            assert(self.kid_ok(p, at));
            assert(self.sound(child as int, 0, (0, 0)));
            assert(self.kid_ok(p, succ(at, m)));
            assert(self.kid_ok(p, pred(at, m)));
        }
        let prev = self.nodes[child].prev;
        let next = self.nodes[child].next;
        if next == child {
            self.nodes[parent].reset_child();
        } else {
            self.nodes[prev].set_next(next);
            self.nodes[next].set_prev(prev);
            if self.nodes[parent].child == child {
                self.nodes[parent].set_child(prev);
            }
        }
        self.nodes[child].set_parent(0);
        self.nodes[child].set_next(child);
        self.nodes[child].set_prev(child);
        proof {
            let before = *old(self);
            self.kids = Ghost(before.kids@.update(p, before.kids@[p].remove(at)));
            self.rank = Ghost(
                Seq::new(
                    before.rank@.len(),
                    |i: int|
                        if before.nodes@[i].parent == parent && before.rank@[i] > at {
                            before.rank@[i] - 1
                        } else {
                            before.rank@[i]
                        },
                ),
            );
            if m > 1 {
                assert(next != child);
            }
            Self::lemma_unlink(old(self), self, parent, child, at);
        }
    }

    /// Takes `degree` from the number of children of the node at
    /// `index`, and `node_cnt` from the number of nodes of it and of all
    /// the nodes above it.
    fn dec_sizes(&mut self, index: usize, degree: u32, node_cnt: u32)
        requires
            old(self).wf_but(index as int, (-(degree as int), -(node_cnt as int))),
            old(self).has(index),
        ensures
            final(self).wf(),
            final(self).spec_len() == old(self).spec_len(),
            final(self).depth@ == old(self).depth@,
            forall|i: usize| old(self).has(i) ==> #[trigger] final(self).children(i) == old(self).children(i),
            forall|i: usize| old(self).has(i) ==> #[trigger] final(self).datum(i) == old(self).datum(i),
            forall|i: usize| old(self).has(i) ==> #[trigger] final(self).parent_of(i) == old(self).parent_of(i),
    {
        proof {
            assert(self.sound(index as int, index as int, (-(degree as int), -(node_cnt as int))));
        }
        let d = self.nodes[index].size.degree;
        self.nodes[index].size.degree = d - degree;
        let ghost lack = (0int, -(node_cnt as int));
        proof {
            assert forall|i: int| 1 <= i < self.nodes@.len() implies #[trigger] self.sound(i, index as int, lack) by {
                assert(old(self).sound(i, index as int, (-(degree as int), -(node_cnt as int))));
                let ks = self.kids@[i];
                assert forall|r: int| 0 <= r < ks.len() implies #[trigger] self.kid_ok(i, r) by {
                    assert(old(self).kid_ok(i, r));
                }
                assert forall|r: int| 0 <= r < ks.len() implies self.nodes@[#[trigger] ks[r] as int].size.node_cnt == old(
                    self,
                ).nodes@[ks[r] as int].size.node_cnt by {
                    assert(old(self).kid_ok(i, r));
                }
                lemma_sum_same(old(self).nodes@, self.nodes@, ks);
            }
        }
        let mut up = index;
        while up != 0
            invariant
                self.wf_but(up as int, lack),
                lack == (0int, -(node_cnt as int)),
                up < self.nodes@.len(),
                self.nodes@.len() == old(self).nodes@.len(),
                self.kids@ == old(self).kids@,
                self.depth@ == old(self).depth@,
                forall|i: int| 0 <= i < self.nodes@.len() ==> (#[trigger] self.nodes@[i]).data == old(self).nodes@[i].data,
                forall|i: int| 0 <= i < self.nodes@.len() ==> (#[trigger] self.nodes@[i]).parent == old(self).nodes@[i].parent,
            decreases (if up == 0 { 0 } else { self.depth@[up as int] + 1 }),
        {
            let ghost before = *self;
            proof {
                assert(self.sound(up as int, up as int, lack));
                lemma_sum_nonneg(self.nodes@, self.kids@[up as int]);
            }
            let c = self.nodes[up].size.node_cnt;
            self.nodes[up].size.node_cnt = c - node_cnt;
            let above = self.nodes[up].parent;
            proof {
                let u = up as int;
                let q = above as int;
                if q != 0 {
                    assert(before.sound(q, u, lack));
                    assert(before.kid_ok(q, before.rank@[u]));
                }
                assert forall|i: int| 1 <= i < self.nodes@.len() implies #[trigger] self.sound(i, q, lack) by {
                    assert(before.sound(i, u, lack));
                    let ks = self.kids@[i];
                    assert forall|r: int| 0 <= r < ks.len() implies #[trigger] self.kid_ok(i, r) by {
                        assert(before.kid_ok(i, r));
                    }
                    if i == q {
                        let at = before.rank@[u];
                        assert forall|r: int| 0 <= r < ks.len() && r != at implies self.nodes@[#[trigger] ks[r] as int].size.node_cnt
                            == before.nodes@[ks[r] as int].size.node_cnt by {
                            assert(before.kid_ok(i, r));
                        }
                        lemma_sum_bump(before.nodes@, self.nodes@, ks, at, -(node_cnt as int));
                    } else {
                        assert forall|r: int| 0 <= r < ks.len() implies self.nodes@[#[trigger] ks[r] as int].size.node_cnt
                            == before.nodes@[ks[r] as int].size.node_cnt by {
                            assert(before.kid_ok(i, r));
                        }
                        lemma_sum_same(before.nodes@, self.nodes@, ks);
                    }
                }
            }
            up = above;
        }
        proof {
            assert forall|i: int| 1 <= i < self.nodes@.len() implies #[trigger] self.sound(i, 0, (0, 0)) by {
                assert(self.sound(i, 0, lack));
            }
        }
    }

    /// Takes the child at place `at` of the node at `parent` out of the
    /// tree, with all its descendants. It stays in the pot as the root
    /// of a tree of its own.
    fn detach(&mut self, parent: usize, child: usize, Ghost(at): Ghost<int>)
        requires
            old(self).wf(),
            old(self).has(parent),
            0 <= at < old(self).children(parent).len(),
            child == old(self).children(parent)[at],
        ensures
            final(self).wf(),
            final(self).spec_len() == old(self).spec_len(),
            final(self).children(parent) == old(self).children(parent).remove(at),
            final(self).parent_of(child) == 0,
            forall|i: usize| old(self).has(i) && i != parent ==> #[trigger] final(self).children(i) == old(self).children(i),
            forall|i: usize| old(self).has(i) ==> #[trigger] final(self).datum(i) == old(self).datum(i),
            forall|i: usize| old(self).has(i) && i != child ==> #[trigger] final(self).parent_of(i) == old(self).parent_of(i),
            forall|i: usize| old(self).has(i) ==> #[trigger] final(self).level(i) == old(self).level(i),
    {
        proof {
            assert(self.sound(parent as int, 0, (0, 0)));
            assert(self.kid_ok(parent as int, at));
        }
        let gone = self.nodes[child].size.node_cnt;
        self.unlink(parent, child, Ghost(at));
        let ghost mid = *self;
        self.dec_sizes(parent, 1, gone);
        proof {
            assert forall|i: usize| old(self).has(i) && i != parent implies #[trigger] self.children(i) == old(self).children(i) by {
                assert(mid.has(i));
                assert(mid.children(i) == old(self).children(i));
            }
            assert forall|i: usize| old(self).has(i) implies #[trigger] self.datum(i) == old(self).datum(i) by {
                assert(mid.has(i));
                assert(mid.datum(i) == old(self).datum(i));
            }
            assert forall|i: usize| old(self).has(i) && i != child implies #[trigger] self.parent_of(i) == old(self).parent_of(i) by {
                assert(mid.has(i));
                assert(mid.parent_of(i) == old(self).parent_of(i));
            }
            assert(mid.has(parent));
            assert(mid.has(child));
        }
    }

    /// Returns the number of children of the node at `index`.
    pub fn degree(&self, index: usize) -> (n: usize)
        requires
            self.wf(),
            self.has(index),
        ensures
            n == self.children(index).len(),
    {
        proof {
            assert(self.sound(index as int, 0, (0, 0)));
        }
        self.nodes[index].size.degree as usize
    }

    /// Returns the number of nodes of the subtree of the node at `index`,
    /// that node included.
    pub fn node_cnt(&self, index: usize) -> (n: usize)
        requires
            self.wf(),
            self.has(index),
        ensures
            n == self.count(index),
    {
        self.nodes[index].size.node_cnt as usize
    }

    /// The number of nodes that the node at `index` keeps as the size of
    /// its subtree.
    pub closed spec fn count(&self, index: usize) -> nat {
        self.nodes@[index as int].size.node_cnt as nat
    }

    /// The node counts that the nodes at the positions `ks` keep, added
    /// up.
    pub closed spec fn counts(&self, ks: Seq<usize>) -> int {
        sum_counts(self.nodes@, ks)
    }

    /// Adding up the node counts of some nodes and of one more.
    pub proof fn lemma_counts(&self, ks: Seq<usize>)
        ensures
            ks.len() == 0 ==> self.counts(ks) == 0,
            ks.len() > 0 ==> self.counts(ks) == self.counts(ks.drop_last()) + self.count(ks.last()),
    {
    }

    /// The children of a node form one ring: each names the next child
    /// and the child before, the last names the first and the first the
    /// last. The node names its last child, and none when it is a leaf.
    /// A root names itself as its next and its previous sibling.
    pub proof fn lemma_links(&self, index: usize)
        requires
            self.wf(),
            self.has(index),
        ensures
            self.last_child_of(index) == (if self.children(index).len() == 0 {
                0
            } else {
                self.children(index).last()
            }),
            self.parent_of(index) == 0 ==> self.next_of(index) == index && self.prev_of(index) == index,
            self.parent_of(index) != 0 ==> {
                let sibs = self.children(self.parent_of(index));
                &&& self.has(self.parent_of(index))
                &&& 0 <= self.place(index) < sibs.len()
                &&& sibs[self.place(index)] == index
                &&& self.next_of(index) == sibs[succ(self.place(index), sibs.len() as int)]
                &&& self.prev_of(index) == sibs[pred(self.place(index), sibs.len() as int)]
            },
    {
        assert(self.sound(index as int, 0, (0, 0)));
    }

    /// Every node counts as many children as it has, and one node more
    /// than its children count together; the children of a node are
    /// nodes that have it for their parent.
    pub proof fn lemma_sizes(&self, index: usize)
        requires
            self.wf(),
            self.has(index),
        ensures
            self.node_at(index).spec_size().degree == self.children(index).len(),
            self.node_at(index).spec_size().node_cnt == self.count(index),
            self.count(index) == 1 + self.counts(self.children(index)),
            forall|r: int| 0 <= r < self.children(index).len() ==> self.has(#[trigger] self.children(index)[r])
                && self.parent_of(self.children(index)[r]) == index && self.level(self.children(index)[r]) == self.level(index) + 1
                && self.datum(self.children(index)[r]) is Some,
            self.children(index).no_duplicates(),
            self.parent_of(ROOT) == 0,
    {
        let i = index as int;
        assert(self.sound(i, 0, (0, 0)));
        self.node_at(index).lemma_fields();
        let ks = self.children(index);
        assert(self.sound(ROOT as int, 0, (0, 0)));
        assert forall|r: int| 0 <= r < ks.len() implies self.has(#[trigger] ks[r]) && self.parent_of(ks[r]) == index && self.level(
            ks[r],
        ) == self.level(index) + 1 && self.datum(ks[r]) is Some by {
            assert(self.kid_ok(i, r));
            assert(self.sound(ks[r] as int, 0, (0, 0)));
        }
        assert forall|r: int, q: int| 0 <= r < ks.len() && 0 <= q < ks.len() && r != q implies ks[r] != ks[q] by {
            assert(self.kid_ok(i, r));
            assert(self.kid_ok(i, q));
        }
    }

    /// Returns `true` if the node at `index` has no children.
    pub fn is_leaf(&self, index: usize) -> (b: bool)
        requires
            self.wf(),
            self.has(index),
        ensures
            b == (self.children(index).len() == 0),
    {
        proof {
            assert(self.sound(index as int, 0, (0, 0)));
            if self.kids@[index as int].len() > 0 {
                assert(self.kid_ok(index as int, self.kids@[index as int].len() - 1));
            }
            self.nodes@[index as int].lemma_fields();
        }
        self.nodes[index].is_leaf()
    }

    /// Returns the position of the parent of the node at `index`, or 0
    /// if that node is a root.
    pub fn parent(&self, index: usize) -> (parent: usize)
        requires
            self.wf(),
            self.has(index),
        ensures
            parent == self.parent_of(index),
            parent != 0 ==> self.has(parent),
    {
        proof {
            assert(self.sound(index as int, 0, (0, 0)));
        }
        self.nodes[index].parent
    }

    /// Returns the position of the last child of the node at `index`, or
    /// 0 if it has no children.
    pub fn tail(&self, index: usize) -> (tail: usize)
        requires
            self.wf(),
            self.has(index),
        ensures
            self.children(index).len() == 0 ==> tail == 0,
            self.children(index).len() > 0 ==> tail == self.children(index).last() && self.has(tail),
    {
        proof {
            assert(self.sound(index as int, 0, (0, 0)));
            if self.kids@[index as int].len() > 0 {
                assert(self.kid_ok(index as int, self.kids@[index as int].len() - 1));
            }
        }
        self.nodes[index].child()
    }

    /// Returns the position of the first child of the node at `index`,
    /// or 0 if it has no children.
    pub fn head(&self, index: usize) -> (head: usize)
        requires
            self.wf(),
            self.has(index),
        ensures
            self.children(index).len() == 0 ==> head == 0,
            self.children(index).len() > 0 ==> head == self.children(index)[0] && self.has(head),
    {
        let tail = self.tail(index);
        proof {
            let i = index as int;
            let m = self.kids@[i].len() as int;
            assert(self.sound(i, 0, (0, 0)));
            if m > 0 {
                assert(self.kid_ok(i, m - 1));
                assert(self.sound(tail as int, 0, (0, 0)));
                assert(self.kid_ok(i, 0));
            }
        }
        if tail == 0 {
            0
        } else {
            self.nodes[tail].next()
        }
    }

    /// Returns the position of the sibling behind the node at `index`,
    /// or of the first sibling if that node is the last.
    pub(crate) fn next(&self, index: usize, Ghost(at): Ghost<int>) -> (next: usize)
        requires
            self.wf(),
            self.has(index),
            self.parent_of(index) != 0,
            0 <= at < self.children(self.parent_of(index)).len(),
            self.children(self.parent_of(index))[at] == index,
        ensures
            next == self.children(self.parent_of(index))[succ(at, self.children(self.parent_of(index)).len() as int)],
    {
        proof {
            let i = index as int;
            assert(self.sound(i, 0, (0, 0)));
            let p = self.nodes@[i].parent as int;
            assert(self.sound(p, 0, (0, 0)));
            assert(self.kid_ok(p, at));
        }
        self.nodes[index].next()
    }

    /// Returns the position of the child at place `nth` of the node at
    /// `index`, or `None` if it has no such child.
    pub fn nth_child(&self, index: usize, nth: usize) -> (child: Option<usize>)
        requires
            self.wf(),
            self.has(index),
        ensures
            nth >= self.children(index).len() ==> child is None,
            nth < self.children(index).len() ==> child == Some(self.children(index)[nth as int]),
    {
        if nth < self.degree(index) {
            let mut child = self.head(index);
            let mut at: usize = 0;
            while at < nth
                invariant
                    self.wf(),
                    self.has(index),
                    0 <= at <= nth < self.children(index).len(),
                    child == self.children(index)[at as int],
                decreases nth - at,
            {
                proof {
                    assert(self.sound(index as int, 0, (0, 0)));
                    assert(self.kid_ok(index as int, at as int));
                }
                child = self.next(child, Ghost(at as int));
                at = at + 1;
            }
            Some(child)
        } else {
            None
        }
    }

    /// Removes the first child of the node at `index` from the tree, with
    /// all its descendants.
    pub fn drop_front(&mut self, index: usize)
        requires
            old(self).wf(),
            old(self).has(index),
            old(self).children(index).len() != 0,
        ensures
            final(self).wf(),
            final(self).spec_len() == old(self).spec_len(),
            final(self).children(index) == old(self).children(index).drop_first(),
            final(self).parent_of(old(self).children(index)[0]) == 0,
            forall|i: usize| old(self).has(i) && i != index ==> #[trigger] final(self).children(i) == old(self).children(i),
            forall|i: usize| old(self).has(i) ==> #[trigger] final(self).datum(i) == old(self).datum(i),
            forall|i: usize| old(self).has(i) && i != old(self).children(index)[0] ==> #[trigger] final(self).parent_of(i) == old(
                self,
            ).parent_of(i),
            forall|i: usize| old(self).has(i) ==> #[trigger] final(self).level(i) == old(self).level(i),
    {
        let head = self.head(index);
        self.detach(index, head, Ghost(0));
        proof {
            assert(old(self).children(index).remove(0) =~= old(self).children(index).drop_first());
        }
    }

    /// Removes the last child of the node at `index` from the tree, with
    /// all its descendants.
    pub fn drop_back(&mut self, index: usize)
        requires
            old(self).wf(),
            old(self).has(index),
            old(self).children(index).len() != 0,
        ensures
            final(self).wf(),
            final(self).spec_len() == old(self).spec_len(),
            final(self).children(index) == old(self).children(index).drop_last(),
            final(self).parent_of(old(self).children(index).last()) == 0,
            forall|i: usize| old(self).has(i) && i != index ==> #[trigger] final(self).children(i) == old(self).children(i),
            forall|i: usize| old(self).has(i) ==> #[trigger] final(self).datum(i) == old(self).datum(i),
            forall|i: usize| old(self).has(i) && i != old(self).children(index).last() ==> #[trigger] final(self).parent_of(i)
                == old(self).parent_of(i),
            forall|i: usize| old(self).has(i) ==> #[trigger] final(self).level(i) == old(self).level(i),
    {
        let tail = self.tail(index);
        let ghost m = self.children(index).len() as int;
        self.detach(index, tail, Ghost(m - 1));
        proof {
            assert(old(self).children(index).remove(m - 1) =~= old(self).children(index).drop_last());
        }
    }

    /// Removes the child at place `nth` of the node at `index` from the
    /// tree, with all its descendants.
    pub fn drop_nth(&mut self, index: usize, nth: usize)
        requires
            old(self).wf(),
            old(self).has(index),
            nth < old(self).children(index).len(),
        ensures
            final(self).wf(),
            final(self).spec_len() == old(self).spec_len(),
            final(self).children(index) == old(self).children(index).remove(nth as int),
            final(self).parent_of(old(self).children(index)[nth as int]) == 0,
            forall|i: usize| old(self).has(i) && i != index ==> #[trigger] final(self).children(i) == old(self).children(i),
            forall|i: usize| old(self).has(i) ==> #[trigger] final(self).datum(i) == old(self).datum(i),
            forall|i: usize| old(self).has(i) && i != old(self).children(index)[nth as int] ==> #[trigger] final(self).parent_of(i) == old(self).parent_of(i),
            forall|i: usize| old(self).has(i) ==> #[trigger] final(self).level(i) == old(self).level(i),
    {
        let child = self.nth_child(index, nth).unwrap();
        self.detach(index, child, Ghost(nth as int));
    }

    /// Returns the data of the node at `index`, or `None` for the fake
    /// root of a forest.
    pub fn data(&self, index: usize) -> (data: Option<&T>)
        requires
            self.has(index),
        ensures
            self.datum(index) is None ==> data is None,
            self.datum(index) is Some ==> data is Some && *data.unwrap() == self.datum(index).unwrap(),
    {
        self.nodes[index].data.as_ref()
    }

    /// The pot with other data at one node is well formed, and the
    /// same but for that data.
    proof fn lemma_new_data(before: &Self, after: &Self, index: usize, data: T)
        requires
            before.wf(),
            before.has(index),
            after.kids@ == before.kids@,
            after.rank@ == before.rank@,
            after.depth@ == before.depth@,
            after.deep@ == before.deep@,
            after.nodes@ == before.nodes@.update(index as int, before.nodes@[index as int].with_data(data)),
        ensures
            after.wf(),
            after.spec_len() == before.spec_len(),
            after.datum(index) == Some(data),
            forall|i: usize| before.has(i) ==> #[trigger] after.children(i) == before.children(i),
            forall|i: usize| before.has(i) && i != index ==> #[trigger] after.datum(i) == before.datum(i),
            forall|i: usize| before.has(i) ==> #[trigger] after.parent_of(i) == before.parent_of(i),
            forall|i: usize| before.has(i) ==> #[trigger] after.level(i) == before.level(i),
    {
        before.nodes@[index as int].lemma_with_data(data);
        assert forall|i: int| 1 <= i < after.nodes@.len() implies #[trigger] after.sound(i, 0, (0, 0)) by {
            assert(before.sound(i, 0, (0, 0)));
            let ks = after.kids@[i];
            assert forall|r: int| 0 <= r < ks.len() implies #[trigger] after.kid_ok(i, r) by {
                assert(before.kid_ok(i, r));
            }
            assert forall|r: int| 0 <= r < ks.len() implies after.nodes@[#[trigger] ks[r] as int].size.node_cnt == before.nodes@[ks[r] as int].size.node_cnt by {
                assert(before.kid_ok(i, r));
            }
            lemma_sum_same(before.nodes@, after.nodes@, ks);
        }
    }

    /// Returns the data of the node at `index`, for changing it in place.
    pub fn data_mut(&mut self, index: usize) -> (data: &mut T)
        requires
            old(self).wf(),
            old(self).has(index),
            old(self).datum(index) is Some,
        ensures
            *data == old(self).datum(index).unwrap(),
            final(self).wf(),
            final(self).spec_len() == old(self).spec_len(),
            final(self).datum(index) == Some(*final(data)),
            forall|i: usize| old(self).has(i) ==> #[trigger] final(self).children(i) == old(self).children(i),
            forall|i: usize| old(self).has(i) && i != index ==> #[trigger] final(self).datum(i) == old(self).datum(i),
            forall|i: usize| old(self).has(i) ==> #[trigger] final(self).parent_of(i) == old(self).parent_of(i),
            forall|i: usize| old(self).has(i) ==> #[trigger] final(self).level(i) == old(self).level(i),
    {
        proof {
            old(self).nodes@[index as int].lemma_fields();
        }
        let data = self.nodes[index].data_mut();
        proof {
            let after = after_borrow(*self);
            assert(after.nodes@ =~= old(self).nodes@.update(index as int, old(self).nodes@[index as int].with_data(*final(data))));
            Self::lemma_new_data(old(self), &after, index, *final(data));
        }
        data
    }

    /// Replaces the data of the node at `index`.
    pub fn set_data(&mut self, index: usize, data: T)
        requires
            old(self).wf(),
            old(self).has(index),
        ensures
            final(self).wf(),
            final(self).spec_len() == old(self).spec_len(),
            final(self).datum(index) == Some(data),
            forall|i: usize| old(self).has(i) ==> #[trigger] final(self).children(i) == old(self).children(i),
            forall|i: usize| old(self).has(i) && i != index ==> #[trigger] final(self).datum(i) == old(self).datum(i),
            forall|i: usize| old(self).has(i) ==> #[trigger] final(self).parent_of(i) == old(self).parent_of(i),
            forall|i: usize| old(self).has(i) ==> #[trigger] final(self).level(i) == old(self).level(i),
    {
        self.nodes[index].set_data(data);
        proof {
            old(self).nodes@[index as int].lemma_with_data(data);
            assert forall|i: int| 1 <= i < self.nodes@.len() implies #[trigger] self.sound(i, 0, (0, 0)) by {
                assert(old(self).sound(i, 0, (0, 0)));
                let ks = self.kids@[i];
                assert forall|r: int| 0 <= r < ks.len() implies #[trigger] self.kid_ok(i, r) by {
                    assert(old(self).kid_ok(i, r));
                }
                assert forall|r: int| 0 <= r < ks.len() implies self.nodes@[#[trigger] ks[r] as int].size.node_cnt == old(
                    self,
                ).nodes@[ks[r] as int].size.node_cnt by {
                    assert(old(self).kid_ok(i, r));
                }
                lemma_sum_same(old(self).nodes@, self.nodes@, ks);
            }
        }
    }

    /// A bound on the number of levels below the node at `index`.
    pub closed spec fn room_below(&self, index: usize) -> int {
        self.deep@ - self.depth@[index as int]
    }

    /// The tree below the node at `index`.
    pub closed spec fn shape(&self, index: usize) -> Shape<T>
        decreases self.room_below(index),
    {
        Shape {
            data: self.nodes@[index as int].data.unwrap(),
            children: Seq::new(
                self.kids@[index as int].len(),
                |r: int|
                    {
                        let k = self.kids@[index as int][r];
                        if 0 <= k < self.depth@.len() && self.depth@[k as int] == self.depth@[index as int] + 1
                            && self.depth@[k as int] <= self.deep@ {
                            self.shape(k)
                        } else {
                            arbitrary()
                        }
                    },
            ),
        }
    }

    /// The trees below the nodes at the positions `ks`.
    pub open spec fn shapes(&self, ks: Seq<usize>) -> Seq<Shape<T>> {
        Seq::new(ks.len(), |r: int| self.shape(ks[r]))
    }

    /// The tree below a node holds the node's data above the trees below
    /// its children.
    pub proof fn lemma_shape(&self, index: usize)
        requires
            self.wf(),
            self.has(index),
        ensures
            self.shape(index) == (Shape {
                data: self.datum(index).unwrap(),
                children: self.shapes(self.children(index)),
            }),
    {
        let i = index as int;
        assert(self.sound(i, 0, (0, 0)));
        let ks = self.kids@[i];
        assert forall|r: int| 0 <= r < ks.len() implies #[trigger] self.shape(index).children[r] == self.shape(ks[r]) by {
            assert(self.kid_ok(i, r));
            assert(self.sound(ks[r] as int, 0, (0, 0)));
        }
        assert(self.shape(index).children =~= self.shapes(self.children(index)));
    }

    /// The node counts that nodes keep add up to the number of nodes of
    /// the trees below them.
    proof fn lemma_counts_of_shapes(&self, ks: Seq<usize>)
        requires
            forall|r: int| 0 <= r < ks.len() ==> self.count(#[trigger] ks[r]) == self.shape(ks[r]).node_count(),
        ensures
            self.counts(ks) == count_nodes(self.shapes(ks)),
        decreases ks.len(),
    {
        if ks.len() > 0 {
            let front = ks.drop_last();
            assert forall|r: int| 0 <= r < front.len() implies self.count(#[trigger] front[r]) == self.shape(front[r]).node_count() by {
                assert(front[r] == ks[r]);
            }
            self.lemma_counts_of_shapes(front);
            lemma_count_one(self.shape(ks.last()));
            lemma_count_concat(self.shapes(front), seq![self.shape(ks.last())]);
            assert(self.shapes(ks) =~= self.shapes(front) + seq![self.shape(ks.last())]);
            assert(ks.last() == ks[ks.len() - 1]);
        } else {
            assert(self.shapes(ks) =~= Seq::<Shape<T>>::empty());
        }
    }

    /// A node counts one node more than the trees below its children
    /// have together.
    pub proof fn lemma_forest_count(&self, index: usize)
        requires
            self.wf(),
            self.has(index),
        ensures
            self.count(index) == 1 + count_nodes(self.shapes(self.children(index))),
            self.children(index).len() <= count_nodes(self.shapes(self.children(index))),
    {
        let i = index as int;
        assert(self.sound(i, 0, (0, 0)));
        let ks = self.kids@[i];
        assert forall|r: int| 0 <= r < ks.len() implies self.count(#[trigger] ks[r]) == self.shape(ks[r]).node_count() by {
            assert(self.kid_ok(i, r));
            assert(self.sound(ks[r] as int, 0, (0, 0)));
            self.lemma_size_of_shape(ks[r]);
        }
        self.lemma_counts_of_shapes(ks);
        lemma_count_at_least(self.shapes(ks));
    }

    /// The size that a node keeps is the size of the tree below it: as
    /// many children, and as many nodes.
    pub proof fn lemma_size_of_shape(&self, index: usize)
        requires
            self.wf(),
            self.has(index),
        ensures
            self.children(index).len() == self.shape(index).degree(),
            self.count(index) == self.shape(index).node_count(),
        decreases self.room_below(index),
    {
        let i = index as int;
        self.lemma_shape(index);
        assert(self.sound(i, 0, (0, 0)));
        let ks = self.kids@[i];
        assert forall|r: int| 0 <= r < ks.len() implies self.count(#[trigger] ks[r]) == self.shape(ks[r]).node_count() by {
            assert(self.kid_ok(i, r));
            assert(self.sound(ks[r] as int, 0, (0, 0)));
            self.lemma_size_of_shape(ks[r]);
        }
        self.lemma_counts_of_shapes(ks);
    }

    /// Takes the data out of the root, which makes it a fake root.
    pub fn bare_root(&mut self) -> (data: Option<T>)
        requires
            old(self).wf(),
        ensures
            final(self).wf(),
            data == old(self).datum(ROOT),
            final(self).spec_len() == old(self).spec_len(),
            final(self).datum(ROOT) == None::<T>,
            forall|i: usize| old(self).has(i) ==> #[trigger] final(self).children(i) == old(self).children(i),
            forall|i: usize| old(self).has(i) && i != ROOT ==> #[trigger] final(self).datum(i) == old(self).datum(i),
            forall|i: usize| old(self).has(i) ==> #[trigger] final(self).parent_of(i) == old(self).parent_of(i),
            forall|i: usize| old(self).has(i) ==> #[trigger] final(self).level(i) == old(self).level(i),
    {
        let data = self.nodes[ROOT].data.take();
        proof {
            assert forall|i: int| 1 <= i < self.nodes@.len() implies #[trigger] self.sound(i, 0, (0, 0)) by {
                assert(old(self).sound(i, 0, (0, 0)));
                let ks = self.kids@[i];
                assert forall|r: int| 0 <= r < ks.len() implies #[trigger] self.kid_ok(i, r) by {
                    assert(old(self).kid_ok(i, r));
                }
                assert forall|r: int| 0 <= r < ks.len() implies self.nodes@[#[trigger] ks[r] as int].size.node_cnt == old(
                    self,
                ).nodes@[ks[r] as int].size.node_cnt by {
                    assert(old(self).kid_ok(i, r));
                }
                lemma_sum_same(old(self).nodes@, self.nodes@, ks);
            }
        }
        data
    }

    /// The tree below a node is the same in two pots that agree on every
    /// node of the one but the node at `hole`, which does not stand
    /// below that node.
    pub proof fn lemma_same_below(&self, other: &Self, index: usize, hole: usize)
        requires
            self.wf(),
            other.wf(),
            self.has(index),
            self.level(hole) < self.level(index),
            self.spec_len() <= other.spec_len(),
            forall|i: usize| self.has(i) && i != hole ==> #[trigger] other.children(i) == self.children(i),
            forall|i: usize| self.has(i) && i != hole ==> #[trigger] other.datum(i) == self.datum(i),
        ensures
            other.shape(index) == self.shape(index),
        decreases self.room_below(index),
    {
        let i = index as int;
        self.lemma_shape(index);
        other.lemma_shape(index);
        assert(self.sound(i, 0, (0, 0)));
        let ks = self.children(index);
        assert forall|r: int| 0 <= r < ks.len() implies #[trigger] other.shapes(ks)[r] == self.shapes(ks)[r] by {
            assert(self.kid_ok(i, r));
            assert(self.sound(ks[r] as int, 0, (0, 0)));
            self.lemma_same_below(other, ks[r], hole);
        }
        assert(other.shapes(ks) =~= self.shapes(ks));
    }

    /// The trees below the children of a node are the same in two pots
    /// that agree on every node of the one but that node.
    pub proof fn lemma_same_children(&self, other: &Self, index: usize)
        requires
            self.wf(),
            other.wf(),
            self.has(index),
            self.spec_len() <= other.spec_len(),
            forall|i: usize| self.has(i) && i != index ==> #[trigger] other.children(i) == self.children(i),
            forall|i: usize| self.has(i) && i != index ==> #[trigger] other.datum(i) == self.datum(i),
        ensures
            other.shapes(self.children(index)) == self.shapes(self.children(index)),
    {
        self.lemma_sizes(index);
        let ks = self.children(index);
        assert forall|r: int| 0 <= r < ks.len() implies #[trigger] other.shapes(ks)[r] == self.shapes(ks)[r] by {
            self.lemma_same_below(other, ks[r], index);
        }
        assert(other.shapes(ks) =~= self.shapes(ks));
    }

    /// The pot after `turn` is well formed.
    proof fn lemma_turn(before: &Self, after: &Self, parent: usize, tail: usize, at: int)
        requires
            before.wf(),
            before.has(parent),
            0 <= at < before.kids@[parent as int].len(),
            tail == before.kids@[parent as int][at],
            after.nodes@.len() == before.nodes@.len(),
            after.kids@ == before.kids@.update(
                parent as int,
                before.kids@[parent as int].skip(at + 1) + before.kids@[parent as int].take(at + 1),
            ),
            after.rank@ == Seq::new(
                before.rank@.len(),
                |i: int|
                    if before.nodes@[i].parent == parent {
                        if before.rank@[i] > at {
                            before.rank@[i] - at - 1
                        } else {
                            before.rank@[i] + before.kids@[parent as int].len() - at - 1
                        }
                    } else {
                        before.rank@[i]
                    },
            ),
            after.depth@ == before.depth@,
            after.deep@ == before.deep@,
            forall|i: int|
                0 <= i < before.nodes@.len() ==> #[trigger] after.nodes@[i] == (if i == parent {
                    Node { child: tail, ..before.nodes@[i] }
                } else {
                    before.nodes@[i]
                }),
        ensures
            after.wf(),
    {
        let n = before.nodes@.len() as int;
        let p = parent as int;
        let ks = before.kids@[p];
        let m = ks.len() as int;
        let ks2 = ks.skip(at + 1) + ks.take(at + 1);
        assert(before.sound(p, 0, (0, 0)));
        assert forall|r: int| 0 <= r < m implies #[trigger] ks2[r] == ks[if r + at + 1 < m { r + at + 1 } else { r + at + 1 - m }] by {}
        assert forall|i: int| 1 <= i < n implies #[trigger] after.sound(i, 0, (0, 0)) by {
            assert(before.sound(i, 0, (0, 0)));
            let bks = before.kids@[i];
            let aks = after.kids@[i];
            if i == p {
                assert(aks =~= ks2);
                assert forall|r: int| 0 <= r < aks.len() implies #[trigger] after.kid_ok(i, r) by {
                    let h = if r + at + 1 < m { r + at + 1 } else { r + at + 1 - m };
                    assert(before.kid_ok(p, h));
                }
                lemma_sum_concat(after.nodes@, ks.skip(at + 1), ks.take(at + 1));
                lemma_sum_concat(after.nodes@, ks.take(at + 1), ks.skip(at + 1));
                assert(ks.take(at + 1) + ks.skip(at + 1) =~= ks);
                assert forall|r: int| 0 <= r < m implies after.nodes@[#[trigger] ks[r] as int].size.node_cnt == before.nodes@[ks[r] as int].size.node_cnt by {
                    assert(before.kid_ok(p, r));
                }
                lemma_sum_same(before.nodes@, after.nodes@, ks);
            } else {
                assert(aks =~= bks);
                assert forall|r: int| 0 <= r < aks.len() implies #[trigger] after.kid_ok(i, r) by {
                    assert(before.kid_ok(i, r));
                }
                assert forall|r: int| 0 <= r < bks.len() implies after.nodes@[#[trigger] bks[r] as int].size.node_cnt == before.nodes@[bks[r] as int].size.node_cnt by {
                    assert(before.kid_ok(i, r));
                }
                lemma_sum_same(before.nodes@, after.nodes@, bks);
            }
            let q = before.nodes@[i].parent as int;
            if q != 0 {
                if q == p {
                    assert(after.kids@[q] =~= ks2);
                    let r = before.rank@[i];
                    assert(before.kid_ok(p, r));
                } else {
                    assert(after.kids@[q] =~= before.kids@[q]);
                }
            }
        }
    }

    /// Turns the ring of the children of the node at `parent` so that the
    /// child at `tail` is the last: the children behind it become the
    /// first.
    pub(crate) fn turn(&mut self, parent: usize, tail: usize, Ghost(at): Ghost<int>)
        requires
            old(self).wf(),
            old(self).has(parent),
            0 <= at < old(self).children(parent).len(),
            tail == old(self).children(parent)[at],
        ensures
            final(self).wf(),
            final(self).spec_len() == old(self).spec_len(),
            final(self).children(parent) == old(self).children(parent).skip(at + 1) + old(self).children(parent).take(at + 1),
            forall|i: usize| old(self).has(i) && i != parent ==> #[trigger] final(self).children(i) == old(self).children(i),
            forall|i: usize| old(self).has(i) ==> #[trigger] final(self).datum(i) == old(self).datum(i),
            forall|i: usize| old(self).has(i) ==> #[trigger] final(self).parent_of(i) == old(self).parent_of(i),
            forall|i: usize| old(self).has(i) ==> #[trigger] final(self).level(i) == old(self).level(i),
    {
        self.nodes[parent].set_child(tail);
        proof {
            let was = *old(self);
            let p = parent as int;
            self.kids = Ghost(was.kids@.update(p, was.kids@[p].skip(at + 1) + was.kids@[p].take(at + 1)));
            self.rank = Ghost(
                Seq::new(
                    was.rank@.len(),
                    |i: int|
                        if was.nodes@[i].parent == parent {
                            if was.rank@[i] > at {
                                was.rank@[i] - at - 1
                            } else {
                                was.rank@[i] + was.kids@[p].len() - at - 1
                            }
                        } else {
                            was.rank@[i]
                        },
                ),
            );
            Self::lemma_turn(old(self), self, parent, tail, at);
        }
    }

    /// Plants the tree that `tuple` stands for behind the children of the
    /// node at `index`.
    pub fn append_tr<Tuple: TupleTree<Data = T>>(&mut self, index: usize, tuple: Tuple)
        requires
            old(self).wf(),
            old(self).has(index),
            old(self).spec_len() + tuple.shape().node_count() <= u32::MAX,
        ensures
            final(self).wf(),
            final(self).spec_len() == old(self).spec_len() + tuple.shape().node_count(),
            final(self).children(index).drop_last() == old(self).children(index),
            final(self).children(index).len() == old(self).children(index).len() + 1,
            final(self).shape(final(self).children(index).last()) == tuple.shape(),
            forall|i: usize| old(self).has(i) && i != index ==> #[trigger] final(self).children(i) == old(self).children(i),
            forall|i: usize| old(self).has(i) ==> #[trigger] final(self).datum(i) == old(self).datum(i),
            forall|i: usize| old(self).has(i) ==> #[trigger] final(self).parent_of(i) == old(self).parent_of(i),
            forall|i: usize| old(self).has(i) ==> #[trigger] final(self).level(i) == old(self).level(i),
    {
        tuple.construct_all_nodes(index, self);
        proof {
            assert(self.children(index).drop_last() =~= old(self).children(index));
        }
    }

    /// Plants the tree that `tuple` stands for in front of the children
    /// of the node at `index`.
    pub fn prepend_tr<Tuple: TupleTree<Data = T>>(&mut self, index: usize, tuple: Tuple)
        requires
            old(self).wf(),
            old(self).has(index),
            old(self).spec_len() + tuple.shape().node_count() <= u32::MAX,
        ensures
            final(self).wf(),
            final(self).spec_len() == old(self).spec_len() + tuple.shape().node_count(),
            final(self).children(index).drop_first() == old(self).children(index),
            final(self).children(index).len() == old(self).children(index).len() + 1,
            final(self).shape(final(self).children(index)[0]) == tuple.shape(),
            forall|i: usize| old(self).has(i) && i != index ==> #[trigger] final(self).children(i) == old(self).children(i),
            forall|i: usize| old(self).has(i) ==> #[trigger] final(self).datum(i) == old(self).datum(i),
            forall|i: usize| old(self).has(i) ==> #[trigger] final(self).parent_of(i) == old(self).parent_of(i),
            forall|i: usize| old(self).has(i) ==> #[trigger] final(self).level(i) == old(self).level(i),
    {
        self.insert_tr(index, 0, tuple);
        proof {
            let ks = old(self).children(index);
            let ks2 = self.children(index);
            assert(ks2.drop_first() =~= ks2.take(0) + ks2.skip(1));
        }
    }

    /// Plants the tree that `tuple` stands for among the children of the
    /// node at `index`, at place `nth`.
    pub fn insert_tr<Tuple: TupleTree<Data = T>>(&mut self, index: usize, nth: usize, tuple: Tuple)
        requires
            old(self).wf(),
            old(self).has(index),
            nth <= old(self).children(index).len(),
            old(self).spec_len() + tuple.shape().node_count() <= u32::MAX,
        ensures
            final(self).wf(),
            final(self).spec_len() == old(self).spec_len() + tuple.shape().node_count(),
            final(self).children(index).len() == old(self).children(index).len() + 1,
            final(self).children(index).take(nth as int) + final(self).children(index).skip(nth + 1) == old(self).children(index),
            final(self).shape(final(self).children(index)[nth as int]) == tuple.shape(),
            forall|i: usize| old(self).has(i) && i != index ==> #[trigger] final(self).children(i) == old(self).children(i),
            forall|i: usize| old(self).has(i) ==> #[trigger] final(self).datum(i) == old(self).datum(i),
            forall|i: usize| old(self).has(i) ==> #[trigger] final(self).parent_of(i) == old(self).parent_of(i),
            forall|i: usize| old(self).has(i) ==> #[trigger] final(self).level(i) == old(self).level(i),
    {
        let ghost ks = self.children(index);
        let m = self.degree(index);
        let tail = self.tail(index);
        if nth != 0 && nth != m {
            let before = self.nth_child(index, nth - 1).unwrap();
            self.turn(index, before, Ghost(nth - 1));
        }
        let ghost turned = self.children(index);
        let ghost mid = *self;
        let child = tuple.construct_all_nodes(index, self);
        let ghost grown = *self;
        proof {
            assert(mid.has(index));
        }
        if nth != m {
            proof {
                if nth == 0 {
                    assert(self.children(index)[m - 1] == tail);
                } else {
                    assert(turned =~= ks.skip(nth as int) + ks.take(nth as int));
                    assert(self.children(index)[m - 1 - nth] == tail);
                }
            }
            self.turn(index, tail, Ghost(if nth == 0 { m - 1 } else { m - 1 - nth }));
        }
        proof {
            let ks2 = self.children(index);
            if nth == m {
                assert(ks2 =~= ks.push(child));
            } else if nth == 0 {
                assert(ks2 =~= seq![child] + ks);
            } else {
                assert(ks2 =~= ks.take(nth as int) + seq![child] + ks.skip(nth as int));
            }
            assert(ks2[nth as int] == child);
            assert(ks2.take(nth as int) + ks2.skip(nth + 1) =~= ks);
            assert(grown.has(child));
            grown.lemma_sizes(index);
            assert(grown.children(index).last() == child);
            grown.lemma_same_below(self, child, index);
            assert forall|i: usize| old(self).has(i) && i != index implies #[trigger] self.children(i) == old(self).children(i) by {
                assert(mid.has(i));
                assert(grown.has(i));
                assert(mid.children(i) == old(self).children(i));
                assert(grown.children(i) == mid.children(i));
            }
            assert forall|i: usize| old(self).has(i) implies #[trigger] self.datum(i) == old(self).datum(i) by {
                assert(mid.has(i));
                assert(grown.has(i));
                assert(mid.datum(i) == old(self).datum(i));
                assert(grown.datum(i) == mid.datum(i));
            }
            assert forall|i: usize| old(self).has(i) implies #[trigger] self.parent_of(i) == old(self).parent_of(i) by {
                assert(mid.has(i));
                assert(grown.has(i));
                assert(mid.parent_of(i) == old(self).parent_of(i));
                assert(grown.parent_of(i) == mid.parent_of(i));
            }
            assert forall|i: usize| old(self).has(i) implies #[trigger] self.level(i) == old(self).level(i) by {
                assert(mid.has(i));
                assert(grown.has(i));
                assert(mid.level(i) == old(self).level(i));
                assert(grown.level(i) == mid.level(i));
            }
        }
    }

    /// Plants the trees that `tuple` stands for behind the children of
    /// the node at `index`.
    pub fn append_fr<Tuple: TupleForest<Data = T>>(&mut self, index: usize, tuple: Tuple)
        requires
            old(self).wf(),
            old(self).has(index),
            old(self).spec_len() + count_nodes(tuple.shapes()) <= u32::MAX,
        ensures
            final(self).wf(),
            final(self).spec_len() == old(self).spec_len() + count_nodes(tuple.shapes()),
            final(self).children(index).len() == old(self).children(index).len() + tuple.shapes().len(),
            final(self).children(index).take(old(self).children(index).len() as int) == old(self).children(index),
            final(self).shapes(final(self).children(index)) == old(self).shapes(old(self).children(index)) + tuple.shapes(),
            forall|i: usize| old(self).has(i) && i != index ==> #[trigger] final(self).children(i) == old(self).children(i),
            forall|i: usize| old(self).has(i) ==> #[trigger] final(self).datum(i) == old(self).datum(i),
            forall|i: usize| old(self).has(i) ==> #[trigger] final(self).parent_of(i) == old(self).parent_of(i),
            forall|i: usize| old(self).has(i) ==> #[trigger] final(self).level(i) == old(self).level(i),
    {
        tuple.construct_all_nodes(index, self);
    }

    /// Plants the trees that `tuple` stands for in front of the children
    /// of the node at `index`.
    pub fn prepend_fr<Tuple: TupleForest<Data = T>>(&mut self, index: usize, tuple: Tuple)
        requires
            old(self).wf(),
            old(self).has(index),
            old(self).spec_len() + count_nodes(tuple.shapes()) <= u32::MAX,
        ensures
            final(self).wf(),
            final(self).spec_len() == old(self).spec_len() + count_nodes(tuple.shapes()),
            final(self).children(index).len() == old(self).children(index).len() + tuple.shapes().len(),
            final(self).children(index).skip(tuple.shapes().len() as int) == old(self).children(index),
            final(self).shapes(final(self).children(index)) == tuple.shapes() + old(self).shapes(old(self).children(index)),
            forall|i: usize| old(self).has(i) && i != index ==> #[trigger] final(self).children(i) == old(self).children(i),
            forall|i: usize| old(self).has(i) ==> #[trigger] final(self).datum(i) == old(self).datum(i),
            forall|i: usize| old(self).has(i) ==> #[trigger] final(self).parent_of(i) == old(self).parent_of(i),
            forall|i: usize| old(self).has(i) ==> #[trigger] final(self).level(i) == old(self).level(i),
    {
        let ghost ks = self.children(index);
        let m = self.degree(index);
        let tail = self.tail(index);
        tuple.construct_all_nodes(index, self);
        let ghost grown = *self;
        if tail != 0 {
            proof {
                assert(self.children(index).take(m as int)[m - 1] == tail);
            }
            self.turn(index, tail, Ghost(m - 1));
        }
        proof {
            let all = grown.children(index);
            let ks2 = self.children(index);
            let k = tuple.shapes().len() as int;
            assert(all.take(m as int) =~= ks);
            if tail != 0 {
                assert(ks2 =~= all.skip(m as int) + all.take(m as int));
            } else {
                assert(ks2 =~= all);
                assert(all.skip(0) =~= all);
            }
            assert(ks2.skip(k) =~= ks);
            grown.lemma_sizes(index);
            assert forall|r: int| 0 <= r < ks2.len() implies #[trigger] self.shapes(ks2)[r] == (tuple.shapes() + old(self).shapes(ks))[r] by {
                let c = ks2[r];
                let h = if r < k { r + m } else { r - k };
                assert(c == all[h]);
                grown.lemma_same_below(self, c, index);
                assert(grown.shapes(all)[h] == (old(self).shapes(ks) + tuple.shapes())[h]);
            }
            assert(self.shapes(ks2) =~= tuple.shapes() + old(self).shapes(ks));
            assert forall|i: usize| old(self).has(i) && i != index implies #[trigger] self.children(i) == old(self).children(i) by {
                assert(grown.has(i));
                assert(grown.children(i) == old(self).children(i));
            }
            assert forall|i: usize| old(self).has(i) implies #[trigger] self.datum(i) == old(self).datum(i) by {
                assert(grown.has(i));
                assert(grown.datum(i) == old(self).datum(i));
            }
            assert forall|i: usize| old(self).has(i) implies #[trigger] self.parent_of(i) == old(self).parent_of(i) by {
                assert(grown.has(i));
                assert(grown.parent_of(i) == old(self).parent_of(i));
            }
            assert forall|i: usize| old(self).has(i) implies #[trigger] self.level(i) == old(self).level(i) by {
                assert(grown.has(i));
                assert(grown.level(i) == old(self).level(i));
            }
        }
    }
}

} // verus!
