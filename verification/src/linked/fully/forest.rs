//! `Forest` composed of disjoint `Tree`s.

use vstd::prelude::*;
use super::iter::{Iter, IterMut};
use super::onto_iter::OntoIter;
use super::node::{Link, Node};
use super::tree::Tree;
use crate::bfs::{BfsForest, Moved, Splitted};
use crate::shape::{cloned_forest, cloned_tree, count_nodes, lemma_count_at_least, lemma_count_take, Shape};
use crate::size::Size;

verus! {

/// One place of the ring: the links to its neighbours and, while it is
/// occupied, the tree that stands there.
pub struct Room<T> {
    pub(crate) link: Link,
    pub(crate) tree: Option<Tree<T>>,
}

/// An ordered list of trees. The trees stand in rooms, which are linked
/// into one ring; the forest names the room of the last tree. A room
/// that a tree has left is kept for the next tree to come.
pub struct Forest<T> {
    rooms: Vec<Room<T>>,
    child: Option<usize>,
    spare: Vec<usize>,
    order: Ghost<Seq<usize>>,
}

/// The position after `i` on a ring of `n` places.
pub open spec fn succ(i: int, n: int) -> int {
    if i + 1 < n { i + 1 } else { 0 }
}

/// The position before `i` on a ring of `n` places.
pub open spec fn pred(i: int, n: int) -> int {
    if i > 0 { i - 1 } else { n - 1 }
}

impl<T> Forest<T> {
    /// The room at position `i` points to the rooms at the positions
    /// before and after it.
    pub closed spec fn linked(&self, i: int) -> bool {
        let n = self.order@.len() as int;
        let link = self.rooms@[self.order@[i] as int].link;
        &&& link.next == self.order@[succ(i, n)]
        &&& link.prev == self.order@[pred(i, n)]
    }

    /// The rooms of the trees are linked into one ring in the order of the
    /// trees, and the spare rooms are those that hold no tree.
    pub closed spec fn ring_wf(&self) -> bool {
        let n = self.order@.len() as int;
        &&& self.order@.no_duplicates()
        &&& self.spare@.no_duplicates()
        &&& n + self.spare@.len() == self.rooms@.len()
        &&& forall|i: int| 0 <= i < n ==> #[trigger] self.order@[i] < self.rooms@.len()
        &&& forall|i: int| 0 <= i < n ==> self.rooms@[#[trigger] self.order@[i] as int].tree is Some
        &&& forall|i: int| 0 <= i < n ==> #[trigger] self.linked(i)
        &&& forall|k: int| 0 <= k < self.spare@.len() ==> #[trigger] self.spare@[k] < self.rooms@.len()
        &&& forall|k: int| 0 <= k < self.spare@.len() ==> self.rooms@[#[trigger] self.spare@[k] as int].tree is None
        &&& (n == 0 ==> self.child is None)
        &&& (n > 0 ==> self.child == Some(self.order@[n - 1]))
    }

    /// The ring of the forest is well formed, and so is every tree of the
    /// forest.
    pub closed spec fn wf(&self) -> bool
        decreases self,
    {
        &&& self.ring_wf()
        &&& forall|r: int| 0 <= r < self.rooms@.len() ==> (#[trigger] self.rooms@[r]).tree is Some ==> self.rooms@[r].tree.unwrap().wf()
    }

    /// The trees of the forest, from the first to the last.
    pub closed spec fn view(&self) -> Seq<Shape<T>>
        decreases self,
    {
        Seq::new(self.order@.len(), |i: int| {
            let r = self.order@[i] as int;
            if 0 <= r < self.rooms@.len() && self.rooms@[r].tree is Some {
                self.rooms@[r].tree.unwrap().view()
            } else {
                arbitrary()
            }
        })
    }

    /// Makes an empty forest.
    pub fn new() -> (forest: Self)
        ensures
            forest.wf(),
            forest@ == Seq::<Shape<T>>::empty(),
    {
        Forest { rooms: Vec::new(), child: None, spare: Vec::new(), order: Ghost(Seq::empty()) }
    }

    /// Returns `true` if the forest holds no tree.
    pub fn is_empty(&self) -> (b: bool)
        requires
            self.wf(),
        ensures
            b == (self@.len() == 0),
    {
        self.child.is_none()
    }

    /// Returns the number of trees in the forest.
    pub fn degree(&self) -> (n: usize)
        requires
            self.wf(),
        ensures
            n == self@.len(),
    {
        self.rooms.len() - self.spare.len()
    }

    /// Returns the number of nodes of all the trees together. Every node
    /// is visited to count them.
    pub fn node_count(&self) -> (n: usize)
        requires
            self.wf(),
            count_nodes(self@) <= usize::MAX,
        ensures
            n == count_nodes(self@),
        decreases self,
    {
        let mut total: usize = 0;
        let mut i: usize = 0;
        let n = self.degree();
        let mut r: usize = match self.head() {
            Some(h) => h,
            None => 0,
        };
        proof {
            self.lemma_ring();
            assert(self@.take(0) =~= Seq::<Shape<T>>::empty());
        }
        while i < n
            invariant
                self.wf(),
                n == self@.len(),
                n == self.ring().len(),
                0 <= i <= n,
                i < n ==> r == self.ring()[i as int],
                total == count_nodes(self@.take(i as int)),
                count_nodes(self@) <= usize::MAX,
            decreases n - i,
        {
            proof {
                lemma_count_take(self@, i as int);
            }
            let node = self.node(r, Ghost(i as int));
            proof {
                self.lodger(r).lemma_root();
            }
            let c = node.node_count();
            total = total + c;
            r = self.next_room(r, Ghost(i as int));
            i = i + 1;
        }
        proof {
            assert(self@.take(n as int) =~= self@);
        }
        total
    }

    /// The room of the last tree, or `None` if there is no tree.
    pub(crate) fn tail(&self) -> (r: Option<usize>)
        requires
            self.wf(),
        ensures
            self.ring().len() == 0 ==> r is None,
            self.ring().len() > 0 ==> r == Some(self.ring()[self.ring().len() - 1]),
    {
        self.child
    }

    /// The room of the first tree, or `None` if there is no tree.
    pub(crate) fn head(&self) -> (r: Option<usize>)
        requires
            self.wf(),
        ensures
            self.ring().len() == 0 ==> r is None,
            self.ring().len() > 0 ==> r == Some(self.ring()[0]),
    {
        match self.child {
            Some(t) => {
                proof {
                    assert(self.linked(self.order@.len() - 1));
                }
                Some(self.rooms[t].link.next)
            },
            None => None,
        }
    }

    /// The room that follows room `r` on the ring.
    pub(crate) fn next_room(&self, r: usize, Ghost(i): Ghost<int>) -> (q: usize)
        requires
            self.wf(),
            0 <= i < self.ring().len(),
            r == self.ring()[i],
        ensures
            q == self.ring()[succ(i, self.ring().len() as int)],
    {
        proof {
            assert(self.linked(i));
        }
        self.rooms[r].link.next
    }

    /// The room that precedes room `r` on the ring.
    pub(crate) fn prev_room(&self, r: usize, Ghost(i): Ghost<int>) -> (q: usize)
        requires
            self.wf(),
            0 <= i < self.ring().len(),
            r == self.ring()[i],
        ensures
            q == self.ring()[pred(i, self.ring().len() as int)],
    {
        proof {
            assert(self.linked(i));
        }
        self.rooms[r].link.prev
    }

    /// The root node of the tree in room `r`.
    pub(crate) fn node(&self, r: usize, Ghost(i): Ghost<int>) -> (node: &Node<T>)
        requires
            self.wf(),
            0 <= i < self.ring().len(),
            r == self.ring()[i],
        ensures
            node.wf(),
            node@ == self@[i],
            *node == self.lodger(r).spec_root(),
    {
        self.rooms[r].tree.as_ref().unwrap().root()
    }

    /// This forest is `before` but for the root of the tree in room `r`,
    /// which is `node`.
    pub closed spec fn replaced(&self, before: &Self, r: usize, node: Node<T>) -> bool {
        &&& self.order@ == before.order@
        &&& self.spare@ == before.spare@
        &&& self.child == before.child
        &&& self.rooms@.len() == before.rooms@.len()
        &&& r < self.rooms@.len()
        &&& forall|q: int| 0 <= q < before.rooms@.len() && q != r ==> #[trigger] self.rooms@[q] == before.rooms@[q]
        &&& self.rooms@[r as int].link == before.rooms@[r as int].link
        &&& before.rooms@[r as int].tree is Some
        &&& self.rooms@[r as int].tree is Some
        &&& self.rooms@[r as int].tree.unwrap().spec_root() == node
    }

    /// Replacing the root of one tree keeps the ring, and changes the view
    /// at that tree's position only.
    pub proof fn lemma_replaced(&self, before: &Self, r: usize, node: Node<T>)
        requires
            self.replaced(before, r, node),
            before.wf(),
        ensures
            self.ring() == before.ring(),
            self.lodger(r).spec_root() == node,
            node.wf() ==> self.wf(),
            forall|i: int| 0 <= i < before.ring().len() && #[trigger] before.ring()[i] == r ==> self@ == before@.update(i, node@),
            forall|j: int| 0 <= j < before.ring().len() && #[trigger] before.ring()[j] != r ==> self.lodger(before.ring()[j]) == before.lodger(before.ring()[j]),
    {
        broadcast use Tree::lemma_root;
        assert forall|j: int| 0 <= j < before.order@.len() implies #[trigger] self.linked(j) by {
            assert(before.linked(j));
        }
        assert(self.ring_wf());
        if node.wf() {
            assert forall|q: int| 0 <= q < self.rooms@.len() && (#[trigger] self.rooms@[q]).tree is Some implies self.rooms@[q].tree.unwrap().wf() by {
                if q != r {
                    assert(self.rooms@[q] == before.rooms@[q]);
                }
            }
            assert(self.wf());
        }
        assert forall|i: int| 0 <= i < before.ring().len() && #[trigger] before.ring()[i] == r implies self@ == before@.update(i, node@) by {
            assert forall|j: int| 0 <= j < before.order@.len() implies #[trigger] self@[j] == before@.update(i, node@)[j] by {
                if j != i {
                    assert(before.order@[j] != r);
                    assert(self.rooms@[before.order@[j] as int] == before.rooms@[before.order@[j] as int]);
                }
            }
            assert(self@ =~= before@.update(i, node@));
        }
    }

    /// The root node of the tree in room `r`, for changing it in place.
    pub(crate) fn node_mut(&mut self, r: usize, Ghost(i): Ghost<int>) -> (node: &mut Node<T>)
        requires
            old(self).wf(),
            0 <= i < old(self).ring().len(),
            r == old(self).ring()[i],
        ensures
            node.wf(),
            node@ == old(self)@[i],
            *node == old(self).lodger(r).spec_root(),
            final(self).replaced(old(self), r, *final(node)),
            final(self).ring() == old(self).ring(),
            final(node).wf() ==> final(self).wf(),
            final(self)@ == old(self)@.update(i, final(node)@),
    {
        let node = self.rooms[r].tree.as_mut().unwrap().root_mut();
        proof {
            let after = after_borrow(*self);
            assert(after.replaced(old(self), r, *final(node)));
            after.lemma_replaced(old(self), r, *final(node));
        }
        node
    }

    /// Returns the first tree's root, or `None` if the forest is empty.
    pub fn first(&self) -> (node: Option<&Node<T>>)
        requires
            self.wf(),
        ensures
            self@.len() == 0 ==> node is None,
            self@.len() > 0 ==> node is Some && node.unwrap().wf() && node.unwrap()@ == self@[0],
    {
        match self.head() {
            Some(h) => Some(self.node(h, Ghost(0))),
            None => None,
        }
    }

    /// Returns the last tree's root, or `None` if the forest is empty.
    pub fn last(&self) -> (node: Option<&Node<T>>)
        requires
            self.wf(),
        ensures
            self@.len() == 0 ==> node is None,
            self@.len() > 0 ==> node is Some && node.unwrap().wf() && node.unwrap()@ == self@[self@.len() - 1],
    {
        match self.tail() {
            Some(t) => Some(self.node(t, Ghost(self@.len() - 1))),
            None => None,
        }
    }

    /// Returns the first tree's root for changing it in place, or `None`
    /// if the forest is empty.
    pub fn first_mut(&mut self) -> (node: Option<&mut Node<T>>)
        requires
            old(self).wf(),
        ensures
            old(self)@.len() == 0 ==> node is None && *final(self) == *old(self),
            old(self)@.len() > 0 ==> node is Some && node.unwrap().wf() && node.unwrap()@ == old(self)@[0]
                && final(self)@ == old(self)@.update(0, final(node.unwrap())@)
                && (final(node.unwrap()).wf() ==> final(self).wf()),
    {
        match self.head() {
            Some(h) => Some(self.node_mut(h, Ghost(0))),
            None => None,
        }
    }

    /// Returns the last tree's root for changing it in place, or `None`
    /// if the forest is empty.
    pub fn last_mut(&mut self) -> (node: Option<&mut Node<T>>)
        requires
            old(self).wf(),
        ensures
            old(self)@.len() == 0 ==> node is None && *final(self) == *old(self),
            old(self)@.len() > 0 ==> node is Some && node.unwrap().wf() && node.unwrap()@ == old(self)@[old(self)@.len() - 1]
                && final(self)@ == old(self)@.update(old(self)@.len() - 1, final(node.unwrap())@)
                && (final(node.unwrap()).wf() ==> final(self).wf()),
    {
        match self.tail() {
            Some(t) => Some(self.node_mut(t, Ghost(self@.len() - 1))),
            None => None,
        }
    }

    /// Provides a forward iterator over the roots of the trees.
    pub fn iter(&self) -> (iter: Iter<'_, T>)
        requires
            self.wf(),
        ensures
            iter.wf(),
            iter@ == self@,
            iter.source() == *self,
    {
        Iter::new(self)
    }

    /// Provides a forward iterator over the roots of the trees that lets
    /// each root be changed in place.
    pub fn iter_mut(&mut self) -> (iter: IterMut<'_, T>)
        requires
            old(self).wf(),
        ensures
            iter.wf(),
            iter.pos@ == 0,
            *iter.forest == *old(self),
            *final(iter.forest) == *final(self),
    {
        IterMut::new(self)
    }

    /// Provides an iterator over the trees that can put trees in and take
    /// trees out on its way.
    pub fn onto_iter(&mut self) -> (iter: OntoIter<'_, T>)
        requires
            old(self).wf(),
        ensures
            iter.wf(),
            *iter.forest == *old(self),
            *final(iter.forest) == *final(self),
            iter.rest@ == old(self).ring(),
    {
        OntoIter::new(self)
    }

    /// Adds the trees that `iter` hands out behind the trees of the
    /// forest, one after the other.
    pub fn extend(&mut self, iter: IntoIter<T>)
        requires
            old(self).wf(),
            iter.wf(),
        ensures
            final(self).wf(),
            final(self)@ == old(self)@ + iter@,
    {
        let mut rest = iter;
        loop
            invariant
                self.wf(),
                rest.wf(),
                self@ + rest@ == old(self)@ + iter@,
            decreases rest@.len(),
        {
            let ghost theirs = rest@;
            let ghost mine = self@;
            match rest.next() {
                Some(tree) => {
                    self.push_back(tree);
                    proof {
                        assert(seq![tree@] + rest@ =~= theirs);
                        assert(self@ + rest@ =~= mine + theirs);
                    }
                },
                None => {
                    proof {
                        assert(self@ + rest@ =~= self@);
                    }
                    return ;
                },
            }
        }
    }

    /// Makes the forest of the trees of `trees`, in their order.
    pub fn from_iter(trees: Vec<Tree<T>>) -> (forest: Self)
        requires
            forall|i: int| 0 <= i < trees@.len() ==> (#[trigger] trees@[i]).wf(),
        ensures
            forest.wf(),
            forest@.len() == trees@.len(),
            forall|i: int| 0 <= i < trees@.len() ==> forest@[i] == (#[trigger] trees@[i])@,
    {
        let mut rest = trees;
        let mut forest = Forest::new();
        loop
            invariant
                forest.wf(),
                rest@.len() <= trees@.len(),
                rest@ == trees@.take(rest@.len() as int),
                forall|i: int| 0 <= i < trees@.len() ==> (#[trigger] trees@[i]).wf(),
                forest@.len() == trees@.len() - rest@.len(),
                forall|i: int| rest@.len() <= i < trees@.len() ==> forest@[i - rest@.len()] == (#[trigger] trees@[i])@,
            decreases rest@.len(),
        {
            let ghost n = rest@.len() as int;
            let ghost before = forest@;
            match rest.pop() {
                Some(tree) => {
                    proof {
                        assert(tree == trees@[n - 1]);
                        assert(rest@ =~= trees@.take(n - 1));
                    }
                    forest.push_front(tree);
                    proof {
                        assert forall|i: int| rest@.len() <= i < trees@.len() implies forest@[i - rest@.len()] == (#[trigger] trees@[i])@ by {
                            if i >= n {
                                assert(forest@[i - n + 1] == before[i - n]);
                            }
                        }
                    }
                },
                None => {
                    return forest;
                },
            }
        }
    }

    /// Turns the forest into an iterator that hands out its trees, from
    /// the first to the last.
    pub fn into_iter(self) -> (iter: IntoIter<T>)
        requires
            self.wf(),
        ensures
            iter.wf(),
            iter@ == self@,
    {
        IntoIter { forest: self }
    }

    /// Provides the visits of the nodes of the trees in a breadth-first
    /// manner, with the size of the forest.
    pub fn bfs(&self) -> (bfs: BfsForest<Splitted<'_, T>>)
        requires
            self.wf(),
            count_nodes(self@) <= u32::MAX,
        ensures
            bfs.iter.wf(),
            bfs.iter@ == self@,
            bfs.size.degree == self@.len(),
            bfs.size.node_cnt == count_nodes(self@),
    {
        proof {
            lemma_count_at_least(self@);
        }
        let degree = self.degree();
        let count = self.node_count();
        BfsForest::from(Splitted::from_forest(self), Size { degree: degree as u32, node_cnt: count as u32 })
    }

    /// Takes the trees apart in a breadth-first manner and provides the
    /// visits of their nodes, with the size of the forest.
    pub fn into_bfs(self) -> (bfs: BfsForest<Moved<T>>)
        requires
            self.wf(),
            count_nodes(self@) <= u32::MAX,
        ensures
            bfs.iter.wf(),
            bfs.iter@ == self@,
            bfs.size.degree == self@.len(),
            bfs.size.node_cnt == count_nodes(self@),
    {
        proof {
            lemma_count_at_least(self@);
        }
        let degree = self.degree();
        let count = self.node_count();
        BfsForest::from(Moved::from_forest(self), Size { degree: degree as u32, node_cnt: count as u32 })
    }

    /// Adds the tree as the first tree of the forest.
    pub fn push_front(&mut self, tree: Tree<T>)
        requires
            old(self).wf(),
            tree.wf(),
        ensures
            final(self).wf(),
            final(self)@ == seq![tree@] + old(self)@,
    {
        match self.tail() {
            Some(t) => {
                self.link_in(t, false, tree, Ghost(0));
            },
            None => {
                self.found(tree);
            },
        }
        proof {
            assert(self@ =~= seq![tree@] + old(self)@);
        }
    }

    /// Adds the tree as the last tree of the forest.
    pub fn push_back(&mut self, tree: Tree<T>)
        requires
            old(self).wf(),
            tree.wf(),
        ensures
            final(self).wf(),
            final(self)@ == old(self)@.push(tree@),
    {
        match self.tail() {
            Some(t) => {
                self.link_in(t, true, tree, Ghost(self@.len() as int));
            },
            None => {
                self.found(tree);
            },
        }
        proof {
            assert(self@ =~= old(self)@.push(tree@));
        }
    }

    /// Removes and returns the first tree, or `None` if the forest is
    /// empty.
    pub fn pop_front(&mut self) -> (tree: Option<Tree<T>>)
        requires
            old(self).wf(),
        ensures
            final(self).wf(),
            old(self)@.len() == 0 ==> tree is None && final(self)@ == old(self)@,
            old(self)@.len() > 0 ==> tree is Some && tree.unwrap().wf() && tree.unwrap()@ == old(self)@[0]
                && final(self)@ == old(self)@.drop_first(),
    {
        match self.head() {
            Some(h) => {
                let tree = self.unlink(h, Ghost(0));
                proof {
                    assert(self@ =~= old(self)@.drop_first());
                }
                Some(tree)
            },
            None => None,
        }
    }

    /// Removes and returns the last tree, or `None` if the forest is
    /// empty.
    pub fn pop_back(&mut self) -> (tree: Option<Tree<T>>)
        requires
            old(self).wf(),
        ensures
            final(self).wf(),
            old(self)@.len() == 0 ==> tree is None && final(self)@ == old(self)@,
            old(self)@.len() > 0 ==> tree is Some && tree.unwrap().wf() && tree.unwrap()@ == old(self)@.last()
                && final(self)@ == old(self)@.drop_last(),
    {
        match self.tail() {
            Some(t) => {
                let tree = self.unlink(t, Ghost(self@.len() - 1));
                proof {
                    assert(self@ =~= old(self)@.drop_last());
                }
                Some(tree)
            },
            None => None,
        }
    }

    /// Adds all the trees of `forest` in front of this forest's trees,
    /// in their order.
    pub fn prepend(&mut self, forest: Forest<T>)
        requires
            old(self).wf(),
            forest.wf(),
        ensures
            final(self).wf(),
            final(self)@ == forest@ + old(self)@,
    {
        let mut rest = forest;
        loop
            invariant
                self.wf(),
                rest.wf(),
                rest@ + self@ == forest@ + old(self)@,
            decreases rest@.len(),
        {
            let ghost theirs = rest@;
            let ghost mine = self@;
            match rest.pop_back() {
                Some(tree) => {
                    self.push_front(tree);
                    proof {
                        assert(rest@.push(tree@) =~= theirs);
                        assert(rest@ + self@ =~= theirs + mine);
                    }
                },
                None => {
                    proof {
                        assert(rest@ + self@ =~= self@);
                    }
                    return ;
                },
            }
        }
    }

    /// Adds all the trees of `forest` behind this forest's trees, in
    /// their order.
    pub fn append(&mut self, forest: Forest<T>)
        requires
            old(self).wf(),
            forest.wf(),
        ensures
            final(self).wf(),
            final(self)@ == old(self)@ + forest@,
    {
        let mut rest = forest;
        loop
            invariant
                self.wf(),
                rest.wf(),
                self@ + rest@ == old(self)@ + forest@,
            decreases rest@.len(),
        {
            let ghost theirs = rest@;
            let ghost mine = self@;
            match rest.pop_front() {
                Some(tree) => {
                    self.push_back(tree);
                    proof {
                        assert(seq![tree@] + rest@ =~= theirs);
                        assert(self@ + rest@ =~= mine + theirs);
                    }
                },
                None => {
                    proof {
                        assert(self@ + rest@ =~= self@);
                    }
                    return ;
                },
            }
        }
    }

    /// The rooms of the ring, from the first tree to the last.
    pub closed spec fn ring(&self) -> Seq<usize> {
        self.order@
    }

    /// The tree that stands in room `r`.
    pub closed spec fn lodger(&self, r: usize) -> Tree<T> {
        self.rooms@[r as int].tree.unwrap()
    }

    /// The room that the room `r` names as the next on the ring.
    pub closed spec fn next_of(&self, r: usize) -> usize {
        self.rooms@[r as int].link.next
    }

    /// The room that the room `r` names as the one before it on the ring.
    pub closed spec fn prev_of(&self, r: usize) -> usize {
        self.rooms@[r as int].link.prev
    }

    /// The room that the forest names as the last of the ring, if it
    /// names one.
    pub closed spec fn last_room(&self) -> Option<usize> {
        self.child
    }

    /// The rooms of the trees form one ring: each names the room of the
    /// next tree and that of the tree before, the last names the first
    /// and the first the last, so that a single room names itself. The
    /// forest names the room of the last tree, and none when it is
    /// empty.
    pub proof fn lemma_links(&self)
        requires
            self.wf(),
        ensures
            self.ring().len() == 0 <==> self.last_room() is None,
            self.ring().len() > 0 ==> self.last_room() == Some(self.ring()[self.ring().len() - 1]),
            forall|i: int|
                0 <= i < self.ring().len() ==> self.next_of(#[trigger] self.ring()[i]) == self.ring()[succ(i, self.ring().len() as int)]
                    && self.prev_of(self.ring()[i]) == self.ring()[pred(i, self.ring().len() as int)],
    {
        assert forall|i: int| 0 <= i < self.ring().len() implies self.next_of(#[trigger] self.ring()[i]) == self.ring()[succ(
            i,
            self.ring().len() as int,
        )] && self.prev_of(self.ring()[i]) == self.ring()[pred(i, self.ring().len() as int)] by {
            assert(self.linked(i));
        }
    }

    /// The rooms of a well-formed forest are distinct, and each holds the
    /// tree that the view shows at its position.
    pub proof fn lemma_ring(&self)
        requires
            self.wf(),
        ensures
            self.ring().len() == self@.len(),
            self.ring().no_duplicates(),
            forall|i: int| 0 <= i < self.ring().len() ==> (#[trigger] self.lodger(self.ring()[i])).wf(),
            forall|i: int| 0 <= i < self.ring().len() ==> (#[trigger] self.lodger(self.ring()[i]))@ == self@[i],
    {
    }

    /// What `link_in` leaves behind is a well-formed forest with `k` at
    /// position `pos`.
    proof fn lemma_link_in(before: &Self, after: &Self, at: usize, last: bool, tree: Tree<T>, pos: int, k: usize)
        requires
            before.wf(),
            tree.wf(),
            before.order@.len() > 0,
            0 <= pos <= before.order@.len(),
            at == before.order@[pred(pos, before.order@.len() as int)],
            last <==> pos == before.order@.len(),
            after.order@ == before.order@.insert(pos, k),
            after.child == (if last { Some(k) } else { before.child }),
            k < after.rooms@.len(),
            after.rooms@[k as int].tree == Some(tree),
            after.rooms@[k as int].link.prev == at,
            after.rooms@[k as int].link.next == before.rooms@[at as int].link.next,
            forall|i: int| 0 <= i < before.order@.len() ==> before.order@[i] != k,
            after.rooms@.len() == before.rooms@.len() || (after.rooms@.len() == before.rooms@.len() + 1 && k == before.rooms@.len()),
            forall|r: int| 0 <= r < before.rooms@.len() && r != k ==> (#[trigger] after.rooms@[r]).tree == before.rooms@[r].tree,
            forall|r: int| 0 <= r < before.rooms@.len() && r != k ==> (#[trigger] after.rooms@[r]).link.next == (if r == at { k } else { before.rooms@[r].link.next }),
            forall|r: int| 0 <= r < before.rooms@.len() && r != k ==> (#[trigger] after.rooms@[r]).link.prev == (if r == before.rooms@[at as int].link.next { k } else { before.rooms@[r].link.prev }),
            after.spare@.no_duplicates(),
            before.order@.len() + 1 + after.spare@.len() == after.rooms@.len(),
            forall|j: int| 0 <= j < after.spare@.len() ==> #[trigger] after.spare@[j] < after.rooms@.len() && after.spare@[j] != k,
            forall|j: int| 0 <= j < after.spare@.len() ==> after.rooms@[#[trigger] after.spare@[j] as int].tree is None,
        ensures
            after.wf(),
            after@ == before@.insert(pos, tree@),
    {
        let o = before.order@;
        let n = o.len() as int;
        let o2 = after.order@;
        let nxt = before.rooms@[at as int].link.next;
        assert forall|i: int| 0 <= i < n + 1 implies #[trigger] o2[i] == (if i < pos { o[i] } else if i == pos { k } else { o[i - 1] }) by {}
        assert(o2.no_duplicates());
        assert(before.linked(pred(pos, n)));
        assert(nxt == o[succ(pred(pos, n), n)]);
        assert forall|i: int| 0 <= i < n + 1 implies #[trigger] after.linked(i) by {
            let j = if i < pos { i } else { i - 1 };
            if i != pos {
                assert(before.linked(j));
                assert(o[j] != k);
            }
        }
        assert forall|i: int| 0 <= i < n + 1 implies after.rooms@[#[trigger] o2[i] as int].tree is Some by {
            let j = if i < pos { i } else { i - 1 };
            if i != pos {
                assert(o[j] != k);
            }
        }
        assert(after.ring_wf());
        assert forall|r: int| 0 <= r < after.rooms@.len() && (#[trigger] after.rooms@[r]).tree is Some implies after.rooms@[r].tree.unwrap().wf() by {
            if r != k {
                assert(after.rooms@[r].tree == before.rooms@[r].tree);
            }
        }
        assert forall|i: int| 0 <= i < n + 1 implies #[trigger] after@[i] == before@.insert(pos, tree@)[i] by {
            let j = if i < pos { i } else { i - 1 };
            if i != pos {
                assert(o[j] != k);
                assert(after.rooms@[o[j] as int].tree == before.rooms@[o[j] as int].tree);
            }
        }
        assert(after@ =~= before@.insert(pos, tree@));
    }

    /// The root of the tree in a room is a part of the forest.
    pub proof fn lemma_lodger_smaller(&self, r: usize)
        requires
            self.wf(),
            self.ring().contains(r),
        ensures
            decreases_to!(*self => self.lodger(r).spec_root()),
    {
        let i = choose|i: int| 0 <= i < self.order@.len() && self.order@[i] == r;
        assert(self.rooms@[self.order@[i] as int].tree is Some);
        self.lodger(r).lemma_root();
    }

    /// Links `tree` into a ring that is not empty, behind room `at`. On the
    /// ring the new room sits between `at` and what followed it; `last`
    /// says whether it is counted as the last tree or, behind the last
    /// room, as the first.
    pub(crate) fn link_in(&mut self, at: usize, last: bool, tree: Tree<T>, Ghost(pos): Ghost<int>) -> (k: usize)
        requires
            old(self).wf(),
            tree.wf(),
            old(self).ring().len() > 0,
            0 <= pos <= old(self).ring().len(),
            at == old(self).ring()[pred(pos, old(self).ring().len() as int)],
            last <==> pos == old(self).ring().len(),
        ensures
            final(self).wf(),
            !old(self).ring().contains(k),
            final(self).ring() == old(self).ring().insert(pos, k),
            final(self)@ == old(self)@.insert(pos, tree@),
            final(self).lodger(k) == tree,
            forall|i: int| 0 <= i < old(self).ring().len() ==> final(self).lodger(#[trigger] old(self).ring()[i]) == old(self).lodger(old(self).ring()[i]),
    {
        let ghost o = self.order@;
        let ghost n = o.len() as int;
        proof {
            assert(old(self).linked(pred(pos, n)));
        }
        let k = self.lodge(tree);
        let nxt = self.rooms[at].link.next;
        self.rooms[k].link.set_sib(at, nxt);
        self.rooms[at].link.next = k;
        self.rooms[nxt].link.prev = k;
        if last {
            self.child = Some(k);
        }
        proof {
            self.order = Ghost(o.insert(pos, k));
            Self::lemma_link_in(old(self), self, at, last, tree, pos, k);
        }
        k
    }

    /// What `unlink` leaves behind is a well-formed forest without the
    /// room at position `i`.
    proof fn lemma_unlink(before: &Self, after: &Self, r: usize, i: int)
        requires
            before.wf(),
            0 <= i < before.order@.len(),
            r == before.order@[i],
            after.order@ == before.order@.remove(i),
            after.rooms@.len() == before.rooms@.len(),
            after.rooms@[r as int].tree is None,
            after.spare@ == before.spare@.push(r),
            before.order@.len() == 1 ==> after.child is None,
            before.order@.len() > 1 ==> after.child == (if before.child == Some(r) {
                Some(before.rooms@[r as int].link.prev)
            } else {
                before.child
            }),
            forall|q: int| 0 <= q < before.rooms@.len() && q != r ==> (#[trigger] after.rooms@[q]).tree == before.rooms@[q].tree,
            before.order@.len() > 1 ==> forall|q: int| 0 <= q < before.rooms@.len() && q != r ==> (#[trigger] after.rooms@[q]).link.next == (if q == before.rooms@[r as int].link.prev {
                before.rooms@[r as int].link.next
            } else {
                before.rooms@[q].link.next
            }),
            before.order@.len() > 1 ==> forall|q: int| 0 <= q < before.rooms@.len() && q != r ==> (#[trigger] after.rooms@[q]).link.prev == (if q == before.rooms@[r as int].link.next {
                before.rooms@[r as int].link.prev
            } else {
                before.rooms@[q].link.prev
            }),
        ensures
            after.wf(),
            after@ == before@.remove(i),
    {
        let o = before.order@;
        let n = o.len() as int;
        let o2 = after.order@;
        assert forall|j: int| 0 <= j < n - 1 implies #[trigger] o2[j] == (if j < i { o[j] } else { o[j + 1] }) by {}
        assert(o2.no_duplicates());
        assert(before.linked(i));
        assert forall|j: int| 0 <= j < n - 1 implies #[trigger] after.linked(j) by {
            let h = if j < i { j } else { j + 1 };
            assert(before.linked(h));
            assert(o[h] != r);
        }
        assert forall|j: int| 0 <= j < n - 1 implies after.rooms@[#[trigger] o2[j] as int].tree is Some by {
            let h = if j < i { j } else { j + 1 };
            assert(o[h] != r);
        }
        assert forall|j: int, h: int| 0 <= j < h < after.spare@.len() implies after.spare@[j] != after.spare@[h] by {
            if h == before.spare@.len() {
                assert(before.rooms@[before.spare@[j] as int].tree is None);
            }
        }
        assert(after.ring_wf());
        assert forall|j: int| 0 <= j < n - 1 implies #[trigger] after@[j] == before@.remove(i)[j] by {
            let h = if j < i { j } else { j + 1 };
            assert(o[h] != r);
            assert(after.rooms@[o[h] as int].tree == before.rooms@[o[h] as int].tree);
        }
        assert(after@ =~= before@.remove(i));
    }

    /// Takes the tree of room `r` out of the ring and joins the
    /// neighbours of `r` to each other.
    pub(crate) fn unlink(&mut self, r: usize, Ghost(i): Ghost<int>) -> (tree: Tree<T>)
        requires
            old(self).wf(),
            0 <= i < old(self).ring().len(),
            r == old(self).ring()[i],
        ensures
            final(self).wf(),
            tree.wf(),
            tree == old(self).lodger(r),
            tree@ == old(self)@[i],
            final(self).ring() == old(self).ring().remove(i),
            final(self)@ == old(self)@.remove(i),
            forall|j: int| 0 <= j < old(self).ring().len() && j != i ==> final(self).lodger(#[trigger] old(self).ring()[j]) == old(self).lodger(old(self).ring()[j]),
    {
        let ghost o = self.order@;
        let ghost n = o.len() as int;
        proof {
            assert(old(self).linked(i));
            assert(old(self).linked(pred(i, n)));
            assert(old(self).linked(succ(i, n)));
        }
        let before = self.rooms[r].link.prev;
        let after = self.rooms[r].link.next;
        if self.rooms[r].link.has_no_sib(r) {
            self.child = None;
        } else {
            self.rooms[before].link.next = after;
            self.rooms[after].link.prev = before;
            let was_last = match self.child {
                Some(c) => c == r,
                None => false,
            };
            if was_last {
                self.child = Some(before);
            }
        }
        let tree = self.rooms[r].tree.take().unwrap();
        self.spare.push(r);
        proof {
            self.order = Ghost(o.remove(i));
            Self::lemma_unlink(old(self), self, r, i);
        }
        tree
    }

    /// Makes `tree` the only tree of an empty forest.
    pub(crate) fn found(&mut self, tree: Tree<T>) -> (k: usize)
        requires
            old(self).wf(),
            tree.wf(),
            old(self).ring().len() == 0,
        ensures
            final(self).wf(),
            final(self).ring() == seq![k],
            final(self)@ == seq![tree@],
            final(self).lodger(k) == tree,
    {
        let k = self.lodge(tree);
        self.rooms[k].link.reset_sib(k);
        self.child = Some(k);
        proof {
            self.order = Ghost(seq![k]);
            assert(self.linked(0));
            assert(self.ring_wf());
            assert forall|r: int| 0 <= r < self.rooms@.len() && (#[trigger] self.rooms@[r]).tree is Some implies self.rooms@[r].tree.unwrap().wf() by {
                if r != k {
                    assert(self.rooms@[r].tree == old(self).rooms@[r].tree);
                }
            }
            assert(self@ =~= seq![tree@]);
        }
        k
    }

    /// Finds a vacant room, or makes one, and puts `tree` there.
    fn lodge(&mut self, tree: Tree<T>) -> (k: usize)
        requires
            old(self).ring_wf(),
        ensures
            final(self).order@ == old(self).order@,
            final(self).child == old(self).child,
            k < final(self).rooms@.len(),
            final(self).rooms@.len() == old(self).rooms@.len() || (final(self).rooms@.len() == old(self).rooms@.len() + 1 && k == old(self).rooms@.len()),
            final(self).rooms@[k as int].tree == Some(tree),
            forall|r: int| 0 <= r < old(self).rooms@.len() && r != k ==> final(self).rooms@[r] == old(self).rooms@[r],
            forall|i: int| 0 <= i < old(self).order@.len() ==> old(self).order@[i] != k,
            final(self).spare@.no_duplicates(),
            old(self).order@.len() + 1 + final(self).spare@.len() == final(self).rooms@.len(),
            forall|j: int| 0 <= j < final(self).spare@.len() ==> #[trigger] final(self).spare@[j] < final(self).rooms@.len() && final(self).spare@[j] != k,
            forall|j: int| 0 <= j < final(self).spare@.len() ==> final(self).rooms@[#[trigger] final(self).spare@[j] as int].tree is None,
    {
        match self.spare.pop() {
            Some(k) => {
                proof {
                    let s = old(self).spare@;
                    assert(s[s.len() - 1] == k);
                    assert forall|j: int| 0 <= j < self.spare@.len() implies #[trigger] self.spare@[j] != k by {
                        assert(self.spare@[j] == s[j]);
                    }
                    assert forall|i: int| 0 <= i < old(self).order@.len() implies old(self).order@[i] != k by {
                        assert(old(self).rooms@[old(self).order@[i] as int].tree is Some);
                    }
                }
                self.rooms[k].tree = Some(tree);
                k
            },
            None => {
                let k = self.rooms.len();
                self.rooms.push(Room { link: Link { next: k, prev: k }, tree: Some(tree) });
                k
            },
        }
    }
}

impl<T: Clone> Forest<T> {
    /// Makes a copy of the forest, with a clone of the data at each node.
    pub fn clone(&self) -> (copy: Forest<T>)
        requires
            self.wf(),
        ensures
            copy.wf(),
            cloned_forest(self@, copy@),
        decreases self,
    {
        let mut copy = Forest::new();
        let mut i: usize = 0;
        let n = self.degree();
        let mut r: usize = match self.head() {
            Some(h) => h,
            None => 0,
        };
        proof {
            self.lemma_ring();
        }
        while i < n
            invariant
                self.wf(),
                copy.wf(),
                n == self@.len(),
                n == self.ring().len(),
                0 <= i <= n,
                i < n ==> r == self.ring()[i as int],
                copy@.len() == i,
                forall|j: int| 0 <= j < i ==> cloned_tree(#[trigger] self@[j], copy@[j]),
            decreases n - i,
        {
            let node = self.node(r, Ghost(i as int));
            proof {
                self.lodger(r).lemma_root();
            }
            let tree = node.to_owned();
            copy.push_back(tree);
            r = self.next_room(r, Ghost(i as int));
            i = i + 1;
        }
        copy
    }
}

/// An iterator that hands out the trees of a forest, from the first to
/// the last.
pub struct IntoIter<T> {
    forest: Forest<T>,
}

impl<T> IntoIter<T> {
    /// The forest that holds the trees yet to come is well formed.
    pub closed spec fn wf(&self) -> bool {
        self.forest.wf()
    }

    /// The trees that are yet to come, in order.
    pub closed spec fn view(&self) -> Seq<Shape<T>> {
        self.forest@
    }

    /// Returns the number of trees that are yet to come.
    pub fn len(&self) -> (n: usize)
        requires
            self.wf(),
        ensures
            n == self@.len(),
    {
        self.forest.degree()
    }

    /// Returns the next tree, or `None` behind the last.
    pub fn next(&mut self) -> (tree: Option<Tree<T>>)
        requires
            old(self).wf(),
        ensures
            final(self).wf(),
            old(self)@.len() == 0 ==> tree is None && final(self)@ == old(self)@,
            old(self)@.len() > 0 ==> tree is Some && tree.unwrap().wf() && tree.unwrap()@ == old(self)@[0]
                && final(self)@ == old(self)@.drop_first(),
    {
        self.forest.pop_front()
    }
}

} // verus!
