//! Walk on `Tree`/`Node` or `Forest`.

use vstd::prelude::*;
use super::forest::Forest;
use super::node::Node;
use super::tree::Tree;
use crate::shape::{at, level, valid, Shape};

verus! {

/// Distinguish between visiting a leaf node and (begin/end of) visiting
/// a branched node.
pub enum Visit<'a, T> {
    Begin(&'a Node<T>),
    End(&'a Node<T>),
    Leaf(&'a Node<T>),
}

impl<'a, T> Visit<'a, T> {
    /// The node under visit, in specifications.
    pub open spec fn spec_node(&self) -> Node<T> {
        match *self {
            Visit::Begin(node) => *node,
            Visit::End(node) => *node,
            Visit::Leaf(node) => *node,
        }
    }

    /// The kind of the visit.
    pub open spec fn kind(&self) -> VisitType {
        match *self {
            Visit::Begin(_) => VisitType::Begin,
            Visit::End(_) => VisitType::End,
            Visit::Leaf(_) => VisitType::Leaf,
        }
    }

    /// Returns the node under visit, regardless of whether it is a leaf
    /// node or (begin/end of) visiting a branched node.
    pub fn node(&self) -> (node: &'a Node<T>)
        ensures
            *node == self.spec_node(),
    {
        match *self {
            Visit::Begin(node) => node,
            Visit::End(node) => node,
            Visit::Leaf(node) => node,
        }
    }
}

/// The kind of a visit, or `Idle` where there is nothing to visit.
#[derive(Clone, Copy, PartialEq, Eq, Structural)]
pub enum VisitType {
    Idle,
    Begin,
    End,
    Leaf,
}

/// Where the walk goes next.
#[derive(Clone, Copy, PartialEq, Eq, Structural)]
pub enum Direction {
    /// The current node, its siblings and all their descendants have
    /// been visited: go back to their parent.
    Up,
    /// Try to visit the first child of the current node.
    Down,
    /// Try to visit the next sibling of the current node.
    Right,
}

/// The place of a walk: the path to the current node, the kind of visit
/// it is under, and where the walk goes next.
pub struct Cursor {
    pub path: Seq<int>,
    pub visit: VisitType,
    pub direction: Direction,
}

/// The kind of visit that begins at `node`.
pub open spec fn arrival<T>(node: Shape<T>) -> VisitType {
    if node.children.len() == 0 {
        VisitType::Leaf
    } else {
        VisitType::Begin
    }
}

/// The place before any step: at the first tree of the forest, if there
/// is one.
pub open spec fn start<T>(forest: Seq<Shape<T>>) -> Cursor {
    if forest.len() == 0 {
        Cursor { path: Seq::empty(), visit: VisitType::Idle, direction: Direction::Down }
    } else {
        Cursor { path: seq![0int], visit: arrival(forest[0]), direction: Direction::Down }
    }
}

/// The place after going back to the parent: the end of the visit of
/// the parent, or nothing where there is no parent.
pub open spec fn up(c: Cursor) -> Cursor {
    if c.path.len() >= 2 {
        Cursor { path: c.path.drop_last(), visit: VisitType::End, direction: Direction::Right }
    } else {
        Cursor { path: Seq::empty(), visit: VisitType::Idle, direction: Direction::Down }
    }
}

/// The place after `n` steps to the right among the siblings, where
/// there are that many.
pub open spec fn sideways<T>(forest: Seq<Shape<T>>, c: Cursor, n: int) -> Cursor {
    let path = c.path.drop_last().push(c.path.last() + n);
    let node = at(forest, path);
    if node.children.len() == 0 {
        Cursor { path, visit: VisitType::Leaf, direction: c.direction }
    } else {
        Cursor { path, visit: VisitType::Begin, direction: Direction::Down }
    }
}

/// The place after trying the next sibling: there, or back at the
/// parent behind the last sibling.
pub open spec fn right<T>(forest: Seq<Shape<T>>, c: Cursor) -> Cursor {
    if c.path.last() + 1 < level(forest, c.path).len() {
        sideways(forest, Cursor { direction: Direction::Right, ..c }, 1)
    } else {
        up(c)
    }
}

/// The place after stepping down to the first child.
pub open spec fn down<T>(forest: Seq<Shape<T>>, c: Cursor) -> Cursor {
    let path = c.path.push(0);
    Cursor { path, visit: arrival(at(forest, path)), direction: c.direction }
}

/// The place after one step of the depth first traversal.
pub open spec fn step<T>(forest: Seq<Shape<T>>, c: Cursor) -> Cursor {
    if c.path.len() == 0 {
        Cursor { path: Seq::empty(), visit: VisitType::Idle, direction: Direction::Down }
    } else {
        match c.direction {
            Direction::Up => up(c),
            Direction::Right => right(forest, c),
            Direction::Down => if at(forest, c.path).children.len() == 0 {
                right(forest, c)
            } else {
                down(forest, c)
            },
        }
    }
}

/// One level of the path of a walk: a room of the ring at that level,
/// and the first room of that ring.
pub struct Nodes {
    pub node: usize,
    pub sentinel: usize,
    pub pos: Ghost<int>,
}

impl Nodes {
    /// The given room and all that follow it on the ring will be
    /// visited.
    pub(crate) fn sibs(node: usize, Ghost(pos): Ghost<int>) -> (nodes: Nodes)
        ensures
            nodes.node == node,
            nodes.sentinel == node,
            nodes.pos@ == pos,
    {
        Nodes { node, sentinel: node, pos: Ghost(pos) }
    }
}

/// Cursor on the trees of a forest and all their descendants.
pub struct Walk {
    path: Vec<Nodes>,
    direction: Direction,
    visit_type: VisitType,
    origin: Option<usize>,
}

impl Walk {
    /// The place of the walk.
    pub closed spec fn view(&self) -> Cursor {
        Cursor {
            path: Seq::new(self.path@.len(), |k: int| self.path@[k].pos@),
            visit: self.visit_type,
            direction: self.direction,
        }
    }

    /// The forest at level `k` of the path: the forest under walk for
    /// level 0, else the children of the node that the level above
    /// stands at.
    pub closed spec fn forest_at<T>(&self, forest: &Forest<T>, k: int) -> Forest<T>
        decreases k,
    {
        if k <= 0 {
            *forest
        } else {
            self.forest_at(forest, k - 1).lodger(self.path@[k - 1].node).spec_root().spec_forest()
        }
    }

    /// Level `k` of the path names a room of the forest at that level.
    pub closed spec fn fits_at<T>(&self, forest: &Forest<T>, k: int) -> bool {
        let ring = self.forest_at(forest, k).ring();
        let nodes = self.path@[k];
        &&& 0 <= nodes.pos@ < ring.len()
        &&& ring[nodes.pos@] == nodes.node
        &&& ring[0] == nodes.sentinel
    }

    /// The walk is on `forest`: its path leads to a node of the forest
    /// and the kind of visit suits that node.
    pub closed spec fn wf<T>(&self, forest: &Forest<T>) -> bool {
        &&& forest.wf()
        &&& forall|k: int| 0 <= k < self.path@.len() ==> #[trigger] self.fits_at(forest, k)
        &&& self.origin == (if forest.ring().len() > 0 { Some(forest.ring()[0]) } else { None })
        &&& self.path@.len() == 0 ==> self.visit_type == VisitType::Idle && self.direction == Direction::Down
        &&& self.path@.len() > 0 ==> self.visit_type != VisitType::Idle
            && (self.visit_type == VisitType::Leaf <==> at(forest@, self@.path).children.len() == 0)
    }

    /// The forests along the path are well formed, and stand for the
    /// levels of the path in the model.
    proof fn lemma_levels<T>(&self, forest: &Forest<T>, k: int)
        requires
            self.wf(forest),
            0 <= k < self.path@.len(),
        ensures
            self.forest_at(forest, k).wf(),
            self.forest_at(forest, k)@ == level(forest@, self@.path.take(k + 1)),
            valid(forest@, self@.path.take(k + 1)),
            self.forest_at(forest, k)@[self.path@[k].pos@] == at(forest@, self@.path.take(k + 1)),
            0 <= self.path@[k].pos@ < self.forest_at(forest, k)@.len(),
        decreases k,
    {
        let c = self@.path;
        assert(self.fits_at(forest, k));
        if k > 0 {
            self.lemma_levels(forest, k - 1);
            let f = self.forest_at(forest, k - 1);
            let r = self.path@[k - 1].node;
            assert(self.fits_at(forest, k - 1));
            f.lemma_ring();
            assert(f.lodger(f.ring()[self.path@[k - 1].pos@]).wf());
            f.lodger(r).lemma_root();
            f.lodger(r).spec_root().lemma_view();
            assert(c.take(k + 1).drop_last() =~= c.take(k));
            assert(self.forest_at(forest, k)@ == at(forest@, c.take(k)).children);
            assert(valid(forest@, c.take(k)));
        } else {
            assert(c.take(1).drop_last() =~= c.take(0));
            assert(valid(forest@, c.take(0)));
        }
        self.forest_at(forest, k).lemma_ring();
        assert(c.take(k + 1).last() == self.path@[k].pos@);
        assert(self.forest_at(forest, k)@ == level(forest@, c.take(k + 1)));
        assert(valid(forest@, c.take(k + 1)));
    }

    /// The forest at a level depends on the rooms of the levels above
    /// only.
    proof fn lemma_prefix<T>(&self, other: &Walk, forest: &Forest<T>, k: int)
        requires
            0 <= k <= self.path@.len(),
            k <= other.path@.len(),
            forall|j: int| 0 <= j < k ==> self.path@[j].node == other.path@[j].node,
        ensures
            self.forest_at(forest, k) == other.forest_at(forest, k),
        decreases k,
    {
        if k > 0 {
            self.lemma_prefix(other, forest, k - 1);
        }
    }

    /// A walk that keeps the levels above the last keeps its hold on
    /// them.
    proof fn lemma_keeps<T>(&self, other: &Walk, forest: &Forest<T>, n: int)
        requires
            other.wf(forest),
            0 <= n <= self.path@.len(),
            n <= other.path@.len(),
            forall|j: int| 0 <= j < n ==> self.path@[j] == other.path@[j],
        ensures
            forall|j: int| 0 <= j < n ==> #[trigger] self.fits_at(forest, j),
            self.forest_at(forest, n) == other.forest_at(forest, n),
            self@.path.take(n) == other@.path.take(n),
    {
        assert forall|j: int| 0 <= j < n implies #[trigger] self.fits_at(forest, j) by {
            self.lemma_prefix(other, forest, j);
            assert(other.fits_at(forest, j));
        }
        self.lemma_prefix(other, forest, n);
        assert(self@.path.take(n) =~= other@.path.take(n));
    }

    /// A walk that differs from a walk on the forest in its direction
    /// only is a walk on the forest.
    proof fn lemma_turn<T>(&self, before: &Walk, forest: &Forest<T>)
        requires
            before.wf(forest),
            self.path@ == before.path@,
            self.path@.len() > 0,
            self.origin == before.origin,
            self.visit_type == before.visit_type,
        ensures
            self.wf(forest),
            self@.path == before@.path,
    {
        assert(self@.path =~= before@.path);
        assert forall|k: int| 0 <= k < self.path@.len() implies #[trigger] self.fits_at(forest, k) by {
            self.lemma_prefix(before, forest, k);
            assert(before.fits_at(forest, k));
        }
    }

    /// Makes a walk on `forest` that stands at its first tree.
    pub fn on_forest<T>(forest: &Forest<T>) -> (walk: Walk)
        requires
            forest.wf(),
        ensures
            walk.wf(forest),
            walk@ == start(forest@),
    {
        proof {
            forest.lemma_ring();
        }
        match forest.head() {
            Some(head) => {
                let leaf = forest.node(head, Ghost(0)).is_leaf();
                let mut path = Vec::new();
                path.push(Nodes::sibs(head, Ghost(0)));
                let walk = Walk {
                    path,
                    direction: Direction::Down,
                    visit_type: if leaf { VisitType::Leaf } else { VisitType::Begin },
                    origin: Some(head),
                };
                proof {
                    assert(walk@.path =~= seq![0int]);
                    assert(walk.fits_at(forest, 0));
                }
                walk
            },
            None => {
                let walk = Walk { path: Vec::new(), direction: Direction::Down, visit_type: VisitType::Idle, origin: None };
                proof {
                    assert(walk@.path =~= Seq::<int>::empty());
                }
                walk
            },
        }
    }

    /// The forest that holds the current node.
    fn bed<'f, T>(&self, forest: &'f Forest<T>) -> (bed: &'f Forest<T>)
        requires
            self.wf(forest),
            self.path@.len() > 0,
        ensures
            *bed == self.forest_at(forest, self.path@.len() - 1),
    {
        self.bed_at(forest, self.path.len() - 1)
    }

    /// The forest at level `n` of the path.
    fn bed_at<'f, T>(&self, forest: &'f Forest<T>, n: usize) -> (bed: &'f Forest<T>)
        requires
            self.wf(forest),
            n < self.path@.len(),
        ensures
            *bed == self.forest_at(forest, n as int),
    {
        let mut bed = forest;
        let mut k: usize = 0;
        while k < n
            invariant
                self.wf(forest),
                k <= n < self.path@.len(),
                *bed == self.forest_at(forest, k as int),
            decreases n - k,
        {
            proof {
                self.lemma_levels(forest, k as int);
                assert(self.fits_at(forest, k as int));
            }
            let node = bed.node(self.path[k].node, Ghost(self.path@[k as int].pos@));
            bed = node.forest();
            k = k + 1;
        }
        bed
    }

    /// The node at level `n` of the path.
    fn node_at<'f, T>(&self, forest: &'f Forest<T>, n: usize) -> (node: &'f Node<T>)
        requires
            self.wf(forest),
            n < self.path@.len(),
        ensures
            node.wf(),
            node@ == at(forest@, self@.path.take(n + 1)),
            *node == self.forest_at(forest, n as int).lodger(self.path@[n as int].node).spec_root(),
    {
        let bed = self.bed_at(forest, n);
        proof {
            self.lemma_levels(forest, n as int);
            assert(self.fits_at(forest, n as int));
        }
        bed.node(self.path[n].node, Ghost(self.path@[n as int].pos@))
    }

    /// The current node.
    fn current<'f, T>(&self, forest: &'f Forest<T>) -> (node: &'f Node<T>)
        requires
            self.wf(forest),
            self.path@.len() > 0,
        ensures
            node.wf(),
            node@ == at(forest@, self@.path),
            *node == self.forest_at(forest, self.path@.len() - 1).lodger(self.path@[self.path@.len() - 1].node).spec_root(),
    {
        proof {
            assert(self@.path.take(self.path@.len() as int) =~= self@.path);
        }
        self.node_at(forest, self.path.len() - 1)
    }

    /// Returns the current node in the traversal, or `None` if the
    /// traversal is completed.
    pub fn get<'f, T>(&self, forest: &'f Forest<T>) -> (visit: Option<Visit<'f, T>>)
        requires
            self.wf(forest),
        ensures
            self@.visit == VisitType::Idle ==> visit is None,
            self@.visit != VisitType::Idle ==> visit is Some && visit.unwrap().kind() == self@.visit
                && visit.unwrap().spec_node().wf()
                && visit.unwrap().spec_node()@ == at(forest@, self@.path),
    {
        if self.path.len() == 0 {
            return None;
        }
        let node = self.current(forest);
        match self.visit_type {
            VisitType::Begin => Some(Visit::Begin(node)),
            VisitType::End => Some(Visit::End(node)),
            VisitType::Leaf => Some(Visit::Leaf(node)),
            VisitType::Idle => None,
        }
    }

    /// Goes back to the parent of the current node.
    fn go_up<T>(&mut self, forest: &Forest<T>)
        requires
            old(self).wf(forest),
            old(self).path@.len() > 0,
        ensures
            final(self).wf(forest),
            final(self)@ == up(old(self)@),
    {
        let ghost before = *self;
        let n = self.path.len();
        self.path.pop();
        if self.path.len() > 0 {
            self.direction = Direction::Right;
            self.visit_type = VisitType::End;
        } else {
            self.direction = Direction::Down;
            self.visit_type = VisitType::Idle;
        }
        proof {
            assert(self@.path =~= before@.path.drop_last());
            self.lemma_keeps(&before, forest, n - 1);
            if n == 1 {
                assert(self@.path =~= Seq::<int>::empty());
            }
            if n >= 2 {
                before.lemma_levels(forest, n - 1);
                assert(before@.path.take(n as int) =~= before@.path);
                assert(before@.path.drop_last() =~= self@.path);
            }
        }
    }

    /// Tries the sibling behind the current node, and goes back to the
    /// parent where there is none.
    fn go_right<T>(&mut self, forest: &Forest<T>)
        requires
            old(self).wf(forest),
            old(self).path@.len() > 0,
        ensures
            final(self).wf(forest),
            final(self)@ == right(forest@, old(self)@),
    {
        let ghost before = *self;
        let n = self.path.len();
        let bed = self.bed(forest);
        let node = self.path[n - 1].node;
        let sentinel = self.path[n - 1].sentinel;
        let ghost pos = self.path@[n - 1].pos@;
        proof {
            self.lemma_levels(forest, n - 1);
            assert(self.fits_at(forest, n - 1));
            assert(self@.path.take(n as int) =~= self@.path);
            bed.lemma_ring();
        }
        let next = bed.next_room(node, Ghost(pos));
        if next == sentinel {
            self.direction = Direction::Up;
            proof {
                self.lemma_turn(&before, forest);
            }
            self.go_up(forest);
        } else {
            let leaf = bed.node(next, Ghost(pos + 1)).is_leaf();
            self.path.set(n - 1, Nodes { node: next, sentinel, pos: Ghost(pos + 1) });
            if leaf {
                self.visit_type = VisitType::Leaf;
                self.direction = Direction::Right;
            } else {
                self.visit_type = VisitType::Begin;
                self.direction = Direction::Down;
            }
            proof {
                self.lemma_keeps(&before, forest, n - 1);
                assert(self.fits_at(forest, n - 1));
                assert(self@.path =~= before@.path.drop_last().push(pos + 1));
                assert(self@.path.drop_last() =~= before@.path.drop_last());
                self.lemma_levels(forest, n - 1);
                assert(self@.path.take(n as int) =~= self@.path);
            }
        }
    }

    /// Advance the cursor in the traversal.
    pub fn forward<T>(&mut self, forest: &Forest<T>)
        requires
            old(self).wf(forest),
        ensures
            final(self).wf(forest),
            final(self)@ == step(forest@, old(self)@),
    {
        if self.path.len() == 0 {
            proof {
                assert(self@.path =~= Seq::<int>::empty());
            }
            return ;
        }
        match self.direction {
            Direction::Up => {
                self.go_up(forest);
            },
            Direction::Right => {
                self.go_right(forest);
            },
            Direction::Down => {
                let node = self.current(forest);
                if node.is_leaf() {
                    self.go_right(forest);
                } else {
                    self.descend(forest);
                }
            },
        }
    }

    /// Steps down to the first child of the current node.
    fn descend<T>(&mut self, forest: &Forest<T>)
        requires
            old(self).wf(forest),
            old(self).path@.len() > 0,
            at(forest@, old(self)@.path).children.len() > 0,
        ensures
            final(self).wf(forest),
            final(self)@ == down(forest@, old(self)@),
    {
        let ghost before = *self;
        let n = self.path.len();
        let node = self.current(forest);
        let children = node.forest();
        proof {
            children.lemma_ring();
        }
        let head = children.head().unwrap();
        let leaf = children.node(head, Ghost(0)).is_leaf();
        self.visit_type = if leaf { VisitType::Leaf } else { VisitType::Begin };
        self.path.push(Nodes::sibs(head, Ghost(0)));
        proof {
            self.lemma_keeps(&before, forest, n as int);
            assert(self.fits_at(forest, n as int));
            assert(self@.path =~= before@.path.push(0));
            assert(self@.path.drop_last() =~= before@.path);
        }
    }

    /// Advance the cursor and return the newly visited node.
    ///
    /// NOTICE: the FIRST node in the traversal can NOT be accessed via
    /// next() call.
    pub fn next<'f, T>(&mut self, forest: &'f Forest<T>) -> (visit: Option<Visit<'f, T>>)
        requires
            old(self).wf(forest),
        ensures
            final(self).wf(forest),
            final(self)@ == step(forest@, old(self)@),
            final(self)@.visit == VisitType::Idle ==> visit is None,
            final(self)@.visit != VisitType::Idle ==> visit is Some && visit.unwrap().kind() == final(self)@.visit
                && visit.unwrap().spec_node().wf()
                && visit.unwrap().spec_node()@ == at(forest@, final(self)@.path),
    {
        self.forward(forest);
        self.get(forest)
    }

    /// Set the cursor to the current node's parent and returns it, or
    /// `None` if it has no parent.
    pub fn to_parent<'f, T>(&mut self, forest: &'f Forest<T>) -> (visit: Option<Visit<'f, T>>)
        requires
            old(self).wf(forest),
        ensures
            final(self).wf(forest),
            final(self)@ == up(old(self)@),
            final(self)@.visit == VisitType::Idle ==> visit is None,
            final(self)@.visit != VisitType::Idle ==> visit is Some && visit.unwrap().kind() == VisitType::End
                && visit.unwrap().spec_node().wf()
                && visit.unwrap().spec_node()@ == at(forest@, final(self)@.path),
    {
        if self.path.len() > 0 {
            self.go_up(forest);
        } else {
            proof {
                assert(self@.path =~= Seq::<int>::empty());
            }
        }
        self.get(forest)
    }

    /// Returns the parent of current node, or `None` if it has no
    /// parent.
    pub fn get_parent<'f, T>(&self, forest: &'f Forest<T>) -> (node: Option<&'f Node<T>>)
        requires
            self.wf(forest),
        ensures
            self@.path.len() < 2 ==> node is None,
            self@.path.len() >= 2 ==> node is Some && node.unwrap().wf()
                && node.unwrap()@ == at(forest@, self@.path.drop_last()),
    {
        if self.path.len() >= 2 {
            proof {
                assert(self@.path.take(self.path@.len() - 1) =~= self@.path.drop_last());
            }
            Some(self.node_at(forest, self.path.len() - 2))
        } else {
            None
        }
    }

    /// Set the cursor to the current node's next `n`-th sibling and
    /// returns it, or `None` if such sibling does not exist. Returns the
    /// current node if n == 0.
    pub fn to_sib<'f, T>(&mut self, forest: &'f Forest<T>, n: usize) -> (visit: Option<Visit<'f, T>>)
        requires
            old(self).wf(forest),
        ensures
            final(self).wf(forest),
            old(self)@.path.len() == 0 ==> visit is None && final(self)@ == old(self)@,
            old(self)@.path.len() > 0 && old(self)@.path.last() + n >= level(forest@, old(self)@.path).len()
                ==> visit is None && final(self)@ == (Cursor { direction: Direction::Up, ..old(self)@ }),
            old(self)@.path.len() > 0 && old(self)@.path.last() + n < level(forest@, old(self)@.path).len()
                ==> visit is Some && final(self)@ == sideways(forest@, old(self)@, n as int)
                && visit.unwrap().kind() == final(self)@.visit
                && visit.unwrap().spec_node().wf()
                && visit.unwrap().spec_node()@ == at(forest@, final(self)@.path),
    {
        let ghost before = *self;
        let len = self.path.len();
        if len == 0 {
            return None;
        }
        let bed = self.bed(forest);
        let sentinel = self.path[len - 1].sentinel;
        let ghost pos = self.path@[len - 1].pos@;
        let mut node = self.path[len - 1].node;
        proof {
            self.lemma_levels(forest, len - 1);
            assert(self.fits_at(forest, len - 1));
            assert(self@.path.take(len as int) =~= self@.path);
            bed.lemma_ring();
        }
        let mut i: usize = 0;
        while i < n
            invariant
                bed.wf(),
                bed.ring().no_duplicates(),
                0 <= i <= n,
                0 <= pos,
                pos + i < bed.ring().len(),
                node == bed.ring()[pos + i],
                sentinel == bed.ring()[0],
                *self == before,
                before == *old(self),
                before.wf(forest),
                bed@.len() == bed.ring().len(),
                bed@ == level(forest@, before@.path),
                before@.path.len() > 0,
                before@.path.last() == pos,
            decreases n - i,
        {
            node = bed.next_room(node, Ghost(pos + i));
            if node == sentinel {
                self.direction = Direction::Up;
                proof {
                    self.lemma_turn(&before, forest);
                }
                return None;
            }
            i = i + 1;
        }
        let leaf = bed.node(node, Ghost(pos + n)).is_leaf();
        self.path.set(len - 1, Nodes { node, sentinel, pos: Ghost(pos + n) });
        if leaf {
            self.visit_type = VisitType::Leaf;
        } else {
            self.visit_type = VisitType::Begin;
            self.direction = Direction::Down;
        }
        proof {
            self.lemma_keeps(&before, forest, len - 1);
            assert(self.fits_at(forest, len - 1));
            assert(self@.path =~= before@.path.drop_last().push(pos + n));
            assert(self@.path.drop_last() =~= before@.path.drop_last());
            self.lemma_levels(forest, len - 1);
            assert(self@.path.take(len as int) =~= self@.path);
        }
        self.get(forest)
    }

    /// Set the cursor to the current node's `n`-th child and returns it,
    /// or `None` if it has no child. Notice that `n == 0` indicating the
    /// first child.
    pub fn to_child<'f, T>(&mut self, forest: &'f Forest<T>, n: usize) -> (visit: Option<Visit<'f, T>>)
        requires
            old(self).wf(forest),
        ensures
            final(self).wf(forest),
            old(self)@.path.len() == 0 ==> visit is None && final(self)@ == old(self)@,
            old(self)@.path.len() > 0 && at(forest@, old(self)@.path).children.len() == 0
                ==> visit is None && final(self)@ == (Cursor { direction: Direction::Right, ..old(self)@ }),
            old(self)@.path.len() > 0 && 0 < at(forest@, old(self)@.path).children.len() <= n
                ==> visit is None && final(self)@ == (Cursor { direction: Direction::Up, ..down(forest@, old(self)@) }),
            old(self)@.path.len() > 0 && n < at(forest@, old(self)@.path).children.len()
                ==> visit is Some && final(self)@ == sideways(forest@, down(forest@, old(self)@), n as int)
                && visit.unwrap().kind() == final(self)@.visit
                && visit.unwrap().spec_node().wf()
                && visit.unwrap().spec_node()@ == at(forest@, final(self)@.path),
    {
        if self.path.len() == 0 {
            return None;
        }
        let ghost before = *self;
        let node = self.current(forest);
        if node.is_leaf() {
            self.direction = Direction::Right;
            proof {
                self.lemma_turn(&before, forest);
            }
            return None;
        }
        self.descend(forest);
        proof {
            assert(self@.path.drop_last() =~= before@.path);
        }
        self.to_sib(forest, n)
    }

    /// Revisit a `Node` that reached `Visit::End`. No effect on
    /// `Visit::Begin` or `Visit::Leaf`.
    pub fn revisit<T>(&mut self, forest: &Forest<T>)
        requires
            old(self).wf(forest),
        ensures
            final(self).wf(forest),
            forest@.len() == 0 ==> final(self)@ == old(self)@,
            forest@.len() > 0 && old(self)@.path.len() == 0 ==> final(self)@ == start(forest@),
            forest@.len() > 0 && old(self)@.path.len() > 0 ==> final(self)@ == (Cursor {
                path: old(self)@.path,
                visit: arrival(at(forest@, old(self)@.path)),
                direction: Direction::Down,
            }),
    {
        proof {
            forest.lemma_ring();
        }
        let ghost before = *self;
        match self.origin {
            None => {},
            Some(origin) => {
                let leaf;
                if self.path.len() == 0 {
                    leaf = forest.node(origin, Ghost(0)).is_leaf();
                    self.path.push(Nodes::sibs(origin, Ghost(0)));
                    proof {
                        assert(self.fits_at(forest, 0));
                        assert(self@.path =~= seq![0int]);
                    }
                } else {
                    leaf = self.current(forest).is_leaf();
                    proof {
                        assert(self@.path =~= before@.path);
                    }
                }
                self.direction = Direction::Down;
                self.visit_type = if leaf { VisitType::Leaf } else { VisitType::Begin };
                proof {
                    assert forall|k: int| 0 <= k < self.path@.len() implies #[trigger] self.fits_at(forest, k) by {
                        if before.path@.len() > 0 {
                            self.lemma_prefix(&before, forest, k);
                            assert(before.fits_at(forest, k));
                        }
                    }
                    if before.path@.len() > 0 {
                        assert(self@.path =~= before@.path);
                    }
                }
            },
        }
    }
}

/// Tree traversal
pub struct TreeWalk<T> {
    forest: Forest<T>,
    walk: Walk,
}

impl<T> TreeWalk<T> {
    /// The walk is on the forest that holds the tree alone.
    pub closed spec fn wf(&self) -> bool {
        &&& self.forest.wf()
        &&& self.forest@.len() == 1
        &&& self.walk.wf(&self.forest)
    }

    /// The tree under walk.
    pub closed spec fn tree(&self) -> Shape<T> {
        self.forest@[0]
    }

    /// The tree under walk as a forest of one tree, from which the first
    /// index of a path picks.
    pub open spec fn ground(&self) -> Seq<Shape<T>> {
        seq![self.tree()]
    }

    /// The place of the walk.
    pub closed spec fn cursor(&self) -> Cursor {
        self.walk@
    }

    /// The forest that holds the tree is the tree alone.
    proof fn lemma_ground(&self)
        requires
            self.forest@.len() == 1,
        ensures
            self.ground() == self.forest@,
    {
        assert(self.forest@ =~= seq![self.forest@[0]]);
    }

    /// Makes a walk on `tree` that stands at its root.
    pub fn from(tree: Tree<T>) -> (walk: Self)
        requires
            tree.wf(),
        ensures
            walk.wf(),
            walk.tree() == tree@,
            walk.cursor() == start(seq![tree@]),
    {
        let mut forest = Forest::new();
        forest.push_back(tree);
        proof {
            assert(forest@ =~= seq![tree@]);
        }
        let walk = Walk::on_forest(&forest);
        TreeWalk { forest, walk }
    }


    /// Gives up the walk and returns the tree.
    pub fn into_tree(self) -> (tree: Tree<T>)
        requires
            self.wf(),
        ensures
            tree.wf(),
            tree@ == self.tree(),
    {
        let mut forest = self.forest;
        forest.pop_front().unwrap()
    }

    /// Returns the current node in the traversal, or `None` if the
    /// traversal is completed.
    pub fn get(&self) -> (visit: Option<Visit<'_, T>>)
        requires
            self.wf(),
        ensures
            self.cursor().visit == VisitType::Idle ==> visit is None,
            self.cursor().visit != VisitType::Idle ==> visit is Some && visit.unwrap().kind() == self.cursor().visit
                && visit.unwrap().spec_node().wf()
                && visit.unwrap().spec_node()@ == at(self.ground(), self.cursor().path),
    {
        proof {
            self.lemma_ground();
        }
        self.walk.get(&self.forest)
    }

    /// Advance the cursor in the traversal.
    pub fn forward(&mut self)
        requires
            old(self).wf(),
        ensures
            final(self).wf(),
            final(self).ground() == old(self).ground(),
            final(self).cursor() == step(old(self).ground(), old(self).cursor()),
    {
        proof {
            self.lemma_ground();
        }
        self.walk.forward(&self.forest);
        proof {
            self.lemma_ground();
        }
    }

    /// Advance the cursor and return the newly visited node.
    ///
    /// NOTICE: the FIRST node in the traversal can NOT be accessed via
    /// next() call.
    pub fn next(&mut self) -> (visit: Option<Visit<'_, T>>)
        requires
            old(self).wf(),
        ensures
            final(self).wf(),
            final(self).ground() == old(self).ground(),
            final(self).cursor() == step(old(self).ground(), old(self).cursor()),
            final(self).cursor().visit == VisitType::Idle ==> visit is None,
            final(self).cursor().visit != VisitType::Idle ==> visit is Some
                && visit.unwrap().kind() == final(self).cursor().visit
                && visit.unwrap().spec_node().wf()
                && visit.unwrap().spec_node()@ == at(old(self).ground(), final(self).cursor().path),
    {
        proof {
            self.lemma_ground();
        }
        self.walk.forward(&self.forest);
        proof {
            self.lemma_ground();
        }
        self.walk.get(&self.forest)
    }

    /// Set the cursor to the current node's parent and returns it, or
    /// `None` if it has no parent.
    pub fn to_parent(&mut self) -> (visit: Option<Visit<'_, T>>)
        requires
            old(self).wf(),
        ensures
            final(self).wf(),
            final(self).ground() == old(self).ground(),
            final(self).cursor() == up(old(self).cursor()),
            final(self).cursor().visit == VisitType::Idle ==> visit is None,
            final(self).cursor().visit != VisitType::Idle ==> visit is Some
                && visit.unwrap().kind() == VisitType::End
                && visit.unwrap().spec_node().wf()
                && visit.unwrap().spec_node()@ == at(old(self).ground(), final(self).cursor().path),
    {
        proof {
            self.lemma_ground();
        }
        let visit = self.walk.to_parent(&self.forest);
        proof {
            self.lemma_ground();
        }
        visit
    }

    /// Returns the parent of current node, or `None` if it has no
    /// parent.
    pub fn get_parent(&self) -> (node: Option<&Node<T>>)
        requires
            self.wf(),
        ensures
            self.cursor().path.len() < 2 ==> node is None,
            self.cursor().path.len() >= 2 ==> node is Some && node.unwrap().wf()
                && node.unwrap()@ == at(self.ground(), self.cursor().path.drop_last()),
    {
        proof {
            self.lemma_ground();
        }
        self.walk.get_parent(&self.forest)
    }

    /// Set the cursor to the current node's `n`-th child and returns it,
    /// or `None` if it has no child. Notice that `n == 0` indicating the
    /// first child.
    pub fn to_child(&mut self, n: usize) -> (visit: Option<Visit<'_, T>>)
        requires
            old(self).wf(),
        ensures
            final(self).wf(),
            final(self).ground() == old(self).ground(),
            old(self).cursor().path.len() == 0 ==> visit is None && final(self).cursor() == old(self).cursor(),
            old(self).cursor().path.len() > 0 && at(old(self).ground(), old(self).cursor().path).children.len() == 0
                ==> visit is None && final(self).cursor() == (Cursor { direction: Direction::Right, ..old(self).cursor() }),
            old(self).cursor().path.len() > 0 && 0 < at(old(self).ground(), old(self).cursor().path).children.len() <= n
                ==> visit is None && final(self).cursor() == (Cursor {
                direction: Direction::Up,
                ..down(old(self).ground(), old(self).cursor())
            }),
            old(self).cursor().path.len() > 0 && n < at(old(self).ground(), old(self).cursor().path).children.len()
                ==> visit is Some
                && final(self).cursor() == sideways(old(self).ground(), down(old(self).ground(), old(self).cursor()), n as int)
                && visit.unwrap().kind() == final(self).cursor().visit
                && visit.unwrap().spec_node().wf()
                && visit.unwrap().spec_node()@ == at(old(self).ground(), final(self).cursor().path),
    {
        proof {
            self.lemma_ground();
        }
        let visit = self.walk.to_child(&self.forest, n);
        proof {
            self.lemma_ground();
        }
        visit
    }

    /// Set the cursor to the current node's next `n`-th sibling and
    /// returns it, or `None` if such sibling does not exist. Returns the
    /// current node if n == 0.
    pub fn to_sib(&mut self, n: usize) -> (visit: Option<Visit<'_, T>>)
        requires
            old(self).wf(),
        ensures
            final(self).wf(),
            final(self).ground() == old(self).ground(),
            old(self).cursor().path.len() == 0 ==> visit is None && final(self).cursor() == old(self).cursor(),
            old(self).cursor().path.len() > 0
                && old(self).cursor().path.last() + n >= level(old(self).ground(), old(self).cursor().path).len()
                ==> visit is None && final(self).cursor() == (Cursor { direction: Direction::Up, ..old(self).cursor() }),
            old(self).cursor().path.len() > 0
                && old(self).cursor().path.last() + n < level(old(self).ground(), old(self).cursor().path).len()
                ==> visit is Some && final(self).cursor() == sideways(old(self).ground(), old(self).cursor(), n as int)
                && visit.unwrap().kind() == final(self).cursor().visit
                && visit.unwrap().spec_node().wf()
                && visit.unwrap().spec_node()@ == at(old(self).ground(), final(self).cursor().path),
    {
        proof {
            self.lemma_ground();
        }
        let visit = self.walk.to_sib(&self.forest, n);
        proof {
            self.lemma_ground();
        }
        visit
    }

    /// Revisit a `Node` that reached `Visit::End`. No effect on
    /// `Visit::Begin` or `Visit::Leaf`.
    pub fn revisit(&mut self)
        requires
            old(self).wf(),
        ensures
            final(self).wf(),
            final(self).ground() == old(self).ground(),
            old(self).ground().len() == 0 ==> final(self).cursor() == old(self).cursor(),
            old(self).ground().len() > 0 && old(self).cursor().path.len() == 0
                ==> final(self).cursor() == start(old(self).ground()),
            old(self).ground().len() > 0 && old(self).cursor().path.len() > 0 ==> final(self).cursor() == (Cursor {
                path: old(self).cursor().path,
                visit: arrival(at(old(self).ground(), old(self).cursor().path)),
                direction: Direction::Down,
            }),
    {
        proof {
            self.lemma_ground();
        }
        self.walk.revisit(&self.forest);
        proof {
            self.lemma_ground();
        }
    }
}

/// Forest traversal
pub struct ForestWalk<T> {
    forest: Forest<T>,
    walk: Walk,
}

impl<T> ForestWalk<T> {
    /// The walk is on the forest.
    pub closed spec fn wf(&self) -> bool {
        &&& self.forest.wf()
        &&& self.walk.wf(&self.forest)
    }

    /// The forest under walk.
    pub closed spec fn forest(&self) -> Seq<Shape<T>> {
        self.forest@
    }

    /// The trees that the first index of a path picks from.
    pub open spec fn ground(&self) -> Seq<Shape<T>> {
        self.forest()
    }

    /// The place of the walk.
    pub closed spec fn cursor(&self) -> Cursor {
        self.walk@
    }

    /// The forest under walk is what its view shows.
    proof fn lemma_ground(&self)
        ensures
            self.ground() == self.forest@,
    {
    }

    /// Makes a walk on `forest` that stands at the root of its first
    /// tree.
    pub fn from(forest: Forest<T>) -> (walk: Self)
        requires
            forest.wf(),
        ensures
            walk.wf(),
            walk.forest() == forest@,
            walk.cursor() == start(forest@),
    {
        let walk = Walk::on_forest(&forest);
        ForestWalk { forest, walk }
    }


    /// Gives up the walk and returns the forest.
    pub fn into_forest(self) -> (forest: Forest<T>)
        requires
            self.wf(),
        ensures
            forest.wf(),
            forest@ == self.forest(),
    {
        self.forest
    }

    /// Returns the current node in the traversal, or `None` if the
    /// traversal is completed.
    pub fn get(&self) -> (visit: Option<Visit<'_, T>>)
        requires
            self.wf(),
        ensures
            self.cursor().visit == VisitType::Idle ==> visit is None,
            self.cursor().visit != VisitType::Idle ==> visit is Some && visit.unwrap().kind() == self.cursor().visit
                && visit.unwrap().spec_node().wf()
                && visit.unwrap().spec_node()@ == at(self.ground(), self.cursor().path),
    {
        proof {
            self.lemma_ground();
        }
        self.walk.get(&self.forest)
    }

    /// Advance the cursor in the traversal.
    pub fn forward(&mut self)
        requires
            old(self).wf(),
        ensures
            final(self).wf(),
            final(self).ground() == old(self).ground(),
            final(self).cursor() == step(old(self).ground(), old(self).cursor()),
    {
        proof {
            self.lemma_ground();
        }
        self.walk.forward(&self.forest);
        proof {
            self.lemma_ground();
        }
    }

    /// Advance the cursor and return the newly visited node.
    ///
    /// NOTICE: the FIRST node in the traversal can NOT be accessed via
    /// next() call.
    pub fn next(&mut self) -> (visit: Option<Visit<'_, T>>)
        requires
            old(self).wf(),
        ensures
            final(self).wf(),
            final(self).ground() == old(self).ground(),
            final(self).cursor() == step(old(self).ground(), old(self).cursor()),
            final(self).cursor().visit == VisitType::Idle ==> visit is None,
            final(self).cursor().visit != VisitType::Idle ==> visit is Some
                && visit.unwrap().kind() == final(self).cursor().visit
                && visit.unwrap().spec_node().wf()
                && visit.unwrap().spec_node()@ == at(old(self).ground(), final(self).cursor().path),
    {
        proof {
            self.lemma_ground();
        }
        self.walk.forward(&self.forest);
        proof {
            self.lemma_ground();
        }
        self.walk.get(&self.forest)
    }

    /// Set the cursor to the current node's parent and returns it, or
    /// `None` if it has no parent.
    pub fn to_parent(&mut self) -> (visit: Option<Visit<'_, T>>)
        requires
            old(self).wf(),
        ensures
            final(self).wf(),
            final(self).ground() == old(self).ground(),
            final(self).cursor() == up(old(self).cursor()),
            final(self).cursor().visit == VisitType::Idle ==> visit is None,
            final(self).cursor().visit != VisitType::Idle ==> visit is Some
                && visit.unwrap().kind() == VisitType::End
                && visit.unwrap().spec_node().wf()
                && visit.unwrap().spec_node()@ == at(old(self).ground(), final(self).cursor().path),
    {
        proof {
            self.lemma_ground();
        }
        let visit = self.walk.to_parent(&self.forest);
        proof {
            self.lemma_ground();
        }
        visit
    }

    /// Returns the parent of current node, or `None` if it has no
    /// parent.
    pub fn get_parent(&self) -> (node: Option<&Node<T>>)
        requires
            self.wf(),
        ensures
            self.cursor().path.len() < 2 ==> node is None,
            self.cursor().path.len() >= 2 ==> node is Some && node.unwrap().wf()
                && node.unwrap()@ == at(self.ground(), self.cursor().path.drop_last()),
    {
        proof {
            self.lemma_ground();
        }
        self.walk.get_parent(&self.forest)
    }

    /// Set the cursor to the current node's `n`-th child and returns it,
    /// or `None` if it has no child. Notice that `n == 0` indicating the
    /// first child.
    pub fn to_child(&mut self, n: usize) -> (visit: Option<Visit<'_, T>>)
        requires
            old(self).wf(),
        ensures
            final(self).wf(),
            final(self).ground() == old(self).ground(),
            old(self).cursor().path.len() == 0 ==> visit is None && final(self).cursor() == old(self).cursor(),
            old(self).cursor().path.len() > 0 && at(old(self).ground(), old(self).cursor().path).children.len() == 0
                ==> visit is None && final(self).cursor() == (Cursor { direction: Direction::Right, ..old(self).cursor() }),
            old(self).cursor().path.len() > 0 && 0 < at(old(self).ground(), old(self).cursor().path).children.len() <= n
                ==> visit is None && final(self).cursor() == (Cursor {
                direction: Direction::Up,
                ..down(old(self).ground(), old(self).cursor())
            }),
            old(self).cursor().path.len() > 0 && n < at(old(self).ground(), old(self).cursor().path).children.len()
                ==> visit is Some
                && final(self).cursor() == sideways(old(self).ground(), down(old(self).ground(), old(self).cursor()), n as int)
                && visit.unwrap().kind() == final(self).cursor().visit
                && visit.unwrap().spec_node().wf()
                && visit.unwrap().spec_node()@ == at(old(self).ground(), final(self).cursor().path),
    {
        proof {
            self.lemma_ground();
        }
        let visit = self.walk.to_child(&self.forest, n);
        proof {
            self.lemma_ground();
        }
        visit
    }

    /// Set the cursor to the current node's next `n`-th sibling and
    /// returns it, or `None` if such sibling does not exist. Returns the
    /// current node if n == 0.
    pub fn to_sib(&mut self, n: usize) -> (visit: Option<Visit<'_, T>>)
        requires
            old(self).wf(),
        ensures
            final(self).wf(),
            final(self).ground() == old(self).ground(),
            old(self).cursor().path.len() == 0 ==> visit is None && final(self).cursor() == old(self).cursor(),
            old(self).cursor().path.len() > 0
                && old(self).cursor().path.last() + n >= level(old(self).ground(), old(self).cursor().path).len()
                ==> visit is None && final(self).cursor() == (Cursor { direction: Direction::Up, ..old(self).cursor() }),
            old(self).cursor().path.len() > 0
                && old(self).cursor().path.last() + n < level(old(self).ground(), old(self).cursor().path).len()
                ==> visit is Some && final(self).cursor() == sideways(old(self).ground(), old(self).cursor(), n as int)
                && visit.unwrap().kind() == final(self).cursor().visit
                && visit.unwrap().spec_node().wf()
                && visit.unwrap().spec_node()@ == at(old(self).ground(), final(self).cursor().path),
    {
        proof {
            self.lemma_ground();
        }
        let visit = self.walk.to_sib(&self.forest, n);
        proof {
            self.lemma_ground();
        }
        visit
    }

    /// Revisit a `Node` that reached `Visit::End`. No effect on
    /// `Visit::Begin` or `Visit::Leaf`.
    pub fn revisit(&mut self)
        requires
            old(self).wf(),
        ensures
            final(self).wf(),
            final(self).ground() == old(self).ground(),
            old(self).ground().len() == 0 ==> final(self).cursor() == old(self).cursor(),
            old(self).ground().len() > 0 && old(self).cursor().path.len() == 0
                ==> final(self).cursor() == start(old(self).ground()),
            old(self).ground().len() > 0 && old(self).cursor().path.len() > 0 ==> final(self).cursor() == (Cursor {
                path: old(self).cursor().path,
                visit: arrival(at(old(self).ground(), old(self).cursor().path)),
                direction: Direction::Down,
            }),
    {
        proof {
            self.lemma_ground();
        }
        self.walk.revisit(&self.forest);
        proof {
            self.lemma_ground();
        }
    }
}

} // verus!
