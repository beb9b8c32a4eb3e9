//! The mathematical model of trees and forests.

use vstd::prelude::*;

verus! {

/// A finite ordered tree: a payload and the sequence of child trees.
pub struct Shape<T> {
    pub data: T,
    pub children: Seq<Shape<T>>,
}

impl<T> Shape<T> {
    /// The tree with payload `data` and no children.
    pub open spec fn leaf(data: T) -> Shape<T> {
        Shape { data, children: Seq::empty() }
    }

    /// The tree with the same data at the root and with `children` as
    /// its children.
    pub open spec fn with_children(self, children: Seq<Shape<T>>) -> Shape<T> {
        Shape { data: self.data, children }
    }

    /// The tree with `tree` as a new first child.
    pub open spec fn push_front(self, tree: Shape<T>) -> Shape<T> {
        self.with_children(seq![tree] + self.children)
    }

    /// The tree with `tree` as a new last child.
    pub open spec fn push_back(self, tree: Shape<T>) -> Shape<T> {
        self.with_children(self.children.push(tree))
    }

    /// The tree without its first child.
    pub open spec fn pop_front(self) -> Shape<T> {
        self.with_children(self.children.drop_first())
    }

    /// The tree without its last child.
    pub open spec fn pop_back(self) -> Shape<T> {
        self.with_children(self.children.drop_last())
    }

    /// The tree with the trees of `forest` in front of its children.
    pub open spec fn prepend(self, forest: Seq<Shape<T>>) -> Shape<T> {
        self.with_children(forest + self.children)
    }

    /// The tree with the trees of `forest` behind its children.
    pub open spec fn append(self, forest: Seq<Shape<T>>) -> Shape<T> {
        self.with_children(self.children + forest)
    }

    /// The tree without its children.
    pub open spec fn abandon(self) -> Shape<T> {
        self.with_children(Seq::empty())
    }

    /// The number of direct children.
    pub open spec fn degree(self) -> nat {
        self.children.len()
    }

    /// The number of nodes of the tree, the root included.
    pub open spec fn node_count(self) -> nat
        decreases self,
    {
        1 + count_nodes(self.children)
    }
}

/// Whether `copy` can be what cloning the data of every node of `tree`
/// gives: the same tree, with a clone of the data at each node.
pub open spec fn cloned_tree<T: Clone>(tree: Shape<T>, copy: Shape<T>) -> bool
    decreases tree,
{
    &&& cloned::<T>(tree.data, copy.data)
    &&& tree.children.len() == copy.children.len()
    &&& forall|i: int| 0 <= i < tree.children.len() ==> cloned_tree(#[trigger] tree.children[i], copy.children[i])
}

/// Whether `copy` can be what cloning every tree of `forest` gives.
pub open spec fn cloned_forest<T: Clone>(forest: Seq<Shape<T>>, copy: Seq<Shape<T>>) -> bool {
    &&& forest.len() == copy.len()
    &&& forall|i: int| 0 <= i < forest.len() ==> cloned_tree(#[trigger] forest[i], copy[i])
}

/// The number of nodes in all trees of `forest` together.
pub open spec fn count_nodes<T>(forest: Seq<Shape<T>>) -> nat
    decreases forest,
{
    if forest.len() == 0 {
        0
    } else {
        forest[0].node_count() + count_nodes(forest.drop_first())
    }
}

/// One step of a depth first traversal: the visit of a leaf, or the
/// begin or the end of the visit of a node with children. It carries the
/// tree below the node.
pub enum Event<T> {
    Begin(Shape<T>),
    End(Shape<T>),
    Leaf(Shape<T>),
}

/// The steps of the depth first traversal of `tree`: a leaf is visited
/// once; a node with children is visited before and after the traversal
/// of its children, one after the other.
pub open spec fn events<T>(tree: Shape<T>) -> Seq<Event<T>>
    decreases tree,
{
    if tree.children.len() == 0 {
        seq![Event::Leaf(tree)]
    } else {
        seq![Event::Begin(tree)] + events_of(tree.children) + seq![Event::End(tree)]
    }
}

/// The steps of the depth first traversals of the trees of `forest`,
/// one tree after the other.
pub open spec fn events_of<T>(forest: Seq<Shape<T>>) -> Seq<Event<T>>
    decreases forest,
{
    if forest.len() == 0 {
        Seq::empty()
    } else {
        events(forest[0]) + events_of(forest.drop_first())
    }
}

/// The tree that `path` leads to in `forest`: the first index picks a
/// tree of the forest, each further index a child of the tree before.
pub open spec fn at<T>(forest: Seq<Shape<T>>, path: Seq<int>) -> Shape<T>
    recommends
        path.len() > 0,
    decreases path.len(),
{
    if path.len() <= 1 {
        forest[path[0]]
    } else {
        at(forest, path.drop_last()).children[path.last()]
    }
}

/// The trees among which the last index of `path` picks one.
pub open spec fn level<T>(forest: Seq<Shape<T>>, path: Seq<int>) -> Seq<Shape<T>> {
    if path.len() <= 1 {
        forest
    } else {
        at(forest, path.drop_last()).children
    }
}

/// Whether every index of `path` picks a tree that exists.
pub open spec fn valid<T>(forest: Seq<Shape<T>>, path: Seq<int>) -> bool
    decreases path.len(),
{
    if path.len() == 0 {
        true
    } else {
        valid(forest, path.drop_last()) && 0 <= path.last() < level(forest, path).len()
    }
}

/// The nodes of two forests laid side by side are counted by adding up
/// the counts of each.
pub proof fn lemma_count_concat<T>(a: Seq<Shape<T>>, b: Seq<Shape<T>>)
    ensures
        count_nodes(a + b) == count_nodes(a) + count_nodes(b),
    decreases a.len(),
{
    if a.len() == 0 {
        assert(a + b =~= b);
    } else {
        assert((a + b).drop_first() =~= a.drop_first() + b);
        assert((a + b)[0] == a[0]);
        lemma_count_concat(a.drop_first(), b);
    }
}

/// A forest of one tree has the nodes of that tree.
pub proof fn lemma_count_one<T>(tree: Shape<T>)
    ensures
        count_nodes(seq![tree]) == tree.node_count(),
{
    assert(seq![tree].drop_first() =~= Seq::<Shape<T>>::empty());
    assert(count_nodes(seq![tree].drop_first()) == 0);
}

/// The first `i + 1` trees of a forest have the nodes of the first `i`
/// and those of the tree at `i`; no part of a forest has more nodes than
/// the whole.
pub proof fn lemma_count_take<T>(forest: Seq<Shape<T>>, i: int)
    requires
        0 <= i < forest.len(),
    ensures
        count_nodes(forest.take(i + 1)) == count_nodes(forest.take(i)) + forest[i].node_count(),
        count_nodes(forest.take(i + 1)) <= count_nodes(forest),
{
    lemma_count_one(forest[i]);
    lemma_count_concat(forest.take(i), seq![forest[i]]);
    assert(forest.take(i + 1) =~= forest.take(i) + seq![forest[i]]);
    lemma_count_concat(forest.take(i + 1), forest.skip(i + 1));
    assert(forest =~= forest.take(i + 1) + forest.skip(i + 1));
}

/// Putting a tree into a forest adds its nodes to the forest's.
pub proof fn lemma_count_insert<T>(forest: Seq<Shape<T>>, i: int, tree: Shape<T>)
    requires
        0 <= i <= forest.len(),
    ensures
        count_nodes(forest.insert(i, tree)) == count_nodes(forest) + tree.node_count(),
{
    lemma_count_one(tree);
    lemma_count_concat(forest.take(i), forest.skip(i));
    lemma_count_concat(forest.take(i), seq![tree]);
    lemma_count_concat(forest.take(i) + seq![tree], forest.skip(i));
    assert(forest =~= forest.take(i) + forest.skip(i));
    assert(forest.insert(i, tree) =~= forest.take(i) + seq![tree] + forest.skip(i));
}

/// Taking a tree out of a forest takes its nodes from the forest's.
pub proof fn lemma_count_remove<T>(forest: Seq<Shape<T>>, i: int)
    requires
        0 <= i < forest.len(),
    ensures
        count_nodes(forest.remove(i)) + forest[i].node_count() == count_nodes(forest),
{
    lemma_count_insert(forest.remove(i), i, forest[i]);
    assert(forest.remove(i).insert(i, forest[i]) =~= forest);
}

/// A tree that gives up its children and gets them back is the tree it
/// was.
pub proof fn lemma_abandon_append<T>(tree: Shape<T>)
    ensures
        tree.abandon().append(tree.children) == tree,
{
    assert(Seq::<Shape<T>>::empty() + tree.children =~= tree.children);
}

/// A tree has as many children as its degree says, and one node more
/// than its children have together; so has every tree below it.
pub proof fn lemma_sizes<T>(tree: Shape<T>, path: Seq<int>)
    requires
        valid(tree.children, path),
    ensures
        tree.degree() == tree.children.len(),
        tree.node_count() == 1 + count_nodes(tree.children),
        path.len() > 0 ==> at(tree.children, path).degree() == at(tree.children, path).children.len(),
        path.len() > 0 ==> at(tree.children, path).node_count() == 1 + count_nodes(at(tree.children, path).children),
{
}

/// A new child adds its nodes to the tree's, and one to the degree; a
/// child that leaves takes them with it.
pub proof fn lemma_sizes_change<T>(tree: Shape<T>, child: Shape<T>)
    ensures
        tree.push_back(child).degree() == tree.degree() + 1,
        tree.push_front(child).degree() == tree.degree() + 1,
        tree.push_back(child).node_count() == tree.node_count() + child.node_count(),
        tree.push_front(child).node_count() == tree.node_count() + child.node_count(),
        tree.children.len() > 0 ==> tree.pop_front().node_count() + tree.children[0].node_count() == tree.node_count(),
        tree.children.len() > 0 ==> tree.pop_back().node_count() + tree.children.last().node_count() == tree.node_count(),
        tree.children.len() > 0 ==> tree.pop_front().degree() + 1 == tree.degree(),
        tree.children.len() > 0 ==> tree.pop_back().degree() + 1 == tree.degree(),
{
    lemma_count_insert(tree.children, tree.children.len() as int, child);
    assert(tree.children.insert(tree.children.len() as int, child) =~= tree.children.push(child));
    lemma_count_insert(tree.children, 0, child);
    assert(tree.children.insert(0, child) =~= seq![child] + tree.children);
    if tree.children.len() > 0 {
        lemma_count_remove(tree.children, 0);
        assert(tree.children.remove(0) =~= tree.children.drop_first());
        lemma_count_remove(tree.children, tree.children.len() - 1);
        assert(tree.children.remove(tree.children.len() - 1) =~= tree.children.drop_last());
    }
}

/// Trees that join a tree as a forest add their nodes to the tree's.
pub proof fn lemma_sizes_join<T>(tree: Shape<T>, forest: Seq<Shape<T>>)
    ensures
        tree.append(forest).degree() == tree.degree() + forest.len(),
        tree.prepend(forest).degree() == tree.degree() + forest.len(),
        tree.append(forest).node_count() == tree.node_count() + count_nodes(forest),
        tree.prepend(forest).node_count() == tree.node_count() + count_nodes(forest),
{
    lemma_count_concat(tree.children, forest);
    lemma_count_concat(forest, tree.children);
}

/// A forest has at least as many nodes as trees.
pub proof fn lemma_count_at_least<T>(forest: Seq<Shape<T>>)
    ensures
        count_nodes(forest) >= forest.len(),
    decreases forest.len(),
{
    if forest.len() > 0 {
        lemma_count_at_least(forest.drop_first());
        assert(forest[0].node_count() == 1 + count_nodes(forest[0].children));
        assert(count_nodes(forest) == forest[0].node_count() + count_nodes(forest.drop_first()));
    }
}

/// The children of all trees of `forest`, in order.
pub open spec fn kids_of<T>(forest: Seq<Shape<T>>) -> Seq<Shape<T>>
    decreases forest.len(),
{
    if forest.len() == 0 {
        Seq::empty()
    } else {
        forest[0].children + kids_of(forest.drop_first())
    }
}

/// The nodes of `forest` level by level: the roots, then their children,
/// then the children of those, each level from left to right. A node
/// stands here as the tree below it.
pub open spec fn level_order<T>(forest: Seq<Shape<T>>) -> Seq<Shape<T>>
    decreases count_nodes(forest),
{
    if forest.len() == 0 {
        Seq::empty()
    } else {
        proof {
            lemma_count_kids(forest);
        }
        forest + level_order(kids_of(forest))
    }
}

/// The nodes that a breadth first traversal visits when `queue` holds
/// the trees that wait: it visits the root of the first and puts its
/// children at the end of the queue.
pub open spec fn breadth_first<T>(queue: Seq<Shape<T>>) -> Seq<Shape<T>>
    decreases count_nodes(queue),
{
    if queue.len() == 0 {
        Seq::empty()
    } else {
        proof {
            lemma_count_step(queue);
        }
        seq![queue[0]] + breadth_first(queue.drop_first() + queue[0].children)
    }
}

/// The children of the trees of a forest have as many nodes as the
/// forest without its roots.
pub proof fn lemma_count_kids<T>(forest: Seq<Shape<T>>)
    ensures
        count_nodes(kids_of(forest)) + forest.len() == count_nodes(forest),
    decreases forest.len(),
{
    if forest.len() > 0 {
        lemma_count_kids(forest.drop_first());
        lemma_count_concat(forest[0].children, kids_of(forest.drop_first()));
        assert(forest[0].node_count() == 1 + count_nodes(forest[0].children));
        assert(count_nodes(forest) == forest[0].node_count() + count_nodes(forest.drop_first()));
    } else {
        assert(count_nodes(kids_of(forest)) == 0);
    }
}

/// Visiting the first tree of a queue leaves one node less to visit.
pub proof fn lemma_count_step<T>(queue: Seq<Shape<T>>)
    requires
        queue.len() > 0,
    ensures
        count_nodes(queue.drop_first() + queue[0].children) + 1 == count_nodes(queue),
{
    lemma_count_concat(queue.drop_first(), queue[0].children);
    assert(queue[0].node_count() == 1 + count_nodes(queue[0].children));
    assert(count_nodes(queue) == queue[0].node_count() + count_nodes(queue.drop_first()));
}

/// The children of two forests laid side by side are the children of
/// the one followed by the children of the other.
pub proof fn lemma_kids_concat<T>(a: Seq<Shape<T>>, b: Seq<Shape<T>>)
    ensures
        kids_of(a + b) == kids_of(a) + kids_of(b),
    decreases a.len(),
{
    if a.len() == 0 {
        assert(a + b =~= b);
        assert(kids_of(a) + kids_of(b) =~= kids_of(b));
    } else {
        assert((a + b).drop_first() =~= a.drop_first() + b);
        lemma_kids_concat(a.drop_first(), b);
        assert(kids_of(a + b) =~= kids_of(a) + kids_of(b));
    }
}

/// A breadth first traversal visits the trees that wait in front
/// before any other, and the children of those behind all that waits.
pub proof fn lemma_breadth_first_prefix<T>(front: Seq<Shape<T>>, back: Seq<Shape<T>>)
    ensures
        breadth_first(front + back) == front + breadth_first(back + kids_of(front)),
    decreases front.len(),
{
    if front.len() == 0 {
        assert(front + back =~= back);
        assert(back + kids_of(front) =~= back);
        assert(front + breadth_first(back) =~= breadth_first(back));
    } else {
        let queue = front + back;
        let x = front[0];
        let rest = front.drop_first();
        assert(queue[0] == x);
        assert(queue.drop_first() + x.children =~= rest + (back + x.children));
        lemma_breadth_first_prefix(rest, back + x.children);
        assert((back + x.children) + kids_of(rest) =~= back + kids_of(front));
        assert(seq![x] + (rest + breadth_first(back + kids_of(front))) =~= front + breadth_first(back + kids_of(front)));
    }
}

/// A breadth first traversal visits the nodes level by level.
pub proof fn lemma_breadth_first_is_level_order<T>(forest: Seq<Shape<T>>)
    ensures
        breadth_first(forest) == level_order(forest),
    decreases count_nodes(forest),
{
    if forest.len() > 0 {
        lemma_breadth_first_prefix(forest, Seq::empty());
        assert(forest + Seq::<Shape<T>>::empty() =~= forest);
        assert(Seq::<Shape<T>>::empty() + kids_of(forest) =~= kids_of(forest));
        lemma_count_kids(forest);
        lemma_breadth_first_is_level_order(kids_of(forest));
    }
}

} // verus!
