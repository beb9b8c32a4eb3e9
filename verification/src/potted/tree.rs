//! `Tree` composed of hierarchical `Node`s.

use vstd::prelude::*;
use super::forest::Forest;
use super::iter::{Iter, IterMut, Splitted};
use super::node::Node;
use super::pot::{Pot, ROOT};
use crate::bfs::{BfsForest, BfsTree, Moved};
use crate::shape::{count_nodes, lemma_count_one, lemma_count_step, Shape};
use crate::size::Size;

verus! {

/// A tree whose nodes stand in a pot of its own.
pub struct Tree<T> {
    pub(crate) pot: Pot<T>,
}

impl<T> Tree<T> {
    /// The pot is well formed, and its root holds data.
    pub closed spec fn wf(&self) -> bool {
        &&& self.pot.wf()
        &&& self.pot.datum(ROOT) is Some
        &&& self.pot.parent_of(ROOT) == 0
    }

    /// The tree below the root of the pot.
    pub closed spec fn view(&self) -> Shape<T> {
        self.pot.shape(ROOT)
    }

    /// The pot of the tree, in specifications.
    pub closed spec fn spec_pot(&self) -> Pot<T> {
        self.pot
    }

    /// The tree is what stands below the root of its pot.
    pub proof fn lemma_pot(&self)
        requires
            self.wf(),
        ensures
            self.spec_pot().wf(),
            self.spec_pot().has(ROOT),
            self.spec_pot().datum(ROOT) is Some,
            self.spec_pot().parent_of(ROOT) == 0,
            self@ == self.spec_pot().shape(ROOT),
    {
        self.pot.lemma_root();
        self.pot.lemma_sizes(ROOT);
    }

    /// Makes a tree of what stands in `pot`.
    pub(crate) fn from_pot(pot: Pot<T>) -> (tree: Self)
        requires
            pot.wf(),
            pot.datum(ROOT) is Some,
            pot.parent_of(ROOT) == 0,
        ensures
            tree.wf(),
            tree.spec_pot() == pot,
            tree@ == pot.shape(ROOT),
    {
        Tree { pot }
    }

    /// Makes a tree of one node that holds `data`.
    pub fn new(data: T) -> (tree: Self)
        ensures
            tree.wf(),
            tree@ == Shape::leaf(data),
    {
        let tree = Tree { pot: Pot::new_tree(data) };
        proof {
            tree.pot.lemma_root();
            tree.pot.lemma_shape(ROOT);
            assert(tree.pot.shapes(tree.pot.children(ROOT)) =~= Seq::<Shape<T>>::empty());
        }
        tree
    }

    /// Makes the tree that `bfs` visits.
    pub fn from_bfs(bfs: BfsTree<Moved<T>>) -> (tree: Self)
        requires
            bfs.iter.wf(),
            bfs.iter@.len() == 1,
            bfs.iter@[0].node_count() + 2 <= u32::MAX,
        ensures
            tree.wf(),
            tree@ == bfs.iter@[0],
    {
        let mut iter = bfs.iter;
        let ghost whole = iter@[0];
        proof {
            assert(iter@ =~= seq![whole]);
            lemma_count_one(whole);
            lemma_count_step(iter@);
            assert(iter@.drop_first() + whole.children =~= whole.children);
        }
        let visit = iter.next().unwrap();
        let mut pot = Pot::new_tree(visit.data);
        proof {
            pot.lemma_root();
        }
        let rest = BfsForest::from(iter, visit.size);
        pot.append_bfs(ROOT, rest.wrap());
        let tree = Tree { pot };
        proof {
            tree.pot.lemma_root();
            tree.pot.lemma_shape(ROOT);
            assert(tree.pot.children(ROOT).skip(0) =~= tree.pot.children(ROOT));
        }
        tree
    }

    /// Returns the root node.
    pub fn root(&self) -> (node: &Node<T>)
        requires
            self.wf(),
        ensures
            *node == self.spec_pot().node_at(ROOT),
    {
        proof {
            self.pot.lemma_root();
            self.pot.lemma_sizes(ROOT);
        }
        self.pot.node(ROOT)
    }

    /// Provides a forward iterator over the data of the children of
    /// the root, for changing them in place.
    pub fn iter_mut(&mut self) -> (iter: IterMut<'_, T>)
        requires
            old(self).wf(),
        ensures
            iter.wf(),
            iter.parent@ == ROOT,
            iter.pos@ == 0,
            *iter.pot == old(self).spec_pot(),
            *final(iter.pot) == final(self).spec_pot(),
    {
        proof {
            self.pot.lemma_root();
        }
        IterMut::new(&mut self.pot, ROOT)
    }

    /// Returns the pot of the tree.
    pub fn pot(&self) -> (pot: &Pot<T>)
        ensures
            *pot == self.spec_pot(),
    {
        &self.pot
    }

    /// Returns the pot of the tree, for changing the tree in place.
    pub fn pot_mut(&mut self) -> (pot: &mut Pot<T>)
        ensures
            *pot == old(self).spec_pot(),
            final(self).spec_pot() == *final(pot),
    {
        &mut self.pot
    }

    /// Returns the number of children of the root.
    pub fn degree(&self) -> (n: usize)
        requires
            self.wf(),
        ensures
            n == self@.degree(),
    {
        proof {
            self.pot.lemma_root();
            self.pot.lemma_sizes(ROOT);
            self.pot.lemma_size_of_shape(ROOT);
        }
        self.pot.degree(ROOT)
    }

    /// Returns the number of nodes of the tree.
    pub fn node_count(&self) -> (n: usize)
        requires
            self.wf(),
        ensures
            n == self@.node_count(),
    {
        proof {
            self.pot.lemma_root();
            self.pot.lemma_sizes(ROOT);
            self.pot.lemma_size_of_shape(ROOT);
        }
        self.pot.node_cnt(ROOT)
    }

    /// Provides a forward iterator over the children of the root.
    pub fn iter(&self) -> (iter: Iter<'_, T>)
        requires
            self.wf(),
        ensures
            iter.wf(),
            iter@ == self.spec_pot().children(ROOT),
            iter.pot() == self.spec_pot(),
    {
        proof {
            self.pot.lemma_root();
            self.pot.lemma_sizes(ROOT);
        }
        Iter::new(&self.pot, ROOT)
    }

    /// Provides the visits of the nodes of the tree in a breadth-first
    /// manner, with the size of the tree.
    pub fn bfs(&self) -> (bfs: BfsTree<Splitted<'_, T>>)
        requires
            self.wf(),
        ensures
            bfs.iter.wf(),
            bfs.iter.pot() == self.spec_pot(),
            bfs.iter@ == seq![ROOT],
            bfs.size.degree == 1,
            bfs.size.node_cnt == self@.node_count(),
    {
        proof {
            self.pot.lemma_root();
            self.pot.lemma_sizes(ROOT);
            self.pot.lemma_size_of_shape(ROOT);
        }
        let count = self.pot.node_cnt(ROOT);
        BfsTree::from(Splitted::from_node(&self.pot, ROOT), Size { degree: 1, node_cnt: count as u32 })
    }

    /// Takes the root off the tree: returns its data, and its children
    /// as a forest.
    pub fn abandon(self) -> (parts: (T, Forest<T>))
        requires
            self.wf(),
        ensures
            parts.1.wf(),
            self@ == (Shape { data: parts.0, children: parts.1@ }),
    {
        let mut pot = self.pot;
        proof {
            pot.lemma_root();
            pot.lemma_sizes(ROOT);
            pot.lemma_shape(ROOT);
        }
        let ghost before = pot;
        let data = pot.bare_root().unwrap();
        proof {
            pot.lemma_root();
            pot.lemma_sizes(ROOT);
            before.lemma_same_children(&pot, ROOT);
        }
        (data, Forest::from_pot(pot))
    }
}

} // verus!
