//! `Forest` composed of disjoint `Tree`s.

use vstd::prelude::*;
use super::iter::{Iter, IterMut, Splitted};
use super::pot::{Pot, ROOT};
use super::tree::Tree;
use crate::bfs::{BfsForest, Moved};
use crate::shape::{count_nodes, Shape};
use crate::size::Size;

verus! {

/// A forest whose nodes stand in a pot of its own, below a fake root
/// that holds no data.
pub struct Forest<T> {
    pub(crate) pot: Pot<T>,
}

impl<T> Forest<T> {
    /// The pot is well formed.
    pub closed spec fn wf(&self) -> bool {
        &&& self.pot.wf()
        &&& self.pot.parent_of(ROOT) == 0
    }

    /// The trees below the children of the fake root, in order.
    pub closed spec fn view(&self) -> Seq<Shape<T>> {
        self.pot.shapes(self.pot.children(ROOT))
    }

    /// The pot of the forest, in specifications.
    pub closed spec fn spec_pot(&self) -> Pot<T> {
        self.pot
    }

    /// The forest is what stands below the children of the fake root of
    /// its pot.
    pub proof fn lemma_pot(&self)
        requires
            self.wf(),
        ensures
            self.spec_pot().wf(),
            self.spec_pot().has(ROOT),
            self.spec_pot().parent_of(ROOT) == 0,
            self@ == self.spec_pot().shapes(self.spec_pot().children(ROOT)),
    {
        self.pot.lemma_root();
        self.pot.lemma_sizes(ROOT);
    }

    /// Makes a forest of what stands in `pot` below its root.
    pub(crate) fn from_pot(pot: Pot<T>) -> (forest: Self)
        requires
            pot.wf(),
            pot.parent_of(ROOT) == 0,
        ensures
            forest.wf(),
            forest.spec_pot() == pot,
            forest@ == pot.shapes(pot.children(ROOT)),
    {
        Forest { pot }
    }

    /// Makes an empty forest.
    pub fn new() -> (forest: Self)
        ensures
            forest.wf(),
            forest@ == Seq::<Shape<T>>::empty(),
    {
        let forest = Forest { pot: Pot::new_forest() };
        proof {
            assert(forest@ =~= Seq::<Shape<T>>::empty());
        }
        forest
    }

    /// Makes the forest that `bfs` visits.
    pub fn from_bfs(bfs: BfsForest<Moved<T>>) -> (forest: Self)
        requires
            bfs.iter.wf(),
            bfs.size.degree == bfs.iter@.len(),
            count_nodes(bfs.iter@) + 2 <= u32::MAX,
        ensures
            forest.wf(),
            forest@ == bfs.iter@,
    {
        let mut pot = Pot::new_forest();
        proof {
            pot.lemma_root();
        }
        pot.append_bfs(ROOT, bfs.wrap());
        let forest = Forest { pot };
        proof {
            assert(forest.pot.children(ROOT).skip(0) =~= forest.pot.children(ROOT));
        }
        forest
    }

    /// Puts a root that holds `root_data` above the trees of the forest.
    pub fn adopt(self, root_data: T) -> (tree: Tree<T>)
        requires
            self.wf(),
        ensures
            tree.wf(),
            tree@ == (Shape { data: root_data, children: self@ }),
    {
        let mut pot = self.pot;
        proof {
            pot.lemma_root();
            pot.lemma_sizes(ROOT);
        }
        let ghost before = pot;
        pot.set_data(ROOT, root_data);
        proof {
            pot.lemma_root();
            pot.lemma_sizes(ROOT);
            pot.lemma_shape(ROOT);
            before.lemma_same_children(&pot, ROOT);
        }
        Tree::from_pot(pot)
    }

    /// Provides a forward iterator over the data of the children of
    /// the fake root, for changing them in place.
    pub fn iter_mut(&mut self) -> (iter: IterMut<'_, T>)
        requires
            old(self).wf(),
        ensures
            iter.wf(),
            iter.parent@ == ROOT,
            iter.pos@ == 0,
            *iter.pot == old(self).spec_pot(),
            *final(iter.pot) == final(self).spec_pot(),
    {
        proof {
            self.pot.lemma_root();
        }
        IterMut::new(&mut self.pot, ROOT)
    }

    /// Returns the pot of the forest.
    pub fn pot(&self) -> (pot: &Pot<T>)
        ensures
            *pot == self.spec_pot(),
    {
        &self.pot
    }

    /// Returns the pot of the forest, for changing the forest in place.
    pub fn pot_mut(&mut self) -> (pot: &mut Pot<T>)
        ensures
            *pot == old(self).spec_pot(),
            final(self).spec_pot() == *final(pot),
    {
        &mut self.pot
    }

    /// Returns the number of trees in the forest.
    pub fn degree(&self) -> (n: usize)
        requires
            self.wf(),
        ensures
            n == self@.len(),
    {
        proof {
            self.pot.lemma_root();
            self.pot.lemma_sizes(ROOT);
        }
        self.pot.degree(ROOT)
    }

    /// Returns `true` if the forest holds no tree.
    pub fn is_empty(&self) -> (b: bool)
        requires
            self.wf(),
        ensures
            b == (self@.len() == 0),
    {
        proof {
            self.pot.lemma_root();
            self.pot.lemma_sizes(ROOT);
        }
        self.pot.is_leaf(ROOT)
    }

    /// Provides the visits of the nodes of the trees in a breadth-first
    /// manner, with the size of the forest.
    pub fn bfs(&self) -> (bfs: BfsForest<Splitted<'_, T>>)
        requires
            self.wf(),
        ensures
            bfs.iter.wf(),
            bfs.iter.pot() == self.spec_pot(),
            bfs.iter@ == self.spec_pot().children(ROOT),
            bfs.size.degree == self@.len(),
            bfs.size.node_cnt == count_nodes(self@),
    {
        proof {
            self.pot.lemma_root();
            self.pot.lemma_sizes(ROOT);
            self.pot.lemma_forest_count(ROOT);
        }
        let degree = self.pot.degree(ROOT);
        let count = self.pot.node_cnt(ROOT) - 1;
        BfsForest::from(Splitted::from_children(&self.pot, ROOT), Size { degree: degree as u32, node_cnt: count as u32 })
    }

    /// Provides a forward iterator over the roots of the trees.
    pub fn iter(&self) -> (iter: Iter<'_, T>)
        requires
            self.wf(),
        ensures
            iter.wf(),
            iter@ == self.spec_pot().children(ROOT),
            iter.pot() == self.spec_pot(),
    {
        proof {
            self.pot.lemma_root();
            self.pot.lemma_sizes(ROOT);
        }
        Iter::new(&self.pot, ROOT)
    }
}

} // verus!
