//! Child count and subtree size of a node.

use vstd::prelude::*;
use vstd::std_specs::ops::{AddSpecImpl, SubSpecImpl};

verus! {

/// A struct keeping the node's children count and all its descendants
/// count for resource management purpose.
#[derive(Copy, Clone, Debug, PartialEq, Eq, Structural)]
pub struct Size {
    /// count of children node
    pub degree: u32,
    /// count of all nodes, including itself and all its descendants
    pub node_cnt: u32,
}

impl Size {
    /// Whether both counts of `self` and `rhs` can be added up in a
    /// `u32`.
    pub open spec fn fits_with(self, rhs: Size) -> bool {
        self.degree + rhs.degree <= u32::MAX && self.node_cnt + rhs.node_cnt <= u32::MAX
    }

    /// Whether `self` holds no less than `rhs` in both counts.
    pub open spec fn covers(self, rhs: Size) -> bool {
        self.degree >= rhs.degree && self.node_cnt >= rhs.node_cnt
    }

    /// The two sizes added up, count by count.
    pub open spec fn plus(self, rhs: Size) -> Size {
        Size { degree: (self.degree + rhs.degree) as u32, node_cnt: (self.node_cnt + rhs.node_cnt) as u32 }
    }

    /// The size less `rhs`, count by count.
    pub open spec fn minus(self, rhs: Size) -> Size {
        Size { degree: (self.degree - rhs.degree) as u32, node_cnt: (self.node_cnt - rhs.node_cnt) as u32 }
    }

    /// Adds `rhs` to the size, count by count.
    pub fn add_assign(&mut self, rhs: Size)
        requires
            old(self).fits_with(rhs),
        ensures
            *final(self) == old(self).plus(rhs),
    {
        self.degree = self.degree + rhs.degree;
        self.node_cnt = self.node_cnt + rhs.node_cnt;
    }

    /// Takes `rhs` from the size, count by count.
    pub fn sub_assign(&mut self, rhs: Size)
        requires
            old(self).covers(rhs),
        ensures
            *final(self) == old(self).minus(rhs),
    {
        self.degree = self.degree - rhs.degree;
        self.node_cnt = self.node_cnt - rhs.node_cnt;
    }
}

impl AddSpecImpl for Size {
    open spec fn obeys_add_spec() -> bool {
        true
    }

    open spec fn add_req(self, rhs: Size) -> bool {
        self.fits_with(rhs)
    }

    open spec fn add_spec(self, rhs: Size) -> Size {
        self.plus(rhs)
    }
}

impl core::ops::Add for Size {
    type Output = Size;

    fn add(self, rhs: Size) -> (sum: Size) {
        Size { degree: self.degree + rhs.degree, node_cnt: self.node_cnt + rhs.node_cnt }
    }
}

impl SubSpecImpl for Size {
    open spec fn obeys_sub_spec() -> bool {
        true
    }

    open spec fn sub_req(self, rhs: Size) -> bool {
        self.covers(rhs)
    }

    open spec fn sub_spec(self, rhs: Size) -> Size {
        self.minus(rhs)
    }
}

impl core::ops::Sub for Size {
    type Output = Size;

    fn sub(self, rhs: Size) -> (rest: Size) {
        Size { degree: self.degree - rhs.degree, node_cnt: self.node_cnt - rhs.node_cnt }
    }
}

} // verus!
