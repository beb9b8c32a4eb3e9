//! Making single nodes.

use vstd::prelude::*;
use super::forest::Forest;
use super::node::Node;
use crate::shape::Shape;

verus! {

/// Makes a node that holds `data` and has no children.
pub fn make_node<T>(data: T) -> (node: Node<T>)
    ensures
        node.wf(),
        node@ == Shape::leaf(data),
{
    let node = Node { forest: Forest::new(), data };
    proof {
        node.lemma_view();
    }
    node
}

} // verus!
