//! The collection that holds the children of an internal node.

use crate::dtrie::node::RadixNode;
use crate::dtrie::shape::Shape;
use vstd::prelude::*;

verus! {

/// The nodes below an internal node, in the order in which they were added.
///
/// They are kept in a persistent vector, so that a copy of the collection
/// shares its storage with the collection it was made from.
#[verifier::external_body]
pub struct Children {
    nodes: im::Vector<RadixNode>,
}

/// The shapes of the nodes that a collection holds, from first to last.
pub uninterp spec fn child_shapes(children: Children) -> Seq<Shape>;

impl Children {
    /// `im::Vector::new`: a vector that holds nothing.
    #[verifier::external_body]
    pub(crate) fn new() -> (children: Children)
        ensures
            child_shapes(children) == Seq::<Shape>::empty(),
    {
        Children { nodes: im::Vector::new() }
    }

    /// `im::Vector::len`: the number of items in the vector.
    #[verifier::external_body]
    pub(crate) fn len(&self) -> (n: usize)
        ensures
            n == child_shapes(*self).len(),
    {
        self.nodes.len()
    }

    /// `im::Vector::push_back`: the item becomes the last one, and the items
    /// before it stay as they are.
    #[verifier::external_body]
    pub(crate) fn push_back(&mut self, node: RadixNode)
        ensures
            child_shapes(*final(self)) == child_shapes(*old(self)).push(node@),
    {
        self.nodes.push_back(node)
    }

    /// `Index::index` of `im::Vector`: the item at place `i`. It panics where
    /// `i` is not below the length, so such an `i` is not admitted.
    #[verifier::external_body]
    pub(crate) fn get(&self, i: usize) -> (node: &RadixNode)
        requires
            i < child_shapes(*self).len(),
        ensures
            node@ == child_shapes(*self)[i as int],
    {
        &self.nodes[i]
    }

    /// `IndexMut::index_mut` of `im::Vector`: the item at place `i`, to be
    /// changed in place; the other items stay as they are. It panics where
    /// `i` is not below the length, so such an `i` is not admitted.
    #[verifier::external_body]
    pub(crate) fn get_mut(&mut self, i: usize) -> (node: &mut RadixNode)
        requires
            i < child_shapes(*old(self)).len(),
        ensures
            node@ == child_shapes(*old(self))[i as int],
            child_shapes(*final(self)) == child_shapes(*old(self)).update(i as int, final(node)@),
    {
        &mut self.nodes[i]
    }

    /// `Clone::clone` of `im::Vector`: a vector with the same items in the
    /// same order. Where it copies an item, it does so with the item's own
    /// `clone`, which keeps the shape.
    #[verifier::external_body]
    fn duplicate(&self) -> (copy: Children)
        ensures
            child_shapes(copy) == child_shapes(*self),
    {
        Children { nodes: self.nodes.clone() }
    }
}

impl Clone for Children {
    fn clone(&self) -> (copy: Children)
        ensures
            child_shapes(copy) == child_shapes(*self),
    {
        self.duplicate()
    }
}

} // verus!
