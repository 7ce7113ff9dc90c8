//! The contents of a leaf.

use crate::dtrie::char_list::CharList;
use crate::dtrie::identifier::Identifier;
use crate::dtrie::matchable::Matchable;
use crate::dtrie::shape::Shape;
use vstd::prelude::*;

verus! {

/// What a leaf holds: the last stretch of one interned string and the
/// identifier of that string.
pub struct LeafData {
    bytes: CharList,
    id: Identifier,
}

impl View for LeafData {
    type V = Shape;

    open spec fn view(&self) -> Shape {
        Shape::Leaf { label: self.label(), id: self.ident() }
    }
}

impl Clone for LeafData {
    fn clone(&self) -> (copy: LeafData)
        ensures
            copy@ == self@,
    {
        LeafData { bytes: self.bytes.clone(), id: self.id }
    }
}

impl LeafData {
    /// The label of the leaf.
    pub closed spec fn label(&self) -> Seq<u8> {
        self.bytes@
    }

    /// The identifier of the leaf.
    pub closed spec fn ident(&self) -> Identifier {
        self.id
    }

    pub fn new(id: Identifier, bytes: CharList) -> (leaf: LeafData)
        ensures
            leaf@ == (Shape::Leaf { label: bytes@, id }),
    {
        LeafData { id, bytes }
    }

    /// A leaf for `bytes` under the next unused number, which is then used.
    pub fn new_from_generator(bytes: CharList, next_id: &mut u64) -> (leaf: LeafData)
        requires
            *old(next_id) < u64::MAX,
        ensures
            leaf@ == (Shape::Leaf { label: bytes@, id: Identifier::from_number(*old(next_id)) }),
            *final(next_id) == *old(next_id) + 1,
    {
        let id = Identifier::issue(next_id);
        LeafData { id, bytes }
    }

    pub fn bytes(&self) -> (bytes: &CharList)
        ensures
            bytes@ == self.label(),
    {
        &self.bytes
    }

    pub fn id(&self) -> (id: Identifier)
        ensures
            id == self.ident(),
    {
        self.id
    }
}

impl Matchable for LeafData {
    open spec fn matching(&self, pattern: Seq<u8>) -> nat {
        self@.matching(pattern)
    }

    /// A leaf matches what its label shares with the pattern.
    fn similar_bytes(&self, pattern: CharList) -> (count: usize) {
        self.bytes.similar_bytes(pattern)
    }
}

} // verus!
