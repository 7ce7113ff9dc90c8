//! The nodes of the trie, and how a string is inserted, looked up and found
//! again in them.

use crate::dtrie::char_list::{
    lemma_shared_prefix_bounds, lemma_shared_prefix_same, shared_prefix, CharList,
};
use crate::dtrie::children::{child_shapes, Children};
use crate::dtrie::identifier::Identifier;
use crate::dtrie::internal_data::InternalData;
use crate::dtrie::leaf_data::LeafData;
use crate::dtrie::matchable::Matchable;
use crate::dtrie::proofs::{
    lemma_count_all_skip, lemma_first_match, lemma_inserted_in_place, lemma_inserted_lookup,
    lemma_inserted_wf, lemma_lookup_by_overlap, lemma_lookup_in_selected, lemma_matching_positive,
};
use crate::dtrie::shape::{all_wf, count_all, key_in, lookup_in, Shape};
use vstd::layout::size_of;
use vstd::prelude::*;
use vstd::slice::slice_subrange;
use vstd::utf8::{decode_utf8, valid_utf8};

verus! {

/// A node of the trie: a leaf, or an internal node with nodes below it.
/// The view is the node's shape.
pub enum RadixNode {
    Leaf(LeafData),
    Internal(InternalData),
}

/// The node of a `DLB`.
pub type DLBNode = RadixNode;

impl View for RadixNode {
    type V = Shape;

    open spec fn view(&self) -> Shape {
        match self {
            RadixNode::Leaf(data) => data@,
            RadixNode::Internal(data) => data@,
        }
    }
}

impl Clone for RadixNode {
    fn clone(&self) -> (copy: RadixNode)
        ensures
            copy@ == self@,
    {
        match self {
            RadixNode::Leaf(data) => RadixNode::Leaf(data.clone()),
            RadixNode::Internal(data) => RadixNode::Internal(data.clone()),
        }
    }
}

impl Matchable for RadixNode {
    open spec fn matching(&self, pattern: Seq<u8>) -> nat {
        self@.matching(pattern)
    }

    fn similar_bytes(&self, pattern: CharList) -> (count: usize)
        decreases self@, 2nat,
    {
        match self {
            RadixNode::Leaf(data) => data.similar_bytes(pattern),
            RadixNode::Internal(data) => data.similar_bytes(pattern),
        }
    }
}

/// The node for two strings of which the shorter begins the longer: the
/// shorter one with its identifier on top, the rest of the longer one in a
/// leaf below it.
spec fn full_match(
    left: (Identifier, Seq<u8>),
    right: (Identifier, Seq<u8>),
) -> Shape {
    let (smallest, largest) = if left.1.len() < right.1.len() {
        (left, right)
    } else {
        (right, left)
    };
    Shape::Internal {
        label: smallest.1,
        id: Some(smallest.0),
        children: seq![
            Shape::Leaf { label: largest.1.skip(smallest.1.len() as int), id: largest.0 },
        ],
    }
}

impl RadixNode {
    /// A copy of the node's label.
    pub fn bytes(&self) -> (bytes: CharList)
        ensures
            bytes@ == self@.label(),
    {
        match self {
            RadixNode::Leaf(data) => data.bytes().clone(),
            RadixNode::Internal(data) => data.bytes().clone(),
        }
    }

    fn build_full_match(left: (Identifier, CharList), right: (Identifier, CharList)) -> (node:
        RadixNode)
        ensures
            node@ == full_match((left.0, left.1@), (right.0, right.1@)),
    {
        let (smallest, mut largest) = if left.1.len() < right.1.len() {
            (left, right)
        } else {
            (right, left)
        };
        let remaining = largest.1.split_off(smallest.1.len());
        let leaf = RadixNode::Leaf(LeafData::new(largest.0, remaining));
        let mut child = Children::new();
        child.push_back(leaf);
        let internal_data = InternalData::new(smallest.1, Some(smallest.0), child);
        proof {
            assert(Seq::<Shape>::empty().push(leaf@) =~= seq![leaf@]);
        }
        RadixNode::Internal(internal_data)
    }

    /// Inserts `pattern`, which shares at least its first byte with the
    /// node's label, and gives back its identifier: the one it has already,
    /// or else the next unused one, which is then used.
    pub fn insert(&mut self, pattern: CharList, next_id: &mut u64) -> (id: Identifier)
        requires
            old(self)@.wf(),
            shared_prefix(old(self)@.label(), pattern@) > 0,
            *old(next_id) < u64::MAX,
        ensures
            final(self)@ == old(self)@.inserted(pattern@, Identifier::from_number(*old(next_id))),
            id == old(self)@.assigned(pattern@, Identifier::from_number(*old(next_id))),
            *final(next_id) == if old(self)@.lookup(pattern@) is Some {
                *old(next_id)
            } else {
                (*old(next_id) + 1) as u64
            },
            final(self)@.wf(),
            forall|key: Seq<u8>| #[trigger]
                final(self)@.lookup(key) == if key == pattern@ {
                    Some(id)
                } else {
                    old(self)@.lookup(key)
                },
            old(self)@.lookup(pattern@) is Some ==> final(self)@ == old(self)@,
            old(self)@.count() <= final(self)@.count() <= old(self)@.count() + 2,
        decreases old(self)@, 1nat,
    {
        let ghost before = self@;
        let ghost key = pattern@;
        let ghost fresh = Identifier::from_number(*next_id);
        let mut pattern = pattern;
        proof {
            lemma_shared_prefix_bounds(before.label(), key);
            lemma_lookup_by_overlap(before, key);
            lemma_inserted_wf(before, key, fresh);
            assert forall|other: Seq<u8>| #[trigger]
                before.inserted(key, fresh).lookup(other) == if other == key {
                    Some(before.assigned(key, fresh))
                } else {
                    before.lookup(other)
                } by {
                lemma_inserted_lookup(before, key, fresh, other);
            }
        }
        match self {
            RadixNode::Leaf(data) => {
                let similarity = data.similar_bytes(pattern.clone());
                let consumes_entire_pattern = similarity == pattern.len();
                let consumes_entire_leaf = similarity == data.bytes().len();
                if consumes_entire_pattern && consumes_entire_leaf {
                    data.id()
                } else if consumes_entire_leaf || consumes_entire_pattern {
                    let id = Identifier::issue(next_id);
                    let left = (id, pattern);
                    let right = (data.id(), data.bytes().clone());
                    *self = Self::build_full_match(left, right);
                    id
                } else {
                    let id = Identifier::issue(next_id);
                    let pattern_leftover = pattern.split_off(similarity);
                    let mut shared = data.bytes().clone();
                    let leaf_leftover = shared.split_off(similarity);
                    let existing_leaf = RadixNode::Leaf(LeafData::new(data.id(), leaf_leftover));
                    let pattern_leaf = RadixNode::Leaf(LeafData::new(id, pattern_leftover));
                    let mut children = Children::new();
                    children.push_back(existing_leaf);
                    children.push_back(pattern_leaf);
                    proof {
                        assert(Seq::<Shape>::empty().push(existing_leaf@).push(pattern_leaf@)
                            =~= seq![existing_leaf@, pattern_leaf@]);
                    }
                    *self = RadixNode::Internal(InternalData::new(shared, None, children));
                    id
                }
            },
            RadixNode::Internal(data) => {
                let similarity = data.bytes().similar_bytes(pattern.clone());
                let consumes_pattern_exactly = similarity == pattern.len();
                let consumes_bytestring_exactly = similarity == data.bytes().len();
                if consumes_pattern_exactly && consumes_bytestring_exactly {
                    match data.maybe_id() {
                        Some(id) => id,
                        None => {
                            let id = Identifier::issue(next_id);
                            data.set_maybe_id(Some(id));
                            id
                        },
                    }
                } else if consumes_pattern_exactly {
                    let mut internal = data.bytes().clone();
                    let internal_leftovers = internal.split_off(similarity);
                    let second_layer = RadixNode::Internal(
                        InternalData::new(
                            internal_leftovers,
                            data.maybe_id(),
                            data.clone_children(),
                        ),
                    );
                    let id = Identifier::issue(next_id);
                    let mut children = Children::new();
                    children.push_back(second_layer);
                    proof {
                        assert(Seq::<Shape>::empty().push(second_layer@) =~= seq![second_layer@]);
                    }
                    *self = RadixNode::Internal(InternalData::new(pattern, Some(id), children));
                    id
                } else if consumes_bytestring_exactly {
                    let remaining = pattern.split_off(similarity);
                    let (best_index, _count) = data.find_best_child(remaining.clone());
                    proof {
                        let siblings = before.children();
                        assert(all_wf(siblings));
                        lemma_first_match(siblings, remaining@);
                        lemma_inserted_in_place(siblings, remaining@, fresh);
                        lemma_lookup_in_selected(siblings, remaining@);
                    }
                    match best_index {
                        Some(idx) => {
                            proof {
                                let child = before.children()[idx as int];
                                assert(child.wf());
                                lemma_matching_positive(child, remaining@);
                            }
                            data.insert_at_index(idx, remaining, next_id)
                        },
                        None => {
                            let id = Identifier::issue(next_id);
                            let new_leaf = RadixNode::Leaf(LeafData::new(id, remaining));
                            data.add_child(new_leaf);
                            id
                        },
                    }
                } else {
                    let mut internal = data.bytes().clone();
                    let pattern_leftovers = pattern.split_off(similarity);
                    let internal_leftovers = internal.split_off(similarity);
                    let second_layer = RadixNode::Internal(
                        InternalData::new(
                            internal_leftovers,
                            data.maybe_id(),
                            data.clone_children(),
                        ),
                    );
                    let id = Identifier::issue(next_id);
                    let new_leaf = RadixNode::Leaf(LeafData::new(id, pattern_leftovers));
                    let mut children = Children::new();
                    children.push_back(second_layer);
                    children.push_back(new_leaf);
                    proof {
                        assert(Seq::<Shape>::empty().push(second_layer@).push(new_leaf@)
                            =~= seq![second_layer@, new_leaf@]);
                        assert(pattern@ =~= before.label().take(similarity as int));
                    }
                    *self = RadixNode::Internal(InternalData::new(pattern, None, children));
                    id
                }
            },
        }
    }

    /// The identifier under which `pattern` is interned in this node's
    /// subtree, where `pattern` is read from the start of the node's label.
    pub fn get(&self, pattern: &[u8]) -> (found: Option<Identifier>)
        ensures
            found == self@.lookup(pattern@),
        decreases self@,
    {
        proof {
            lemma_lookup_by_overlap(self@, pattern@);
            lemma_shared_prefix_bounds(self@.label(), pattern@);
        }
        match self {
            RadixNode::Leaf(data) => {
                let similarity = data.bytes().count_shared_prefix(pattern);
                if similarity == pattern.len() && similarity == data.bytes().len() {
                    Some(data.id())
                } else {
                    proof {
                        if pattern@ == data@.label() {
                            lemma_shared_prefix_same(pattern@);
                        }
                    }
                    None
                }
            },
            RadixNode::Internal(data) => {
                let similarity = data.bytes().count_shared_prefix(pattern);
                let consumes_pattern_exactly = similarity == pattern.len();
                let consumes_bytestring_exactly = similarity == data.bytes().len();
                if consumes_pattern_exactly && consumes_bytestring_exactly {
                    data.maybe_id()
                } else if consumes_bytestring_exactly {
                    let suffix = slice_subrange(pattern, similarity, pattern.len());
                    let ghost siblings = self@.children();
                    let children = data.children();
                    let count = children.len();
                    let mut index: usize = 0;
                    proof {
                        assert(siblings.skip(0) =~= siblings);
                    }
                    while index < count
                        invariant
                            index <= count,
                            count == siblings.len(),
                            siblings == child_shapes(*children),
                            self@ is Internal,
                            siblings == self@->children,
                            self@.lookup(pattern@) == lookup_in(siblings, suffix@),
                            lookup_in(siblings, suffix@) == lookup_in(
                                siblings.skip(index as int),
                                suffix@,
                            ),
                        decreases count - index,
                    {
                        let child = children.get(index);
                        proof {
                            assert(decreases_to!(self@ => self@->children));
                            assert(decreases_to!(self@->children => self@->children[index as int]));
                            assert(siblings.skip(index as int).drop_first() =~= siblings.skip(
                                index as int + 1,
                            ));
                        }
                        if let Some(result) = child.get(suffix) {
                            return Some(result);
                        }
                        index += 1;
                    }
                    None
                } else {
                    None
                }
            },
        }
    }

    /// Whether `pattern` is interned in this node's subtree.
    pub fn contains(&self, pattern: &[u8]) -> (found: bool)
        ensures
            found == self@.lookup(pattern@) is Some,
    {
        match self.get(pattern) {
            Some(_) => true,
            None => false,
        }
    }

    /// The number of nodes in this node's subtree, itself included.
    pub fn count_nodes(&self) -> (count: u64)
        requires
            self@.count() <= u64::MAX,
        ensures
            count == self@.count(),
        decreases self@,
    {
        match self {
            RadixNode::Leaf(_) => 1,
            RadixNode::Internal(data) => {
                let ghost siblings = self@.children();
                let children = data.children();
                let len = children.len();
                let mut total: u64 = 0;
                let mut index: usize = 0;
                proof {
                    assert(siblings.skip(0) =~= siblings);
                }
                while index < len
                    invariant
                        index <= len,
                        len == siblings.len(),
                        siblings == child_shapes(*children),
                        self@ is Internal,
                        siblings == self@->children,
                        count_all(siblings) < u64::MAX,
                        total + count_all(siblings.skip(index as int)) == count_all(siblings),
                    decreases len - index,
                {
                    let child = children.get(index);
                    proof {
                        assert(decreases_to!(self@ => self@->children));
                        assert(decreases_to!(self@->children => self@->children[index as int]));
                        lemma_count_all_skip(siblings, index as int);
                    }
                    total = total + child.count_nodes();
                    index += 1;
                }
                1 + total
            },
        }
    }

    /// The memory that the nodes of this subtree take, not counting what
    /// their labels and child lists keep elsewhere.
    pub fn size_of(&self) -> (bytes: usize)
        requires
            self@.count() * size_of::<RadixNode>() <= usize::MAX,
        ensures
            bytes == self@.count() * size_of::<RadixNode>(),
        decreases self@,
    {
        let unit = core::mem::size_of::<RadixNode>();
        proof {
            assert((1 + count_all(self@.children())) * unit == unit + count_all(self@.children())
                * unit) by (nonlinear_arith);
        }
        match self {
            RadixNode::Leaf(_) => {
                proof {
                    assert(self@.count() * unit == unit) by (nonlinear_arith)
                        requires
                            self@.count() == 1,
                    ;
                }
                unit
            },
            RadixNode::Internal(data) => {
                let ghost siblings = self@.children();
                let children = data.children();
                let len = children.len();
                let mut total: usize = 0;
                let mut index: usize = 0;
                proof {
                    assert(siblings.skip(0) =~= siblings);
                }
                while index < len
                    invariant
                        index <= len,
                        len == siblings.len(),
                        siblings == child_shapes(*children),
                        self@ is Internal,
                        siblings == self@->children,
                        unit == size_of::<RadixNode>(),
                        unit + count_all(siblings) * unit <= usize::MAX,
                        total + count_all(siblings.skip(index as int)) * unit == count_all(
                            siblings,
                        ) * unit,
                    decreases len - index,
                {
                    let child = children.get(index);
                    proof {
                        assert(decreases_to!(self@ => self@->children));
                        assert(decreases_to!(self@->children => self@->children[index as int]));
                        lemma_count_all_skip(siblings, index as int);
                        let here = siblings[index as int].count();
                        let behind = count_all(siblings.skip(index as int + 1));
                        assert((here + behind) * unit == here * unit + behind * unit)
                            by (nonlinear_arith);
                        assert(behind * unit >= 0) by (nonlinear_arith);
                    }
                    total = total + child.size_of();
                    index += 1;
                }
                proof {
                    let rest = siblings.skip(index as int);
                    assert(rest =~= Seq::<Shape>::empty());
                    assert(count_all(rest) * unit == 0) by (nonlinear_arith)
                        requires
                            count_all(rest) == 0,
                    ;
                    assert(self@.count() == 1 + count_all(siblings));
                    assert((1 + count_all(siblings)) * unit == unit + count_all(siblings) * unit)
                        by (nonlinear_arith);
                }
                unit + total
            },
        }
    }

    /// The text of the first node in this subtree that carries `id`, with
    /// `thus_far` in front of it: the labels on the way down to the node.
    pub fn resolve(&self, id: Identifier, thus_far: CharList) -> (text: Option<String>)
        requires
            self@.key_of(id) matches Some(key) ==> valid_utf8(thus_far@ + key),
        ensures
            self@.key_of(id) is None ==> text is None,
            self@.key_of(id) matches Some(key) ==> text matches Some(string) && string@
                == decode_utf8(thus_far@ + key),
        decreases self@,
    {
        match self {
            RadixNode::Leaf(data) => {
                if data.id() == id {
                    let result = thus_far.append(data.bytes().clone());
                    Some(result.to_string())
                } else {
                    None
                }
            },
            RadixNode::Internal(data) => {
                if let Some(internal_id) = data.maybe_id() {
                    if internal_id == id {
                        let result = thus_far.append(data.bytes().clone());
                        return Some(result.to_string());
                    }
                }
                let next_string = thus_far.append(data.bytes().clone());
                let ghost siblings = self@.children();
                let children = data.children();
                let count = children.len();
                let mut index: usize = 0;
                proof {
                    assert(siblings.skip(0) =~= siblings);
                }
                while index < count
                    invariant
                        index <= count,
                        count == siblings.len(),
                        siblings == child_shapes(*children),
                        self@ is Internal,
                        siblings == self@->children,
                        self@.ident() != Some(id),
                        next_string@ == thus_far@ + self@.label(),
                        self@.key_of(id) matches Some(key) ==> valid_utf8(thus_far@ + key),
                        key_in(siblings, id) == key_in(siblings.skip(index as int), id),
                    decreases count - index,
                {
                    let child = children.get(index);
                    proof {
                        assert(decreases_to!(self@ => self@->children));
                        assert(decreases_to!(self@->children => self@->children[index as int]));
                        assert(siblings.skip(index as int).drop_first() =~= siblings.skip(
                            index as int + 1,
                        ));
                        if child@.key_of(id) is Some {
                            let rest = child@.key_of(id)->0;
                            assert(next_string@ + rest =~= thus_far@ + (self@.label() + rest));
                        }
                    }
                    if let Some(found) = child.resolve(id, next_string.clone()) {
                        return Some(found);
                    }
                    index += 1;
                }
                None
            },
        }
    }
}

} // verus!
