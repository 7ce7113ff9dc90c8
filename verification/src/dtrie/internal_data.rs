//! The contents of an internal node.

use crate::dtrie::char_list::{lemma_shared_prefix_bounds, shared_prefix, CharList};
use crate::dtrie::children::{child_shapes, Children};
use crate::dtrie::identifier::Identifier;
use crate::dtrie::matchable::Matchable;
use crate::dtrie::node::RadixNode;
use crate::dtrie::proofs::{
    lemma_at_most_one_match, lemma_best_match_bound, lemma_best_match_none,
    lemma_best_match_of_one, lemma_first_match_is, lemma_first_match_none, lemma_matching_bound,
};
use crate::dtrie::shape::{all_wf, best_match, first_match, Shape};
use vstd::prelude::*;

verus! {

/// What an internal node holds: a stretch of bytes that all strings below
/// it share, the identifier of the string that ends here if that string is
/// interned, and the nodes below.
pub struct InternalData {
    bytes: CharList,
    maybe_id: Option<Identifier>,
    children: Children,
}

impl View for InternalData {
    type V = Shape;

    open spec fn view(&self) -> Shape {
        Shape::Internal { label: self.label(), id: self.ident(), children: self.child_shapes() }
    }
}

impl Clone for InternalData {
    fn clone(&self) -> (copy: InternalData)
        ensures
            copy@ == self@,
    {
        InternalData {
            bytes: self.bytes.clone(),
            maybe_id: self.maybe_id,
            children: self.children.clone(),
        }
    }
}

impl InternalData {
    /// The label of the node.
    pub closed spec fn label(&self) -> Seq<u8> {
        self.bytes@
    }

    /// The identifier of the node, if it has one.
    pub closed spec fn ident(&self) -> Option<Identifier> {
        self.maybe_id
    }

    /// The shapes of the nodes below, from first to last.
    pub closed spec fn child_shapes(&self) -> Seq<Shape> {
        child_shapes(self.children)
    }

    pub fn new(bytes: CharList, complete: Option<Identifier>, children: Children) -> (data:
        InternalData)
        ensures
            data@ == (Shape::Internal {
                label: bytes@,
                id: complete,
                children: child_shapes(children),
            }),
    {
        InternalData { bytes, children, maybe_id: complete }
    }

    pub fn set_maybe_id(&mut self, id: Option<Identifier>)
        ensures
            final(self)@ == (Shape::Internal {
                label: old(self).label(),
                id,
                children: old(self).child_shapes(),
            }),
    {
        self.maybe_id = id;
    }

    pub fn bytes(&self) -> (bytes: &CharList)
        ensures
            bytes@ == self.label(),
    {
        &self.bytes
    }

    pub fn maybe_id(&self) -> (id: Option<Identifier>)
        ensures
            id == self.ident(),
    {
        self.maybe_id
    }

    pub fn children(&self) -> (children: &Children)
        ensures
            child_shapes(*children) == self.child_shapes(),
    {
        &self.children
    }

    /// Puts `node` behind the children that are there.
    pub fn add_child(&mut self, node: RadixNode)
        ensures
            final(self)@ == (Shape::Internal {
                label: old(self).label(),
                id: old(self).ident(),
                children: old(self).child_shapes().push(node@),
            }),
    {
        self.children.push_back(node);
    }

    /// A copy of the children.
    pub fn clone_children(&self) -> (children: Children)
        ensures
            child_shapes(children) == self.child_shapes(),
    {
        self.children.clone()
    }

    /// Inserts `pattern` into the child at place `idx`.
    pub fn insert_at_index(&mut self, idx: usize, pattern: CharList, next_id: &mut u64) -> (id:
        Identifier)
        requires
            idx < old(self)@.children().len(),
            old(self)@.children()[idx as int].wf(),
            shared_prefix(old(self)@.children()[idx as int].label(), pattern@) > 0,
            *old(next_id) < u64::MAX,
        ensures
            final(self)@ == (Shape::Internal {
                label: old(self)@.label(),
                id: old(self)@.ident(),
                children: old(self)@.children().update(
                    idx as int,
                    old(self)@.children()[idx as int].inserted(
                        pattern@,
                        Identifier::from_number(*old(next_id)),
                    ),
                ),
            }),
            id == old(self)@.children()[idx as int].assigned(
                pattern@,
                Identifier::from_number(*old(next_id)),
            ),
            *final(next_id) == if old(self)@.children()[idx as int].lookup(pattern@) is Some {
                *old(next_id)
            } else {
                (*old(next_id) + 1) as u64
            },
        decreases old(self)@, 0nat,
    {
        proof {
            assert(decreases_to!(old(self)@ => old(self)@->children));
            assert(decreases_to!(old(self)@->children => old(self)@->children[idx as int]));
        }
        let child = self.children.get_mut(idx);
        child.insert(pattern, next_id)
    }

    /// Looks for the first child that matches at least one byte of
    /// `pattern`, and gives its place and how many bytes it matches. Among
    /// well-formed children it is the only one that matches, and so the one
    /// that matches most.
    pub fn find_best_child(&self, pattern: CharList) -> (best: (Option<usize>, usize))
        ensures
            match best.0 {
                Some(i) => first_match(self@.children(), pattern@) == Some(i as int) && best.1
                    == self@.children()[i as int].matching(pattern@),
                None => first_match(self@.children(), pattern@) is None && best.1 == 0,
            },
            best.0 is Some && all_wf(self@.children()) ==> forall|j: int|
                0 <= j < self@.children().len() && j != best.0->0 ==> (
                #[trigger] self@.children()[j]).matching(pattern@) == 0,
            best.0 is None || all_wf(self@.children()) ==> best.1 == best_match(
                self@.children(),
                pattern@,
            ),
    {
        let mut index: usize = 0;
        let count = self.children.len();
        while index < count
            invariant
                index <= count,
                count == self@.children().len(),
                forall|j: int| 0 <= j < index ==> (#[trigger] self@.children()[j]).matching(
                    pattern@,
                ) == 0,
            decreases count - index,
        {
            let next_count = self.children.get(index).similar_bytes(pattern.clone());
            if next_count > 0 {
                proof {
                    let siblings = self@.children();
                    lemma_first_match_is(siblings, pattern@, index as int);
                    if all_wf(siblings) {
                        assert forall|j: int| 0 <= j < siblings.len() && j != index implies (
                        #[trigger] siblings[j]).matching(pattern@) == 0 by {
                            if siblings[j].matching(pattern@) > 0 {
                                lemma_at_most_one_match(siblings, pattern@, index as int, j);
                            }
                        }
                        lemma_best_match_of_one(siblings, pattern@, index as int);
                    }
                }
                return (Some(index), next_count);
            }
            index += 1;
        }
        proof {
            lemma_first_match_none(self@.children(), pattern@);
            lemma_best_match_none(self@.children(), pattern@);
        }
        (None, 0)
    }

    /// Counts the leading bytes of `pattern` that can be matched by walking
    /// down from this node: those shared with the label and, where the
    /// whole label is matched, the most that a child matches of the rest.
    pub fn total_matching_bytes(&self, pattern: CharList) -> (count: usize)
        ensures
            count == self@.matching(pattern@),
        decreases self@, 0nat,
    {
        let similarity = self.bytes.similar_bytes(pattern.clone());
        proof {
            lemma_shared_prefix_bounds(self.bytes@, pattern@);
        }
        if similarity == self.bytes.len() {
            let skippable = self.bytes.len();
            let length = pattern.len();
            let mut pattern = pattern;
            let remaining = pattern.split_off(skippable);
            let mut max: usize = 0;
            let mut index: usize = 0;
            let count = self.children.len();
            let ghost siblings = self@.children();
            proof {
                assert(siblings.skip(0) =~= siblings);
                lemma_best_match_bound(siblings, remaining@);
            }
            while index < count
                invariant
                    index <= count,
                    count == siblings.len(),
                    siblings == self@.children(),
                    siblings == child_shapes(self.children),
                    max <= remaining@.len(),
                    skippable + remaining@.len() == length,
                    best_match(siblings, remaining@) == (if max >= best_match(
                        siblings.skip(index as int),
                        remaining@,
                    ) {
                        max as nat
                    } else {
                        best_match(siblings.skip(index as int), remaining@)
                    }),
                decreases count - index,
            {
                let child = self.children.get(index);
                proof {
                    assert(decreases_to!(self@ => self@->children));
                    assert(decreases_to!(self@->children => self@->children[index as int]));
                    lemma_matching_bound(child@, remaining@);
                    assert(siblings.skip(index as int).drop_first() =~= siblings.skip(
                        index as int + 1,
                    ));
                }
                let next_count = child.similar_bytes(remaining.clone());
                if next_count > max {
                    max = next_count;
                }
                index += 1;
            }
            return skippable + max;
        }
        similarity
    }
}

impl Matchable for InternalData {
    open spec fn matching(&self, pattern: Seq<u8>) -> nat {
        self@.matching(pattern)
    }

    /// An internal node matches what can be matched by walking down from it.
    fn similar_bytes(&self, pattern: CharList) -> (count: usize)
        decreases self@, 1nat,
    {
        self.total_matching_bytes(pattern)
    }
}

} // verus!
