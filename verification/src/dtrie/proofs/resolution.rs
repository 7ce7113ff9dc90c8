//! How the string found for an identifier relates to what is known of
//! that string.

use crate::dtrie::identifier::Identifier;
use crate::dtrie::proofs::lookup::{lemma_lookup_in_witness, lemma_lookup_starts_with_label};
use crate::dtrie::shape::{all_wf, disjoint, key_in, lookup_in, Shape};
use vstd::prelude::*;

verus! {

/// In a well-formed node, the string found for an identifier is known
/// under that identifier.
pub proof fn lemma_key_of_sound(s: Shape, id: Identifier)
    requires
        s.wf(),
        s.key_of(id) is Some,
    ensures
        s.lookup(s.key_of(id)->0) == Some(id),
    decreases s,
{
    match s {
        Shape::Leaf { .. } => {},
        Shape::Internal { label, id: own, children } => {
            if own != Some(id) {
                let rest = key_in(children, id)->0;
                let key = label + rest;
                lemma_key_in_sound(children, id);
                let j = lemma_lookup_in_witness(children, rest);
                lemma_lookup_starts_with_label(children[j], rest);
                assert(children[j].wf());
                assert(key.subrange(0, label.len() as int) =~= label);
                assert(key.skip(label.len() as int) =~= rest);
            }
        },
    }
}

/// Among well-formed siblings, the string found for an identifier is known
/// under that identifier.
pub proof fn lemma_key_in_sound(siblings: Seq<Shape>, id: Identifier)
    requires
        all_wf(siblings),
        key_in(siblings, id) is Some,
    ensures
        lookup_in(siblings, key_in(siblings, id)->0) == Some(id),
    decreases siblings,
{
    let key = key_in(siblings, id)->0;
    assert(siblings[0].wf());
    if siblings[0].key_of(id) is Some {
        lemma_key_of_sound(siblings[0], id);
    } else {
        let rest = siblings.drop_first();
        assert forall|j: int| 0 <= j < rest.len() implies (#[trigger] rest[j]).wf() by {
            assert(rest[j] == siblings[j + 1]);
        }
        assert(disjoint(rest)) by {
            assert forall|a: int, b: int| 0 <= a < b < rest.len() implies (
            #[trigger] rest[a]).label().first() != (#[trigger] rest[b]).label().first() by {
                assert(rest[a] == siblings[a + 1]);
                assert(rest[b] == siblings[b + 1]);
            }
        }
        lemma_key_in_sound(rest, id);
        let j = lemma_lookup_in_witness(rest, key);
        assert(rest[j] == siblings[j + 1]);
        assert(siblings[j + 1].wf());
        lemma_lookup_starts_with_label(rest[j], key);
        assert(siblings[0].label().first() != siblings[j + 1].label().first());
        if siblings[0].lookup(key) is Some {
            lemma_lookup_starts_with_label(siblings[0], key);
        }
    }
}

/// An identifier under which a node knows a key is found in the node.
pub proof fn lemma_key_of_complete(s: Shape, key: Seq<u8>)
    requires
        s.lookup(key) is Some,
    ensures
        s.key_of(s.lookup(key)->0) is Some,
    decreases s,
{
    match s {
        Shape::Leaf { .. } => {},
        Shape::Internal { label, children, .. } => {
            if key != label {
                lemma_key_in_complete(children, key.skip(label.len() as int));
            }
        },
    }
}

/// An identifier under which siblings know a key is found among them.
pub proof fn lemma_key_in_complete(siblings: Seq<Shape>, key: Seq<u8>)
    requires
        lookup_in(siblings, key) is Some,
    ensures
        key_in(siblings, lookup_in(siblings, key)->0) is Some,
    decreases siblings,
{
    if siblings[0].lookup(key) is Some {
        lemma_key_of_complete(siblings[0], key);
    } else {
        lemma_key_in_complete(siblings.drop_first(), key);
    }
}

} // verus!
