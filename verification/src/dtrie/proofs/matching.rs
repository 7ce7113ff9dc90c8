//! How much of a pattern nodes and siblings match, and which sibling
//! matches first.

use crate::dtrie::char_list::{lemma_shared_prefix_bounds, shared_prefix};
use crate::dtrie::shape::{all_wf, best_match, first_match, Shape};
use vstd::prelude::*;

verus! {

/// Two strings share a first byte exactly when they share a prefix.
pub proof fn lemma_shared_prefix_positive(a: Seq<u8>, b: Seq<u8>)
    ensures
        shared_prefix(a, b) > 0 <==> a.len() > 0 && b.len() > 0 && a[0] == b[0],
{
}

/// A well-formed node matches a byte of the pattern exactly when its label
/// and the pattern start with the same byte.
pub proof fn lemma_matching_positive(s: Shape, pattern: Seq<u8>)
    requires
        s.label().len() > 0,
    ensures
        s.matching(pattern) > 0 <==> pattern.len() > 0 && s.label()[0] == pattern[0],
        s.matching(pattern) > 0 <==> shared_prefix(s.label(), pattern) > 0,
{
    lemma_shared_prefix_positive(s.label(), pattern);
}

/// No node matches more bytes than the pattern has.
pub proof fn lemma_matching_bound(s: Shape, pattern: Seq<u8>)
    ensures
        s.matching(pattern) <= pattern.len(),
    decreases s,
{
    lemma_shared_prefix_bounds(s.label(), pattern);
    match s {
        Shape::Leaf { .. } => {},
        Shape::Internal { label, children, .. } => {
            let similarity = shared_prefix(label, pattern);
            if similarity == label.len() {
                lemma_best_match_bound(children, pattern.skip(similarity as int));
            }
        },
    }
}

/// No sibling matches more bytes than the pattern has.
pub proof fn lemma_best_match_bound(siblings: Seq<Shape>, pattern: Seq<u8>)
    ensures
        best_match(siblings, pattern) <= pattern.len(),
    decreases siblings,
{
    if siblings.len() > 0 {
        lemma_matching_bound(siblings[0], pattern);
        lemma_best_match_bound(siblings.drop_first(), pattern);
    }
}

/// Where no sibling matches a byte of a pattern, the best match among them
/// is no byte.
pub proof fn lemma_best_match_none(siblings: Seq<Shape>, pattern: Seq<u8>)
    requires
        forall|j: int| 0 <= j < siblings.len() ==> (#[trigger] siblings[j]).matching(pattern) == 0,
    ensures
        best_match(siblings, pattern) == 0,
    decreases siblings.len(),
{
    if siblings.len() > 0 {
        let rest = siblings.drop_first();
        assert(siblings[0].matching(pattern) == 0);
        assert forall|j: int| 0 <= j < rest.len() implies (#[trigger] rest[j]).matching(pattern)
            == 0 by {
            assert(rest[j] == siblings[j + 1]);
        }
        lemma_best_match_none(rest, pattern);
    }
}

/// Where no sibling but one matches a byte of a pattern, the best match
/// among them is what that one matches.
pub proof fn lemma_best_match_of_one(siblings: Seq<Shape>, pattern: Seq<u8>, i: int)
    requires
        0 <= i < siblings.len(),
        forall|j: int|
            0 <= j < siblings.len() && j != i ==> (#[trigger] siblings[j]).matching(pattern) == 0,
    ensures
        best_match(siblings, pattern) == siblings[i].matching(pattern),
    decreases siblings.len(),
{
    let rest = siblings.drop_first();
    if i == 0 {
        assert forall|j: int| 0 <= j < rest.len() implies (#[trigger] rest[j]).matching(pattern)
            == 0 by {
            assert(rest[j] == siblings[j + 1]);
        }
        lemma_best_match_none(rest, pattern);
    } else {
        assert(siblings[0].matching(pattern) == 0);
        assert forall|j: int| 0 <= j < rest.len() && j != i - 1 implies (
        #[trigger] rest[j]).matching(pattern) == 0 by {
            assert(rest[j] == siblings[j + 1]);
        }
        assert(rest[i - 1] == siblings[i]);
        lemma_best_match_of_one(rest, pattern, i - 1);
    }
}

/// The first match is a sibling that matches, with none that matches before
/// it; there is none exactly when no sibling matches.
pub proof fn lemma_first_match(siblings: Seq<Shape>, pattern: Seq<u8>)
    ensures
        match first_match(siblings, pattern) {
            Some(i) => {
                &&& 0 <= i < siblings.len()
                &&& siblings[i].matching(pattern) > 0
                &&& forall|j: int| 0 <= j < i ==> (#[trigger] siblings[j]).matching(pattern) == 0
            },
            None => forall|j: int|
                0 <= j < siblings.len() ==> (#[trigger] siblings[j]).matching(pattern) == 0,
        },
    decreases siblings.len(),
{
    if siblings.len() > 0 && siblings[0].matching(pattern) == 0 {
        let rest = siblings.drop_first();
        lemma_first_match(rest, pattern);
        match first_match(rest, pattern) {
            Some(i) => {
                assert forall|j: int| 0 <= j < i + 1 implies (#[trigger] siblings[j]).matching(
                    pattern,
                ) == 0 by {
                    if j > 0 {
                        assert(siblings[j] == rest[j - 1]);
                    }
                }
            },
            None => {
                assert forall|j: int| 0 <= j < siblings.len() implies (
                #[trigger] siblings[j]).matching(pattern) == 0 by {
                    if j > 0 {
                        assert(siblings[j] == rest[j - 1]);
                    }
                }
            },
        }
    }
}

/// A sibling that matches, with none that matches before it, is the first
/// match.
pub proof fn lemma_first_match_is(siblings: Seq<Shape>, pattern: Seq<u8>, i: int)
    requires
        0 <= i < siblings.len(),
        siblings[i].matching(pattern) > 0,
        forall|j: int| 0 <= j < i ==> (#[trigger] siblings[j]).matching(pattern) == 0,
    ensures
        first_match(siblings, pattern) == Some(i),
    decreases siblings.len(),
{
    if i > 0 {
        let rest = siblings.drop_first();
        assert(siblings[0].matching(pattern) == 0);
        assert forall|j: int| 0 <= j < i - 1 implies (#[trigger] rest[j]).matching(pattern)
            == 0 by {
            assert(rest[j] == siblings[j + 1]);
        }
        lemma_first_match_is(rest, pattern, i - 1);
    }
}

/// Where no sibling matches, there is no first match.
pub proof fn lemma_first_match_none(siblings: Seq<Shape>, pattern: Seq<u8>)
    requires
        forall|j: int| 0 <= j < siblings.len() ==> (#[trigger] siblings[j]).matching(pattern) == 0,
    ensures
        first_match(siblings, pattern) is None,
    decreases siblings.len(),
{
    if siblings.len() > 0 {
        let rest = siblings.drop_first();
        assert(siblings[0].matching(pattern) == 0);
        assert forall|j: int| 0 <= j < rest.len() implies (#[trigger] rest[j]).matching(pattern)
            == 0 by {
            assert(rest[j] == siblings[j + 1]);
        }
        lemma_first_match_none(rest, pattern);
    }
}

/// Among well-formed siblings at most one matches a byte of a pattern.
pub proof fn lemma_at_most_one_match(siblings: Seq<Shape>, pattern: Seq<u8>, i: int, j: int)
    requires
        all_wf(siblings),
        0 <= i < siblings.len(),
        0 <= j < siblings.len(),
        siblings[i].matching(pattern) > 0,
        siblings[j].matching(pattern) > 0,
    ensures
        i == j,
{
    assert(siblings[i].wf());
    assert(siblings[j].wf());
    lemma_matching_positive(siblings[i], pattern);
    lemma_matching_positive(siblings[j], pattern);
    if i < j {
        assert(siblings[i].label().first() != siblings[j].label().first());
    }
    if j < i {
        assert(siblings[j].label().first() != siblings[i].label().first());
    }
}

} // verus!
