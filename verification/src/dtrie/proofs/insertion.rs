//! What inserting a pattern does to nodes and siblings.

use crate::dtrie::char_list::{lemma_shared_prefix_bounds, shared_prefix};
use crate::dtrie::identifier::Identifier;
use crate::dtrie::proofs::counting::{
    lemma_count_all_one, lemma_count_all_push, lemma_count_all_two, lemma_count_all_update,
};
use crate::dtrie::proofs::lookup::{
    lemma_lookup_in_absent, lemma_lookup_in_at, lemma_lookup_in_one, lemma_lookup_in_two,
    lemma_lookup_starts_with_label, lemma_relabeled_lookup, lemma_same_parts,
};
use crate::dtrie::proofs::matching::{
    lemma_first_match, lemma_matching_positive, lemma_shared_prefix_positive,
};
use crate::dtrie::shape::{all_wf, count_all, disjoint, first_match, inserted_in, lookup_in, Shape};
use vstd::prelude::*;

verus! {

/// Inserting among siblings changes the first match in place, or puts a new
/// leaf behind them all where there is no match.
pub proof fn lemma_inserted_in_place(siblings: Seq<Shape>, pattern: Seq<u8>, fresh: Identifier)
    ensures
        inserted_in(siblings, pattern, fresh) == match first_match(siblings, pattern) {
            Some(i) => siblings.update(i, siblings[i].inserted(pattern, fresh)),
            None => siblings.push(Shape::Leaf { label: pattern, id: fresh }),
        },
    decreases siblings.len(),
{
    lemma_first_match(siblings, pattern);
    if siblings.len() == 0 {
        assert(inserted_in(siblings, pattern, fresh) =~= siblings.push(
            Shape::Leaf { label: pattern, id: fresh },
        ));
    } else if siblings[0].matching(pattern) > 0 {
        assert(inserted_in(siblings, pattern, fresh) =~= siblings.update(
            0,
            siblings[0].inserted(pattern, fresh),
        ));
    } else {
        let rest = siblings.drop_first();
        lemma_inserted_in_place(rest, pattern, fresh);
        lemma_first_match(rest, pattern);
        match first_match(rest, pattern) {
            Some(i) => {
                assert(inserted_in(siblings, pattern, fresh) =~= siblings.update(
                    i + 1,
                    siblings[i + 1].inserted(pattern, fresh),
                ));
            },
            None => {
                assert(inserted_in(siblings, pattern, fresh) =~= siblings.push(
                    Shape::Leaf { label: pattern, id: fresh },
                ));
            },
        }
    }
}

/// Inserting a pattern that shares a first byte with a well-formed node
/// leaves the node well formed and its first byte in place, adds at most two
/// nodes, and changes nothing where the pattern is known already.
pub proof fn lemma_inserted_wf(s: Shape, pattern: Seq<u8>, fresh: Identifier)
    requires
        s.wf(),
        shared_prefix(s.label(), pattern) > 0,
    ensures
        s.inserted(pattern, fresh).wf(),
        s.inserted(pattern, fresh).label().first() == s.label().first(),
        s.lookup(pattern) is Some ==> s.inserted(pattern, fresh) == s,
        s.count() <= s.inserted(pattern, fresh).count() <= s.count() + 2,
    decreases s,
{
    let label = s.label();
    let n = shared_prefix(label, pattern) as int;
    lemma_shared_prefix_bounds(label, pattern);
    lemma_shared_prefix_positive(label, pattern);
    assert(label.take(n)[0] == label[0]);
    match s {
        Shape::Leaf { label, id } => {
            let old_rest = Shape::Leaf { label: label.skip(n), id };
            let new_rest = Shape::Leaf { label: pattern.skip(n), id: fresh };
            if n == label.len() && n == pattern.len() {
            } else if n == label.len() {
                lemma_count_all_one(new_rest);
                assert(pattern != label);
                assert(new_rest.wf());
                assert(all_wf(seq![new_rest]));
            } else if n == pattern.len() {
                lemma_count_all_one(old_rest);
                assert(pattern != label);
                assert(old_rest.wf());
                assert(all_wf(seq![old_rest]));
            } else {
                lemma_count_all_two(old_rest, new_rest);
                assert(pattern != label) by {
                    assert(label[n] != pattern[n]);
                }
                assert(old_rest.wf());
                assert(new_rest.wf());
                assert(all_wf(seq![old_rest, new_rest]));
            }
        },
        Shape::Internal { label, id, children } => {
            let demoted = Shape::Internal { label: label.skip(n), id, children };
            let new_rest = Shape::Leaf { label: pattern.skip(n), id: fresh };
            if n == label.len() && n == pattern.len() {
                assert(label =~= label.take(n));
                assert(pattern =~= pattern.take(n));
            } else if n == label.len() {
                let rest = pattern.skip(n);
                lemma_inserted_in_wf(children, rest, fresh);
                assert(label =~= label.take(n));
                assert(label =~= pattern.subrange(0, label.len() as int));
                assert(label.is_prefix_of(pattern));
            } else if n == pattern.len() {
                lemma_count_all_one(demoted);
                assert(!label.is_prefix_of(pattern));
                assert(demoted.wf());
                assert(all_wf(seq![demoted]));
            } else {
                lemma_count_all_two(demoted, new_rest);
                assert(!label.is_prefix_of(pattern)) by {
                    if label.is_prefix_of(pattern) {
                        assert(pattern.subrange(0, label.len() as int)[n] == pattern[n]);
                    }
                }
                assert(demoted.wf());
                assert(new_rest.wf());
                assert(all_wf(seq![demoted, new_rest]));
            }
        },
    }
}

/// Inserting a pattern among well-formed siblings leaves them well formed,
/// adds at most two nodes, and changes nothing where the pattern is known
/// already.
pub proof fn lemma_inserted_in_wf(siblings: Seq<Shape>, pattern: Seq<u8>, fresh: Identifier)
    requires
        all_wf(siblings),
        pattern.len() > 0,
    ensures
        all_wf(inserted_in(siblings, pattern, fresh)),
        lookup_in(siblings, pattern) is Some ==> inserted_in(siblings, pattern, fresh) == siblings,
        count_all(siblings) <= count_all(inserted_in(siblings, pattern, fresh)) <= count_all(
            siblings,
        ) + 2,
        inserted_in(siblings, pattern, fresh).len() >= siblings.len(),
        forall|j: int|
            0 <= j < siblings.len() ==> (#[trigger] inserted_in(
                siblings,
                pattern,
                fresh,
            )[j]).label().first() == siblings[j].label().first(),
    decreases siblings,
{
    let after = inserted_in(siblings, pattern, fresh);
    lemma_inserted_in_place(siblings, pattern, fresh);
    lemma_first_match(siblings, pattern);
    match first_match(siblings, pattern) {
        Some(i) => {
            let changed = siblings[i].inserted(pattern, fresh);
            assert(siblings[i].wf());
            lemma_matching_positive(siblings[i], pattern);
            lemma_inserted_wf(siblings[i], pattern, fresh);
            lemma_count_all_update(siblings, i, changed);
            assert forall|j: int| 0 <= j < after.len() implies (#[trigger] after[j]).wf() by {
                if j != i {
                    assert(siblings[j].wf());
                }
            }
            assert(disjoint(after)) by {
                assert forall|a: int, b: int| 0 <= a < b < after.len() implies (
                #[trigger] after[a]).label().first() != (#[trigger] after[b]).label().first() by {
                    assert(siblings[a].label().first() != siblings[b].label().first());
                }
            }
            if lookup_in(siblings, pattern) is Some {
                lemma_lookup_in_at(siblings, pattern, i);
                assert(after =~= siblings);
            }
        },
        None => {
            let leaf = Shape::Leaf { label: pattern, id: fresh };
            lemma_count_all_push(siblings, leaf);
            assert forall|j: int| 0 <= j < siblings.len() implies (
            #[trigger] siblings[j]).label().len() > 0 && (pattern.len() == 0
                || siblings[j].label()[0] != pattern[0]) by {
                assert(siblings[j].wf());
                lemma_matching_positive(siblings[j], pattern);
            }
            lemma_lookup_in_absent(siblings, pattern);
            assert forall|j: int| 0 <= j < after.len() implies (#[trigger] after[j]).wf() by {
                if j < siblings.len() {
                    assert(siblings[j].wf());
                }
            }
            assert(disjoint(after)) by {
                assert forall|a: int, b: int| 0 <= a < b < after.len() implies (
                #[trigger] after[a]).label().first() != (#[trigger] after[b]).label().first() by {
                    if b < siblings.len() {
                        assert(siblings[a].label().first() != siblings[b].label().first());
                    } else {
                        assert(siblings[a].label().len() > 0);
                    }
                }
            }
        },
    }
}

/// After a pattern has been inserted into a well-formed node, the node
/// knows the pattern under the identifier that the insertion gives back,
/// and every other key as before.
pub proof fn lemma_inserted_lookup(s: Shape, pattern: Seq<u8>, fresh: Identifier, key: Seq<u8>)
    requires
        s.wf(),
        shared_prefix(s.label(), pattern) > 0,
    ensures
        s.inserted(pattern, fresh).lookup(key) == if key == pattern {
            Some(s.assigned(pattern, fresh))
        } else {
            s.lookup(key)
        },
    decreases s,
{
    let label = s.label();
    let n = shared_prefix(label, pattern) as int;
    let after = s.inserted(pattern, fresh);
    let demoted = s.relabeled(label.skip(n));
    let new_rest = Shape::Leaf { label: pattern.skip(n), id: fresh };
    lemma_shared_prefix_bounds(label, pattern);
    if s.lookup(key) is Some {
        lemma_lookup_starts_with_label(s, key);
    }
    if s.lookup(pattern) is Some {
        lemma_lookup_starts_with_label(s, pattern);
    }
    if n == label.len() && n == pattern.len() {
        assert(label =~= label.take(n));
        assert(pattern =~= pattern.take(n));
    } else if n == label.len() {
        let rest = pattern.skip(n);
        let tail = key.skip(n);
        assert(label =~= label.take(n));
        assert(label =~= pattern.subrange(0, label.len() as int));
        assert(label.is_prefix_of(pattern));
        if label.is_prefix_of(key) {
            assert(key.take(n) =~= pattern.take(n));
            if tail == rest {
                lemma_same_parts(key, pattern, n);
            }
        }
        match s {
            Shape::Leaf { .. } => {
                lemma_lookup_in_one(new_rest, tail);
            },
            Shape::Internal { children, .. } => {
                lemma_inserted_in_lookup(children, rest, fresh, tail);
            },
        }
    } else {
        assert(pattern.take(n).is_prefix_of(key) ==> key.take(n) =~= pattern.take(n));
        assert(label.is_prefix_of(key) ==> label.take(n).is_prefix_of(key)) by {
            if label.is_prefix_of(key) {
                assert(key.subrange(0, n) =~= key.subrange(0, label.len() as int).subrange(0, n));
            }
        }
        assert(label.is_prefix_of(key) ==> key[n] == label[n]) by {
            if label.is_prefix_of(key) {
                assert(key.subrange(0, label.len() as int)[n] == label[n]);
            }
        }
        if pattern.take(n).is_prefix_of(key) {
            lemma_relabeled_lookup(s, n, key);
        }
        lemma_relabeled_lookup(s, n, pattern);
        if n == pattern.len() {
            assert(pattern =~= pattern.take(n));
            lemma_lookup_in_one(demoted, key.skip(n));
            assert(after == Shape::Internal {
                label: pattern,
                id: Some(fresh),
                children: seq![demoted],
            });
        } else {
            assert(label[n] != pattern[n]);
            lemma_lookup_in_two(demoted, new_rest, key.skip(n));
            lemma_lookup_in_two(demoted, new_rest, pattern.skip(n));
            assert(after == Shape::Internal {
                label: label.take(n),
                id: None,
                children: seq![demoted, new_rest],
            });
            if key.len() >= n && key.skip(n) == pattern.skip(n) && key.take(n) == pattern.take(n) {
                lemma_same_parts(key, pattern, n);
            }
            if demoted.lookup(pattern.skip(n)) is Some {
                lemma_lookup_starts_with_label(demoted, pattern.skip(n));
                assert(pattern.skip(n)[0] == label.skip(n)[0]) by {
                    assert(pattern.skip(n).subrange(0, label.skip(n).len() as int)[0]
                        == label.skip(n)[0]);
                }
            }
        }
    }
}

/// After a pattern has been inserted among well-formed siblings, they know
/// the pattern under the identifier it had among them, or else under
/// `fresh`, and every other key as before.
pub proof fn lemma_inserted_in_lookup(
    siblings: Seq<Shape>,
    pattern: Seq<u8>,
    fresh: Identifier,
    key: Seq<u8>,
)
    requires
        all_wf(siblings),
        pattern.len() > 0,
    ensures
        lookup_in(inserted_in(siblings, pattern, fresh), key) == if key == pattern {
            Some(
                match lookup_in(siblings, pattern) {
                    Some(id) => id,
                    None => fresh,
                },
            )
        } else {
            lookup_in(siblings, key)
        },
    decreases siblings,
{
    let after = inserted_in(siblings, pattern, fresh);
    lemma_inserted_in_place(siblings, pattern, fresh);
    lemma_inserted_in_wf(siblings, pattern, fresh);
    lemma_first_match(siblings, pattern);
    assert forall|j: int| 0 <= j < siblings.len() implies (#[trigger] siblings[j]).label().len()
        > 0 by {
        assert(siblings[j].wf());
    }
    assert forall|j: int| 0 <= j < after.len() implies (#[trigger] after[j]).label().len()
        > 0 by {
        assert(after[j].wf());
    }
    match first_match(siblings, pattern) {
        Some(i) => {
            lemma_matching_positive(siblings[i], pattern);
            lemma_inserted_wf(siblings[i], pattern, fresh);
            lemma_inserted_lookup(siblings[i], pattern, fresh, key);
            lemma_lookup_in_at(siblings, pattern, i);
            if key.len() > 0 && exists|j: int|
                0 <= j < siblings.len() && (#[trigger] siblings[j]).label()[0] == key[0] {
                let j = choose|j: int|
                    0 <= j < siblings.len() && (#[trigger] siblings[j]).label()[0] == key[0];
                lemma_lookup_in_at(siblings, key, j);
                lemma_lookup_in_at(after, key, j);
                if j != i {
                    assert(siblings[i].label().first() != siblings[j].label().first());
                }
            } else {
                lemma_lookup_in_absent(siblings, key);
                lemma_lookup_in_absent(after, key);
            }
        },
        None => {
            let leaf = Shape::Leaf { label: pattern, id: fresh };
            assert forall|j: int| 0 <= j < siblings.len() implies (
            #[trigger] siblings[j]).label().len() > 0 && (pattern.len() == 0
                || siblings[j].label()[0] != pattern[0]) by {
                lemma_matching_positive(siblings[j], pattern);
            }
            lemma_lookup_in_absent(siblings, pattern);
            if key.len() > 0 && exists|j: int|
                0 <= j < after.len() && (#[trigger] after[j]).label()[0] == key[0] {
                let j = choose|j: int|
                    0 <= j < after.len() && (#[trigger] after[j]).label()[0] == key[0];
                lemma_lookup_in_at(after, key, j);
                if j < siblings.len() {
                    assert(after[j] == siblings[j]);
                    lemma_lookup_in_at(siblings, key, j);
                } else {
                    assert(after[j] == leaf);
                    lemma_lookup_in_absent(siblings, key);
                }
            } else {
                assert forall|j: int| 0 <= j < siblings.len() implies (
                #[trigger] siblings[j]).label().len() > 0 && (key.len() == 0
                    || siblings[j].label()[0] != key[0]) by {
                    assert(after[j] == siblings[j]);
                }
                assert(after[siblings.len() as int] == leaf);
                lemma_lookup_in_absent(siblings, key);
                lemma_lookup_in_absent(after, key);
            }
        },
    }
}

} // verus!
