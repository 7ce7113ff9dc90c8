//! What nodes and siblings know of a key.

use crate::dtrie::char_list::{lemma_shared_prefix_bounds, shared_prefix};
use crate::dtrie::proofs::matching::{lemma_first_match, lemma_matching_positive};
use crate::dtrie::shape::{all_wf, disjoint, first_match, lookup_in, Shape};
use vstd::prelude::*;

verus! {

/// Two strings that agree before and behind a cut are the same string.
pub proof fn lemma_same_parts(a: Seq<u8>, b: Seq<u8>, n: int)
    requires
        0 <= n <= a.len(),
        n <= b.len(),
        a.take(n) == b.take(n),
        a.skip(n) == b.skip(n),
    ensures
        a == b,
{
    assert(a =~= a.take(n) + a.skip(n));
    assert(b =~= b.take(n) + b.skip(n));
}

/// A node knows only keys that start with its label.
pub proof fn lemma_lookup_starts_with_label(s: Shape, key: Seq<u8>)
    requires
        s.lookup(key) is Some,
    ensures
        s.label().is_prefix_of(key),
{
    assert(key =~= key.subrange(0, key.len() as int));
}

/// What a node knows of a pattern, by how label and pattern overlap: where
/// both end with the shared part, the node's own identifier; where only the
/// label ends, what the children know of the rest; else nothing.
pub proof fn lemma_lookup_by_overlap(s: Shape, pattern: Seq<u8>)
    ensures
        ({
            let n = shared_prefix(s.label(), pattern);
            if n == s.label().len() && n == pattern.len() {
                pattern == s.label() && s.lookup(pattern) == s.ident()
            } else if n == s.label().len() {
                s.lookup(pattern) == lookup_in(s.children(), pattern.skip(n as int))
            } else {
                s.lookup(pattern) is None
            }
        }),
{
    let label = s.label();
    let n = shared_prefix(label, pattern) as int;
    lemma_shared_prefix_bounds(label, pattern);
    if n == label.len() && n == pattern.len() {
        assert(label =~= label.take(n));
        assert(pattern =~= pattern.take(n));
    } else if n == label.len() {
        assert(label =~= label.take(n));
        assert(label =~= pattern.subrange(0, label.len() as int));
        assert(label.is_prefix_of(pattern));
        assert(lookup_in(Seq::<Shape>::empty(), pattern.skip(n)) is None);
    } else {
        if s.lookup(pattern) is Some {
            lemma_lookup_starts_with_label(s, pattern);
            if n < pattern.len() {
                assert(pattern.subrange(0, label.len() as int)[n] == label[n]);
            }
        }
    }
}

/// A node alone knows what it knows.
pub proof fn lemma_lookup_in_one(only: Shape, key: Seq<u8>)
    ensures
        lookup_in(seq![only], key) == only.lookup(key),
{
    assert(seq![only].drop_first() =~= Seq::<Shape>::empty());
    assert(lookup_in(Seq::<Shape>::empty(), key) is None);
}

/// Of two nodes side by side the first is asked first.
pub proof fn lemma_lookup_in_two(first: Shape, second: Shape, key: Seq<u8>)
    ensures
        lookup_in(seq![first, second], key) == match first.lookup(key) {
            Some(id) => Some(id),
            None => second.lookup(key),
        },
{
    assert(seq![first, second].drop_first() =~= seq![second]);
    lemma_lookup_in_one(second, key);
}

/// Where siblings know a key, one of them does.
pub proof fn lemma_lookup_in_witness(siblings: Seq<Shape>, key: Seq<u8>) -> (j: int)
    requires
        lookup_in(siblings, key) is Some,
    ensures
        0 <= j < siblings.len(),
        siblings[j].lookup(key) == lookup_in(siblings, key),
    decreases siblings.len(),
{
    if siblings[0].lookup(key) is Some {
        0
    } else {
        let rest = siblings.drop_first();
        let j = lemma_lookup_in_witness(rest, key);
        assert(rest[j] == siblings[j + 1]);
        j + 1
    }
}

/// Siblings none of which starts with the first byte of `key` do not know
/// `key`.
pub proof fn lemma_lookup_in_absent(siblings: Seq<Shape>, key: Seq<u8>)
    requires
        forall|j: int|
            0 <= j < siblings.len() ==> (#[trigger] siblings[j]).label().len() > 0 && (key.len()
                == 0 || siblings[j].label()[0] != key[0]),
    ensures
        lookup_in(siblings, key) is None,
    decreases siblings.len(),
{
    if siblings.len() > 0 {
        let rest = siblings.drop_first();
        assert(siblings[0].label().len() > 0);
        if siblings[0].lookup(key) is Some {
            lemma_lookup_starts_with_label(siblings[0], key);
        }
        assert forall|j: int| 0 <= j < rest.len() implies (#[trigger] rest[j]).label().len() > 0
            && (key.len() == 0 || rest[j].label()[0] != key[0]) by {
            assert(rest[j] == siblings[j + 1]);
        }
        lemma_lookup_in_absent(rest, key);
    }
}

/// Among well-formed siblings, what is known of `key` is what the one
/// sibling knows that starts with the first byte of `key`.
pub proof fn lemma_lookup_in_at(siblings: Seq<Shape>, key: Seq<u8>, i: int)
    requires
        all_wf(siblings),
        0 <= i < siblings.len(),
        key.len() > 0,
        siblings[i].label()[0] == key[0],
    ensures
        lookup_in(siblings, key) == siblings[i].lookup(key),
    decreases siblings.len(),
{
    let rest = siblings.drop_first();
    assert forall|j: int| 0 <= j < rest.len() implies (#[trigger] rest[j]).wf() by {
        assert(rest[j] == siblings[j + 1]);
    }
    assert(disjoint(rest)) by {
        assert forall|a: int, b: int| 0 <= a < b < rest.len() implies (
        #[trigger] rest[a]).label().first() != (#[trigger] rest[b]).label().first() by {
            assert(rest[a] == siblings[a + 1]);
            assert(rest[b] == siblings[b + 1]);
        }
    }
    if i == 0 {
        if siblings[0].lookup(key) is None {
            assert forall|j: int| 0 <= j < rest.len() implies (#[trigger] rest[j]).label().len()
                > 0 && (key.len() == 0 || rest[j].label()[0] != key[0]) by {
                assert(rest[j] == siblings[j + 1]);
                assert(siblings[j + 1].wf());
                assert(siblings[0].label().first() != siblings[j + 1].label().first());
            }
            lemma_lookup_in_absent(rest, key);
        }
    } else {
        assert(siblings[0].wf());
        assert(siblings[0].label().first() != siblings[i].label().first());
        if siblings[0].lookup(key) is Some {
            lemma_lookup_starts_with_label(siblings[0], key);
        }
        assert(rest[i - 1] == siblings[i]);
        lemma_lookup_in_at(rest, key, i - 1);
    }
}

/// Among well-formed siblings, what is known of a key is what its first
/// match knows of it.
pub proof fn lemma_lookup_in_selected(siblings: Seq<Shape>, key: Seq<u8>)
    requires
        all_wf(siblings),
        key.len() > 0,
    ensures
        lookup_in(siblings, key) == match first_match(siblings, key) {
            Some(i) => siblings[i].lookup(key),
            None => None,
        },
{
    lemma_first_match(siblings, key);
    match first_match(siblings, key) {
        Some(i) => {
            assert(siblings[i].wf());
            lemma_matching_positive(siblings[i], key);
            lemma_lookup_in_at(siblings, key, i);
        },
        None => {
            assert forall|j: int| 0 <= j < siblings.len() implies (
            #[trigger] siblings[j]).label().len() > 0 && (key.len() == 0
                || siblings[j].label()[0] != key[0]) by {
                assert(siblings[j].wf());
                lemma_matching_positive(siblings[j], key);
            }
            lemma_lookup_in_absent(siblings, key);
        },
    }
}

/// A node whose label lost its first `n` bytes knows a key without its
/// first `n` bytes as the node knew the key, where the key starts with the
/// bytes that the label lost.
pub proof fn lemma_relabeled_lookup(s: Shape, n: int, key: Seq<u8>)
    requires
        0 <= n < s.label().len(),
        n <= key.len(),
        key.take(n) == s.label().take(n),
    ensures
        s.relabeled(s.label().skip(n)).lookup(key.skip(n)) == s.lookup(key),
{
    let label = s.label();
    let short = label.skip(n);
    let tail = key.skip(n);
    if tail == short {
        lemma_same_parts(key, label, n);
    }
    if key == label {
        assert(tail =~= short);
    }
    if short.is_prefix_of(tail) {
        assert(label.len() <= key.len());
        assert(tail.subrange(0, short.len() as int) =~= key.subrange(n, label.len() as int));
        assert(key.subrange(0, label.len() as int) =~= key.take(n) + key.subrange(
            n,
            label.len() as int,
        ));
        assert(label =~= label.take(n) + short);
        assert(label.is_prefix_of(key));
        assert(tail.skip(short.len() as int) =~= key.skip(label.len() as int));
    }
    if label.is_prefix_of(key) {
        assert(tail.subrange(0, short.len() as int) =~= short) by {
            assert forall|i: int| 0 <= i < short.len() implies tail.subrange(
                0,
                short.len() as int,
            )[i] == short[i] by {
                assert(key.subrange(0, label.len() as int)[i + n] == label[i + n]);
            }
        }
        assert(short.is_prefix_of(tail));
    }
}

} // verus!
