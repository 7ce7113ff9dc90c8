//! The model of a whole trie, and what interning does to it.

use crate::dtrie::identifier::{lemma_from_number_view, Identifier};
use crate::dtrie::proofs::{
    lemma_inserted_in_lookup, lemma_inserted_in_wf, lemma_key_in_complete, lemma_key_in_sound,
    lemma_lookup_in_witness, lemma_lookup_starts_with_label,
};
use crate::dtrie::shape::{all_wf, count_all, inserted_in, key_in, lookup_in, Shape};
use vstd::prelude::*;
use vstd::utf8::valid_utf8;

verus! {

/// What a trie holds, as plain values: the nodes at its top, the identifier
/// of the empty string if that is interned, and the number that the next
/// new string will get.
pub struct TrieModel {
    pub roots: Seq<Shape>,
    pub empty: Option<Identifier>,
    pub next: u64,
}

impl TrieModel {
    /// The identifier under which `key` is interned, if it is.
    pub open spec fn lookup(self, key: Seq<u8>) -> Option<Identifier> {
        if key.len() == 0 {
            self.empty
        } else {
            lookup_in(self.roots, key)
        }
    }

    /// The interned strings, each with its identifier.
    pub open spec fn dict(self) -> Map<Seq<u8>, Identifier> {
        Map::new(|key: Seq<u8>| self.lookup(key) is Some, |key: Seq<u8>| self.lookup(key)->0)
    }

    /// The string that goes with `id`: the empty string where it has `id`,
    /// else the string of the first node that carries `id`.
    pub open spec fn key_of(self, id: Identifier) -> Option<Seq<u8>> {
        if self.empty == Some(id) {
            Some(Seq::empty())
        } else {
            key_in(self.roots, id)
        }
    }

    /// The number of nodes in the trie.
    pub open spec fn node_count(self) -> nat {
        count_all(self.roots)
    }

    /// The trie is well formed: its nodes are, every identifier in it is a
    /// number from 1 up to the next unused one, and no identifier stands
    /// for two strings.
    pub open spec fn wf(self) -> bool {
        &&& all_wf(self.roots)
        &&& self.next >= 1
        &&& forall|key: Seq<u8>| #[trigger]
            self.lookup(key) is Some ==> 1 <= self.lookup(key)->0@ < self.next
        &&& forall|a: Seq<u8>, b: Seq<u8>|
            self.lookup(a) is Some && #[trigger] self.lookup(a) == #[trigger] self.lookup(b) ==> a
                == b
    }

    /// Every string that goes with an identifier is valid UTF-8.
    pub open spec fn is_text(self) -> bool {
        forall|id: Identifier| #[trigger] self.key_of(id) is Some ==> valid_utf8(self.key_of(id)->0)
    }

    /// The identifier that interning `key` gives back: the one it has, or
    /// else the next unused number.
    pub open spec fn interned_id(self, key: Seq<u8>) -> Identifier {
        match self.lookup(key) {
            Some(id) => id,
            None => Identifier::from_number(self.next),
        }
    }

    /// The trie after `key` has been interned: unchanged where `key` is
    /// interned already; else the empty string takes the next number, and
    /// any other string is inserted among the nodes at the top under it.
    pub open spec fn interned(self, key: Seq<u8>) -> TrieModel {
        if self.lookup(key) is Some {
            self
        } else if key.len() == 0 {
            TrieModel {
                roots: self.roots,
                empty: Some(Identifier::from_number(self.next)),
                next: (self.next + 1) as u64,
            }
        } else {
            TrieModel {
                roots: inserted_in(self.roots, key, Identifier::from_number(self.next)),
                empty: self.empty,
                next: (self.next + 1) as u64,
            }
        }
    }
}

/// After interning, the trie knows the key under the identifier that
/// interning gave back, and every other key as before.
pub proof fn lemma_interned_lookup(m: TrieModel, key: Seq<u8>, other: Seq<u8>)
    requires
        m.wf(),
    ensures
        m.interned(key).lookup(other) == if other == key {
            Some(m.interned_id(key))
        } else {
            m.lookup(other)
        },
{
    if m.lookup(key) is None && key.len() > 0 {
        lemma_inserted_in_lookup(m.roots, key, Identifier::from_number(m.next), other);
    }
    if other.len() == 0 && key.len() == 0 {
        assert(other =~= key);
    }
}

/// Interning keeps a trie well formed, and adds at most two nodes.
pub proof fn lemma_interned_wf(m: TrieModel, key: Seq<u8>)
    requires
        m.wf(),
        m.next < u64::MAX,
    ensures
        m.interned(key).wf(),
        m.node_count() <= m.interned(key).node_count() <= m.node_count() + 2,
        m.next <= m.interned(key).next <= m.next + 1,
{
    let after = m.interned(key);
    let fresh = Identifier::from_number(m.next);
    lemma_from_number_view(m.next);
    if m.lookup(key) is None {
        if key.len() > 0 {
            lemma_inserted_in_wf(m.roots, key, fresh);
        }
        assert forall|k: Seq<u8>| #[trigger] after.lookup(k) is Some implies 1 <= after.lookup(
            k,
        )->0@ < after.next by {
            lemma_interned_lookup(m, key, k);
            if k != key {
                assert(m.lookup(k) is Some);
            }
        }
        assert forall|a: Seq<u8>, b: Seq<u8>|
            after.lookup(a) is Some && #[trigger] after.lookup(a) == #[trigger] after.lookup(
                b,
            ) implies a == b by {
            lemma_interned_lookup(m, key, a);
            lemma_interned_lookup(m, key, b);
            if a != key {
                assert(m.lookup(a) is Some);
            }
            if b != key {
                assert(m.lookup(b) is Some);
            }
        }
    }
}

/// In a well-formed trie, the string that goes with an identifier is the
/// string that is interned under it.
pub proof fn lemma_key_of_is_lookup(m: TrieModel, id: Identifier, key: Seq<u8>)
    requires
        m.wf(),
    ensures
        m.key_of(id) == Some(key) <==> m.lookup(key) == Some(id),
{
    if m.key_of(id) == Some(key) && m.empty != Some(id) {
        lemma_key_in_sound(m.roots, id);
        let j = lemma_lookup_in_witness(m.roots, key);
        lemma_lookup_starts_with_label(m.roots[j], key);
        assert(m.roots[j].wf());
    }
    if m.lookup(key) == Some(id) {
        if key.len() > 0 {
            lemma_key_in_complete(m.roots, key);
            let found = key_in(m.roots, id)->0;
            lemma_key_in_sound(m.roots, id);
            let j = lemma_lookup_in_witness(m.roots, found);
            lemma_lookup_starts_with_label(m.roots[j], found);
            assert(m.roots[j].wf());
            assert(m.lookup(found) == Some(id));
            if m.empty == Some(id) {
                assert(m.lookup(Seq::<u8>::empty()) == Some(id));
            }
        }
    }
}

/// Interning valid UTF-8 into a trie of text leaves a trie of text.
pub proof fn lemma_interned_text(m: TrieModel, key: Seq<u8>)
    requires
        m.wf(),
        m.next < u64::MAX,
        m.is_text(),
        valid_utf8(key),
    ensures
        m.interned(key).is_text(),
{
    let after = m.interned(key);
    lemma_interned_wf(m, key);
    assert forall|id: Identifier| #[trigger] after.key_of(id) is Some implies valid_utf8(
        after.key_of(id)->0,
    ) by {
        let found = after.key_of(id)->0;
        lemma_key_of_is_lookup(after, id, found);
        lemma_interned_lookup(m, key, found);
        if found != key {
            lemma_key_of_is_lookup(m, id, found);
            assert(m.key_of(id) is Some);
        }
    }
}

} // verus!
