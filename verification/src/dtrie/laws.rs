//! What holds of every trie, whatever has been interned into it.

use crate::dtrie::identifier::{lemma_from_number_view, Identifier};
use crate::dtrie::model::{
    lemma_interned_lookup, lemma_interned_wf, lemma_key_of_is_lookup, TrieModel,
};
use vstd::prelude::*;
use vstd::utf8::{
    decode_utf8, encode_utf8, encode_utf8_decode_utf8, encode_utf8_valid_utf8, valid_utf8,
};

verus! {

/// Round trip: the identifier that interning a string gives back resolves
/// to that string.
pub proof fn lemma_round_trip(m: TrieModel, s: Seq<char>)
    requires
        m.wf(),
        m.next < u64::MAX,
    ensures
        m.interned(encode_utf8(s)).key_of(m.interned_id(encode_utf8(s))) == Some(encode_utf8(s)),
        valid_utf8(encode_utf8(s)),
        decode_utf8(encode_utf8(s)) == s,
{
    let key = encode_utf8(s);
    lemma_interned_wf(m, key);
    lemma_interned_lookup(m, key, key);
    lemma_key_of_is_lookup(m.interned(key), m.interned_id(key), key);
    encode_utf8_valid_utf8(s);
    encode_utf8_decode_utf8(s);
}

/// Idempotence: interning a string a second time gives back the same
/// identifier, and leaves the trie, and so the number of its nodes, as it
/// is.
pub proof fn lemma_intern_twice(m: TrieModel, key: Seq<u8>)
    requires
        m.wf(),
        m.next < u64::MAX,
    ensures
        m.interned(key).interned_id(key) == m.interned_id(key),
        m.interned(key).interned(key) == m.interned(key),
        m.interned(key).interned(key).node_count() == m.interned(key).node_count(),
{
    lemma_interned_lookup(m, key, key);
}

/// Containment: a string is contained exactly when looking it up gives an
/// identifier.
pub proof fn lemma_contains_is_get(m: TrieModel, key: Seq<u8>)
    ensures
        m.dict().contains_key(key) <==> m.lookup(key) is Some,
        m.lookup(key) matches Some(id) ==> m.dict()[key] == id,
{
}

/// Uniqueness: two different strings, interned one after the other, get
/// different identifiers.
pub proof fn lemma_distinct_identifiers(m: TrieModel, a: Seq<u8>, b: Seq<u8>)
    requires
        m.wf(),
        m.next < u64::MAX - 1,
        a != b,
    ensures
        m.interned(a).interned_id(b) != m.interned_id(a),
{
    let after = m.interned(a);
    lemma_interned_wf(m, a);
    lemma_interned_lookup(m, a, a);
    lemma_interned_wf(after, b);
    lemma_interned_lookup(after, b, b);
    lemma_interned_lookup(after, b, a);
    let last = after.interned(b);
    assert(last.lookup(a) == Some(m.interned_id(a)));
    assert(last.lookup(b) == Some(after.interned_id(b)));
}

/// Uniqueness, in any well-formed trie: no identifier stands for two
/// strings.
pub proof fn lemma_one_string_per_identifier(m: TrieModel, a: Seq<u8>, b: Seq<u8>)
    requires
        m.wf(),
        a != b,
        m.lookup(a) is Some,
    ensures
        m.lookup(a) != m.lookup(b),
{
}

/// Identifiers stay good: interning a string leaves every identifier with
/// the string it stood for.
pub proof fn lemma_identifiers_stay(m: TrieModel, key: Seq<u8>, id: Identifier, held: Seq<u8>)
    requires
        m.wf(),
        m.next < u64::MAX,
        m.key_of(id) == Some(held),
    ensures
        m.interned(key).key_of(id) == Some(held),
{
    lemma_key_of_is_lookup(m, id, held);
    lemma_interned_wf(m, key);
    lemma_interned_lookup(m, key, held);
    lemma_key_of_is_lookup(m.interned(key), id, held);
}

/// Identifiers grow: a string that is new gets a larger number than every
/// string that was interned before it.
pub proof fn lemma_identifiers_grow(m: TrieModel, key: Seq<u8>, earlier: Seq<u8>)
    requires
        m.wf(),
        m.lookup(key) is None,
        m.lookup(earlier) is Some,
    ensures
        m.lookup(earlier)->0@ < m.interned_id(key)@,
        m.interned_id(key)@ == m.next,
{
    lemma_from_number_view(m.next);
}

} // verus!
