//! Runs of bytes, and the length of the prefix that two of them share.

use crate::dtrie::matchable::Matchable;
use vstd::prelude::*;
use vstd::std_specs::convert::FromSpecImpl;
use vstd::std_specs::iter::IteratorSpec;
use vstd::utf8::{decode_utf8, encode_utf8, encode_utf8_decode_utf8, valid_utf8};

verus! {

/// The number of leading bytes that two byte strings have in common.
pub open spec fn shared_prefix(a: Seq<u8>, b: Seq<u8>) -> nat
    decreases a.len(),
{
    if a.len() > 0 && b.len() > 0 && a[0] == b[0] {
        1 + shared_prefix(a.drop_first(), b.drop_first())
    } else {
        0
    }
}

/// The common prefix is as long as it can be: both strings agree on it, and
/// right behind it one of them ends or they differ.
pub proof fn lemma_shared_prefix_bounds(a: Seq<u8>, b: Seq<u8>)
    ensures
        shared_prefix(a, b) <= a.len(),
        shared_prefix(a, b) <= b.len(),
        a.take(shared_prefix(a, b) as int) == b.take(shared_prefix(a, b) as int),
        shared_prefix(a, b) < a.len() && shared_prefix(a, b) < b.len() ==> a[shared_prefix(
            a,
            b,
        ) as int] != b[shared_prefix(a, b) as int],
    decreases a.len(),
{
    if a.len() > 0 && b.len() > 0 && a[0] == b[0] {
        let n = shared_prefix(a.drop_first(), b.drop_first());
        lemma_shared_prefix_bounds(a.drop_first(), b.drop_first());
        assert(a.take(n as int + 1) =~= seq![a[0]] + a.drop_first().take(n as int));
        assert(b.take(n as int + 1) =~= seq![b[0]] + b.drop_first().take(n as int));
    } else {
        assert(a.take(0) =~= b.take(0));
    }
}

/// Any length on which both strings agree, and behind which one of them ends
/// or they differ, is the length of the common prefix.
pub proof fn lemma_shared_prefix_unique(a: Seq<u8>, b: Seq<u8>, n: nat)
    requires
        n <= a.len(),
        n <= b.len(),
        forall|i: int| 0 <= i < n ==> a[i] == b[i],
        n < a.len() && n < b.len() ==> a[n as int] != b[n as int],
    ensures
        shared_prefix(a, b) == n,
    decreases n,
{
    if n > 0 {
        assert forall|i: int| 0 <= i < n - 1 implies a.drop_first()[i] == b.drop_first()[i] by {
            assert(a[i + 1] == b[i + 1]);
        }
        lemma_shared_prefix_unique(a.drop_first(), b.drop_first(), (n - 1) as nat);
    }
}

/// A string shares all of itself with itself.
pub proof fn lemma_shared_prefix_same(a: Seq<u8>)
    ensures
        shared_prefix(a, a) == a.len(),
{
    lemma_shared_prefix_unique(a, a, a.len());
}

/// `String::from_utf8` of the standard library: the bytes become a string
/// exactly when they are valid UTF-8, and that string encodes to the bytes
/// it was made from.
#[verifier::external_body]
fn string_from_utf8(bytes: Vec<u8>) -> (text: Option<String>)
    ensures
        text is Some <==> valid_utf8(bytes@),
        text matches Some(s) ==> encode_utf8(s@) == bytes@,
{
    match String::from_utf8(bytes) {
        Ok(s) => Some(s),
        Err(_) => None,
    }
}

/// An owned run of bytes: the label on an edge of the trie, or a key on its
/// way through it. The view is the run itself.
pub struct CharList {
    table: Vec<u8>,
}

impl View for CharList {
    type V = Seq<u8>;

    closed spec fn view(&self) -> Seq<u8> {
        self.table@
    }
}

impl Clone for CharList {
    fn clone(&self) -> (copy: CharList)
        ensures
            copy@ == self@,
    {
        CharList { table: self.table.clone() }
    }
}

impl From<Vec<u8>> for CharList {
    fn from(other: Vec<u8>) -> (list: CharList)
        ensures
            list@ == other@,
    {
        CharList { table: other }
    }
}

impl FromSpecImpl<Vec<u8>> for CharList {
    open spec fn obeys_from_spec() -> bool {
        true
    }

    closed spec fn from_spec(other: Vec<u8>) -> CharList {
        CharList { table: other }
    }
}

impl CharList {
    /// The run without any byte.
    pub fn empty() -> (list: CharList)
        ensures
            list@ == Seq::<u8>::empty(),
    {
        CharList { table: Vec::new() }
    }

    /// The run that holds `chars`.
    pub fn new(chars: Vec<u8>) -> (list: CharList)
        ensures
            list@ == chars@,
    {
        CharList { table: chars }
    }

    pub fn len(&self) -> (n: usize)
        ensures
            n == self@.len(),
    {
        self.table.len()
    }

    /// A copy of the bytes.
    pub fn as_vec(&self) -> (bytes: Vec<u8>)
        ensures
            bytes@ == self@,
    {
        self.table.clone()
    }

    /// A cursor that hands out the bytes from first to last.
    pub fn iter(&self) -> (cursor: CharIterator)
        ensures
            cursor@ == self@,
    {
        CharIterator::new(self.as_vec())
    }

    /// Cuts the run at `at`: the first `at` bytes stay, the rest is returned.
    pub fn split_off(&mut self, at: usize) -> (rest: CharList)
        requires
            at <= old(self)@.len(),
        ensures
            final(self)@ == old(self)@.take(at as int),
            rest@ == old(self)@.skip(at as int),
    {
        let tail = self.table.split_off(at);
        CharList { table: tail }
    }

    /// The run made of this one followed by `other`.
    pub fn append(&self, other: CharList) -> (joined: CharList)
        ensures
            joined@ == self@ + other@,
    {
        let mut table = self.table.clone();
        let mut tail = other.table;
        table.append(&mut tail);
        CharList { table }
    }

    /// The text that the bytes encode.
    pub fn to_string(&self) -> (text: String)
        requires
            valid_utf8(self@),
        ensures
            text@ == decode_utf8(self@),
    {
        match string_from_utf8(self.as_vec()) {
            Some(text) => {
                proof {
                    encode_utf8_decode_utf8(text@);
                }
                text
            },
            None => vstd::pervasive::unreached(),
        }
    }

    /// Counts the leading bytes that this run has in common with `bytes`.
    pub fn count_shared_prefix(&self, bytes: &[u8]) -> (count: usize)
        ensures
            count == shared_prefix(self@, bytes@),
    {
        let mut count: usize = 0;
        while count < self.table.len() && count < bytes.len() && self.table[count] == bytes[count]
            invariant
                count <= self@.len(),
                count <= bytes@.len(),
                forall|i: int| 0 <= i < count ==> self@[i] == bytes@[i],
            decreases self@.len() - count,
        {
            count += 1;
        }
        proof {
            lemma_shared_prefix_unique(self@, bytes@, count as nat);
        }
        count
    }
}

impl Matchable for CharList {
    open spec fn matching(&self, pattern: Seq<u8>) -> nat {
        shared_prefix(self@, pattern)
    }

    fn similar_bytes(&self, pattern: CharList) -> (count: usize) {
        self.count_shared_prefix(pattern.table.as_slice())
    }
}

impl IntoIterator for CharList {
    type Item = u8;

    type IntoIter = std::vec::IntoIter<u8>;

    /// Hands the bytes out one by one, from first to last.
    fn into_iter(self) -> (iter: std::vec::IntoIter<u8>)
        ensures
            iter.remaining() == self@,
    {
        broadcast use vstd::std_specs::vec::axiom_spec_into_iter;

        self.table.into_iter()
    }
}

/// A cursor over the bytes of a run. The view is what is still to come.
pub struct CharIterator {
    pos: usize,
    table: Vec<u8>,
}

impl View for CharIterator {
    type V = Seq<u8>;

    closed spec fn view(&self) -> Seq<u8> {
        if self.pos <= self.table@.len() {
            self.table@.skip(self.pos as int)
        } else {
            Seq::empty()
        }
    }
}

impl CharIterator {
    /// A cursor in front of the first byte of `table`.
    pub fn new(table: Vec<u8>) -> (cursor: CharIterator)
        ensures
            cursor@ == table@,
    {
        CharIterator { pos: 0, table }
    }

    /// Hands out the next byte and steps over it; `None` once all are out.
    pub fn next(&mut self) -> (item: Option<u8>)
        ensures
            old(self)@.len() == 0 ==> item is None && final(self)@ == old(self)@,
            old(self)@.len() > 0 ==> item == Some(old(self)@[0]) && final(self)@ == old(
                self,
            )@.drop_first(),
    {
        if self.pos >= self.table.len() {
            None
        } else {
            let val = self.table[self.pos];
            self.pos += 1;
            Some(val)
        }
    }
}

} // verus!
