//! The trie itself.

use crate::dtrie::char_list::CharList;
use crate::dtrie::identifier::{lemma_from_number_view, Identifier};
use crate::dtrie::leaf_data::LeafData;
use crate::dtrie::matchable::Matchable;
use crate::dtrie::model::{
    lemma_interned_lookup, lemma_interned_text, lemma_interned_wf, lemma_key_of_is_lookup,
    TrieModel,
};
use crate::dtrie::node::RadixNode;
use crate::dtrie::proofs::{
    lemma_count_all_push, lemma_count_all_skip, lemma_first_match, lemma_first_match_is,
    lemma_first_match_none, lemma_inserted_in_place, lemma_inserted_in_wf,
    lemma_lookup_in_selected, lemma_matching_positive,
};
use crate::dtrie::shape::{count_all, first_match, key_in, lookup_in, Shape};
use vstd::layout::size_of;
use vstd::prelude::*;
use vstd::slice::slice_to_vec;
use vstd::utf8::{
    decode_utf8, encode_utf8, encode_utf8_decode_utf8, encode_utf8_valid_utf8, valid_utf8,
};

verus! {

/// A dictionary that interns strings: each string that is handed in gets an
/// identifier of its own, and the identifier leads back to the string.
///
/// The strings are kept in a radix trie, a forest of nodes of which no two
/// at the top start with the same byte. The empty string has a place of its
/// own, since no label holds it.
pub struct RadixTrie {
    root: Vec<RadixNode>,
    next_id: u64,
    contains_empty: Option<Identifier>,
}

/// The trie by the initials of de la Briandais, after whom such tries are
/// named.
pub type DLB = RadixTrie;

impl View for RadixTrie {
    type V = TrieModel;

    closed spec fn view(&self) -> TrieModel {
        TrieModel {
            roots: Seq::new(self.root@.len(), |i: int| self.root@[i]@),
            empty: self.contains_empty,
            next: self.next_id,
        }
    }
}

impl RadixTrie {
    /// The trie is well formed.
    pub open spec fn wf(&self) -> bool {
        self@.wf()
    }

    /// A trie that holds no string; the first identifier will be 1.
    pub fn new() -> (trie: RadixTrie)
        ensures
            trie@ == (TrieModel { roots: Seq::empty(), empty: None, next: 1 }),
            trie.wf(),
            trie@.is_text(),
    {
        let trie = RadixTrie { root: Vec::new(), next_id: 1, contains_empty: None };
        proof {
            assert(trie@.roots =~= Seq::<Shape>::empty());
        }
        trie
    }

    /// Whether no string is interned.
    pub fn is_empty(&self) -> (empty: bool)
        ensures
            empty == (self@.roots.len() == 0 && self@.empty is None),
    {
        self.root.len() == 0 && self.contains_empty.is_none()
    }

    /// Whether `s` is interned.
    pub fn contains(&self, s: String) -> (found: bool)
        ensures
            found == self@.dict().contains_key(encode_utf8(s@)),
    {
        self.get(s).is_some()
    }

    fn new_id(&mut self) -> (id: Identifier)
        requires
            old(self)@.next < u64::MAX,
        ensures
            id == Identifier::from_number(old(self)@.next),
            final(self)@ == (TrieModel { next: (old(self)@.next + 1) as u64, ..old(self)@ }),
    {
        Identifier::issue(&mut self.next_id)
    }

    /// The identifier under which `s` is interned, if it is.
    pub fn get(&self, s: String) -> (found: Option<Identifier>)
        ensures
            found == self@.lookup(encode_utf8(s@)),
    {
        let byte_pattern = s.as_str().as_bytes();
        if byte_pattern.len() == 0 {
            return self.contains_empty;
        }
        let ghost roots = self@.roots;
        let mut index: usize = 0;
        proof {
            assert(roots.skip(0) =~= roots);
        }
        while index < self.root.len()
            invariant
                index <= self.root.len(),
                roots == self@.roots,
                byte_pattern@ == encode_utf8(s@),
                byte_pattern@.len() > 0,
                lookup_in(roots, byte_pattern@) == lookup_in(
                    roots.skip(index as int),
                    byte_pattern@,
                ),
            decreases self.root.len() - index,
        {
            proof {
                assert(roots.skip(index as int).drop_first() =~= roots.skip(index as int + 1));
            }
            if let Some(id) = self.root[index].get(byte_pattern) {
                return Some(id);
            }
            index += 1;
        }
        None
    }

    /// The memory that the trie and its nodes take, not counting what
    /// labels and child lists keep elsewhere.
    pub fn size_of(&self) -> (bytes: usize)
        requires
            size_of::<RadixTrie>() + self@.node_count() * size_of::<RadixNode>() <= usize::MAX,
        ensures
            bytes == size_of::<RadixTrie>() + self@.node_count() * size_of::<RadixNode>(),
    {
        let self_size = core::mem::size_of::<RadixTrie>();
        let ghost unit = size_of::<RadixNode>();
        let ghost roots = self@.roots;
        let mut child_size: usize = 0;
        let mut index: usize = 0;
        proof {
            assert(roots.skip(0) =~= roots);
        }
        while index < self.root.len()
            invariant
                index <= self.root.len(),
                roots == self@.roots,
                unit == size_of::<RadixNode>(),
                self_size + count_all(roots) * unit <= usize::MAX,
                child_size + count_all(roots.skip(index as int)) * unit == count_all(roots) * unit,
            decreases self.root.len() - index,
        {
            proof {
                lemma_count_all_skip(roots, index as int);
                let here = roots[index as int].count();
                let behind = count_all(roots.skip(index as int + 1));
                assert((here + behind) * unit == here * unit + behind * unit)
                    by (nonlinear_arith);
                assert(behind * unit >= 0) by (nonlinear_arith);
            }
            child_size = child_size + self.root[index].size_of();
            index += 1;
        }
        proof {
            let rest = roots.skip(index as int);
            assert(rest =~= Seq::<Shape>::empty());
            assert(count_all(rest) * unit == 0) by (nonlinear_arith)
                requires
                    count_all(rest) == 0,
            ;
        }
        self_size + child_size
    }

    /// The number of nodes in the trie.
    pub fn count_nodes(&self) -> (count: u64)
        requires
            self@.node_count() <= u64::MAX,
        ensures
            count == self@.node_count(),
    {
        let ghost roots = self@.roots;
        let mut total: u64 = 0;
        let mut index: usize = 0;
        proof {
            assert(roots.skip(0) =~= roots);
        }
        while index < self.root.len()
            invariant
                index <= self.root.len(),
                roots == self@.roots,
                count_all(roots) <= u64::MAX,
                total + count_all(roots.skip(index as int)) == count_all(roots),
            decreases self.root.len() - index,
        {
            proof {
                lemma_count_all_skip(roots, index as int);
            }
            total = total + self.root[index].count_nodes();
            index += 1;
        }
        total
    }

    /// Interns `s` and gives back its identifier: the one it has already,
    /// or else the next unused one. Interning a string a second time changes
    /// nothing.
    pub fn get_or_intern(&mut self, s: String) -> (id: Identifier)
        requires
            old(self).wf(),
            old(self)@.next < u64::MAX,
        ensures
            final(self)@ == old(self)@.interned(encode_utf8(s@)),
            id == old(self)@.interned_id(encode_utf8(s@)),
            old(self)@.lookup(encode_utf8(s@)) is None ==> id@ == old(self)@.next,
            final(self).wf(),
            forall|key: Seq<u8>| #[trigger]
                final(self)@.lookup(key) == if key == encode_utf8(s@) {
                    Some(id)
                } else {
                    old(self)@.lookup(key)
                },
            final(self)@.dict() == old(self)@.dict().insert(encode_utf8(s@), id),
            final(self)@.key_of(id) == Some(encode_utf8(s@)),
            valid_utf8(encode_utf8(s@)),
            decode_utf8(encode_utf8(s@)) == s@,
            old(self)@.is_text() ==> final(self)@.is_text(),
            old(self)@.node_count() <= final(self)@.node_count() <= old(self)@.node_count() + 2,
            old(self)@.next <= final(self)@.next <= old(self)@.next + 1,
    {
        let bytes = CharList::from(slice_to_vec(s.as_str().as_bytes()));
        proof {
            encode_utf8_valid_utf8(s@);
            encode_utf8_decode_utf8(s@);
            lemma_from_number_view(old(self)@.next);
            lemma_interned_effects(old(self)@, bytes@);
            if bytes@.len() == 0 {
                assert(bytes@ =~= Seq::<u8>::empty());
            }
            if old(self)@.is_text() {
                lemma_interned_text(old(self)@, bytes@);
            }
        }
        if bytes.len() == 0 {
            return self.intern_empty_string();
        }
        if self.root.len() == 0 {
            proof {
                assert(lookup_in(self@.roots, bytes@) is None);
            }
            return self.intern_empty_trie(bytes);
        }
        self.intern(bytes)
    }

    /// Interns the empty string.
    pub fn intern_empty_string(&mut self) -> (id: Identifier)
        requires
            old(self).wf(),
            old(self)@.next < u64::MAX,
        ensures
            final(self)@ == old(self)@.interned(Seq::empty()),
            id == old(self)@.interned_id(Seq::empty()),
            final(self).wf(),
            forall|key: Seq<u8>| #[trigger]
                final(self)@.lookup(key) == if key == Seq::<u8>::empty() {
                    Some(id)
                } else {
                    old(self)@.lookup(key)
                },
            final(self)@.dict() == old(self)@.dict().insert(Seq::empty(), id),
            final(self)@.key_of(id) == Some(Seq::<u8>::empty()),
            old(self)@.is_text() ==> final(self)@.is_text(),
            old(self)@.node_count() == final(self)@.node_count(),
    {
        proof {
            lemma_interned_effects(old(self)@, Seq::empty());
            if old(self)@.is_text() {
                lemma_interned_text(old(self)@, Seq::empty());
            }
        }
        match self.contains_empty {
            Some(id) => id,
            None => {
                let id = self.new_id();
                self.contains_empty = Some(id);
                id
            },
        }
    }

    /// Interns `bytes`, which is not empty, into a trie without nodes.
    pub fn intern_empty_trie(&mut self, bytes: CharList) -> (id: Identifier)
        requires
            old(self).wf(),
            old(self)@.next < u64::MAX,
            old(self)@.roots.len() == 0,
            bytes@.len() > 0,
        ensures
            final(self)@ == old(self)@.interned(bytes@),
            id == old(self)@.interned_id(bytes@),
            final(self).wf(),
            forall|key: Seq<u8>| #[trigger]
                final(self)@.lookup(key) == if key == bytes@ {
                    Some(id)
                } else {
                    old(self)@.lookup(key)
                },
            final(self)@.dict() == old(self)@.dict().insert(bytes@, id),
            final(self)@.key_of(id) == Some(bytes@),
            old(self)@.is_text() && valid_utf8(bytes@) ==> final(self)@.is_text(),
            final(self)@.node_count() == 1,
    {
        proof {
            let fresh = Identifier::from_number(old(self)@.next);
            lemma_interned_effects(old(self)@, bytes@);
            if old(self)@.is_text() && valid_utf8(bytes@) {
                lemma_interned_text(old(self)@, bytes@);
            }
            lemma_first_match(old(self)@.roots, bytes@);
            lemma_inserted_in_place(old(self)@.roots, bytes@, fresh);
            lemma_lookup_in_selected(old(self)@.roots, bytes@);
            lemma_count_all_push(old(self)@.roots, Shape::Leaf { label: bytes@, id: fresh });
        }
        self.add_new_leaf(bytes)
    }

    fn find_best_match(&self, bytes: CharList) -> (best: (Option<usize>, usize))
        ensures
            match best.0 {
                Some(i) => first_match(self@.roots, bytes@) == Some(i as int) && best.1
                    == self@.roots[i as int].matching(bytes@),
                None => first_match(self@.roots, bytes@) is None && best.1 == 0,
            },
    {
        let mut index: usize = 0;
        while index < self.root.len()
            invariant
                index <= self.root.len(),
                forall|j: int| 0 <= j < index ==> (#[trigger] self@.roots[j]).matching(bytes@) == 0,
            decreases self.root.len() - index,
        {
            let matching = self.root[index].similar_bytes(bytes.clone());
            if matching > 0 {
                proof {
                    lemma_first_match_is(self@.roots, bytes@, index as int);
                }
                return (Some(index), matching);
            }
            index += 1;
        }
        proof {
            lemma_first_match_none(self@.roots, bytes@);
        }
        (None, 0)
    }

    fn add_new_leaf(&mut self, bytes: CharList) -> (id: Identifier)
        requires
            old(self)@.next < u64::MAX,
        ensures
            id == Identifier::from_number(old(self)@.next),
            final(self)@ == (TrieModel {
                roots: old(self)@.roots.push(Shape::Leaf { label: bytes@, id }),
                empty: old(self)@.empty,
                next: (old(self)@.next + 1) as u64,
            }),
    {
        let id = self.new_id();
        let new_leaf = RadixNode::Leaf(LeafData::new(id, bytes));
        self.root.push(new_leaf);
        proof {
            assert(self@.roots =~= old(self)@.roots.push(Shape::Leaf { label: bytes@, id }));
        }
        id
    }

    /// Interns `bytes`, which is not empty: into the first node at the top
    /// that shares a first byte with it, or as a new leaf at the top.
    pub fn intern(&mut self, bytes: CharList) -> (id: Identifier)
        requires
            old(self).wf(),
            old(self)@.next < u64::MAX,
            bytes@.len() > 0,
        ensures
            final(self)@ == old(self)@.interned(bytes@),
            id == old(self)@.interned_id(bytes@),
            final(self).wf(),
            forall|key: Seq<u8>| #[trigger]
                final(self)@.lookup(key) == if key == bytes@ {
                    Some(id)
                } else {
                    old(self)@.lookup(key)
                },
            final(self)@.dict() == old(self)@.dict().insert(bytes@, id),
            final(self)@.key_of(id) == Some(bytes@),
            old(self)@.is_text() && valid_utf8(bytes@) ==> final(self)@.is_text(),
            old(self)@.node_count() <= final(self)@.node_count() <= old(self)@.node_count() + 2,
            old(self)@.next <= final(self)@.next <= old(self)@.next + 1,
    {
        let ghost before = self@;
        let ghost fresh = Identifier::from_number(self.next_id);
        let (matching_index, _) = self.find_best_match(bytes.clone());
        proof {
            lemma_interned_effects(before, bytes@);
            if before.is_text() && valid_utf8(bytes@) {
                lemma_interned_text(before, bytes@);
            }
            lemma_first_match(before.roots, bytes@);
            lemma_inserted_in_place(before.roots, bytes@, fresh);
            lemma_inserted_in_wf(before.roots, bytes@, fresh);
            lemma_lookup_in_selected(before.roots, bytes@);
        }
        match matching_index {
            None => self.add_new_leaf(bytes),
            Some(idx) => {
                proof {
                    assert(before.roots[idx as int].wf());
                    lemma_matching_positive(before.roots[idx as int], bytes@);
                }
                let id = self.root[idx].insert(bytes, &mut self.next_id);
                proof {
                    assert(self@.roots =~= before.roots.update(
                        idx as int,
                        before.roots[idx as int].inserted(bytes@, fresh),
                    ));
                }
                id
            },
        }
    }

    /// The string that goes with `id`, if there is one.
    pub fn resolve(&self, id: Identifier) -> (text: Option<String>)
        requires
            self@.key_of(id) matches Some(key) ==> valid_utf8(key),
        ensures
            self@.key_of(id) is None ==> text is None,
            self@.key_of(id) matches Some(key) ==> text matches Some(string) && string@
                == decode_utf8(key),
    {
        if let Some(empty) = self.contains_empty {
            if empty == id {
                return Some(String::new());
            }
        }
        let ghost roots = self@.roots;
        let mut index: usize = 0;
        proof {
            assert(roots.skip(0) =~= roots);
        }
        while index < self.root.len()
            invariant
                index <= self.root.len(),
                roots == self@.roots,
                self@.empty != Some(id),
                self@.key_of(id) matches Some(key) ==> valid_utf8(key),
                key_in(roots, id) == key_in(roots.skip(index as int), id),
            decreases self.root.len() - index,
        {
            proof {
                assert(roots.skip(index as int).drop_first() =~= roots.skip(index as int + 1));
                let child = roots[index as int];
                if child.key_of(id) is Some {
                    assert(Seq::<u8>::empty() + child.key_of(id)->0 =~= child.key_of(id)->0);
                }
            }
            if let Some(found) = self.root[index].resolve(id, CharList::empty()) {
                return Some(found);
            }
            index += 1;
        }
        None
    }
}

/// What interning does to a well-formed trie, put together.
proof fn lemma_interned_effects(m: TrieModel, key: Seq<u8>)
    requires
        m.wf(),
        m.next < u64::MAX,
    ensures
        m.interned(key).wf(),
        forall|other: Seq<u8>| #[trigger]
            m.interned(key).lookup(other) == if other == key {
                Some(m.interned_id(key))
            } else {
                m.lookup(other)
            },
        m.interned(key).dict() == m.dict().insert(key, m.interned_id(key)),
        m.interned(key).key_of(m.interned_id(key)) == Some(key),
        m.node_count() <= m.interned(key).node_count() <= m.node_count() + 2,
{
    let after = m.interned(key);
    lemma_interned_wf(m, key);
    lemma_interned_lookup(m, key, key);
    lemma_key_of_is_lookup(after, m.interned_id(key), key);
    assert forall|other: Seq<u8>| #[trigger]
        after.lookup(other) == if other == key {
            Some(m.interned_id(key))
        } else {
            m.lookup(other)
        } by {
        lemma_interned_lookup(m, key, other);
    }
    let expected = m.dict().insert(key, m.interned_id(key));
    assert forall|other: Seq<u8>| #[trigger]
        after.dict().dom().contains(other) == expected.dom().contains(other) by {
        lemma_interned_lookup(m, key, other);
    }
    assert forall|other: Seq<u8>| #[trigger]
        after.dict().dom().contains(other) implies after.dict()[other] == expected[other] by {
        lemma_interned_lookup(m, key, other);
    }
    assert(after.dict() =~= expected);
}

} // verus!
