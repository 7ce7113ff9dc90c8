//! A radix trie that interns byte strings into compact integer identifiers
//! and maps identifiers back to the strings they stand for.

pub mod dtrie;

pub use dtrie::{Identifier, RadixTrie, DLB};
