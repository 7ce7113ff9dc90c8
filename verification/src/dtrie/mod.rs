//! The trie, its nodes and the small types they are built from.

pub use char_list::CharList;
pub use children::Children;
pub use identifier::Identifier;
pub use internal_data::InternalData;
pub use leaf_data::LeafData;
pub use matchable::Matchable;
pub use model::TrieModel;
pub use node::{DLBNode, RadixNode};
pub use radix::{RadixTrie, DLB};
pub use shape::Shape;

pub mod char_list;
pub mod children;
pub mod identifier;
pub mod internal_data;
pub mod laws;
pub mod leaf_data;
pub mod matchable;
pub mod model;
pub mod node;
pub mod proofs;
pub mod radix;
pub mod shape;
