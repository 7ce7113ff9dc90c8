//! Lemmas about the shapes of nodes, by what they speak of.

pub use counting::{
    lemma_count_all_one, lemma_count_all_push, lemma_count_all_skip, lemma_count_all_two,
    lemma_count_all_update,
};
pub use insertion::{
    lemma_inserted_in_lookup, lemma_inserted_in_place, lemma_inserted_in_wf, lemma_inserted_lookup,
    lemma_inserted_wf,
};
pub use lookup::{
    lemma_lookup_by_overlap, lemma_lookup_in_absent, lemma_lookup_in_at, lemma_lookup_in_one,
    lemma_lookup_in_selected, lemma_lookup_in_two, lemma_lookup_in_witness,
    lemma_lookup_starts_with_label, lemma_relabeled_lookup, lemma_same_parts,
};
pub use matching::{
    lemma_at_most_one_match, lemma_best_match_bound, lemma_best_match_none, lemma_best_match_of_one,
    lemma_first_match, lemma_first_match_is, lemma_first_match_none, lemma_matching_bound,
    lemma_matching_positive, lemma_shared_prefix_positive,
};
pub use resolution::{
    lemma_key_in_complete, lemma_key_in_sound, lemma_key_of_complete, lemma_key_of_sound,
};

pub mod counting;
pub mod insertion;
pub mod lookup;
pub mod matching;
pub mod resolution;
