//! The one question that labels and nodes all answer: how much of a
//! pattern do you match?

use crate::dtrie::char_list::CharList;
use vstd::prelude::*;

verus! {

/// Anything that can say how many leading bytes of a pattern it matches.
pub trait Matchable {
    /// The number of leading bytes of `pattern` that this value matches.
    spec fn matching(&self, pattern: Seq<u8>) -> nat;

    /// Counts the leading bytes of `pattern` that this value matches.
    fn similar_bytes(&self, pattern: CharList) -> (count: usize)
        ensures
            count == self.matching(pattern@),
    ;
}

} // verus!
