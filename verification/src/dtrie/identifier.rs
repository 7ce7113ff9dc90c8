//! The handles that stand for interned strings.

use core::cmp::Ordering;
use vstd::prelude::*;
use vstd::std_specs::cmp::PartialOrdSpecImpl;
use vstd::std_specs::convert::FromSpecImpl;

verus! {

/// A handle for one interned string.
///
/// Handles are handed out by a counter that starts at 1 and only grows, so
/// the number 0 never names a string. The view of a handle is its number,
/// and handles are ordered by their numbers: the one handed out earlier is
/// the smaller one.
#[derive(PartialEq, Eq, Structural, Copy, Clone, Debug, Hash, Ord)]
pub struct Identifier(u64);

impl View for Identifier {
    type V = u64;

    closed spec fn view(&self) -> u64 {
        self.0
    }
}

impl Identifier {
    /// The handle that carries the number `n`.
    pub closed spec fn from_number(n: u64) -> Identifier {
        Identifier(n)
    }

    /// Hands out the handle with the next unused number and counts one up.
    pub(crate) fn issue(next_id: &mut u64) -> (id: Identifier)
        requires
            *old(next_id) < u64::MAX,
        ensures
            id == Identifier::from_number(*old(next_id)),
            *final(next_id) == *old(next_id) + 1,
    {
        let id = Identifier(*next_id);
        *next_id = *next_id + 1;
        id
    }
}

impl From<u64> for Identifier {
    fn from(other: u64) -> (id: Identifier)
        ensures
            id == Identifier::from_number(other),
    {
        Identifier(other)
    }
}

impl FromSpecImpl<u64> for Identifier {
    open spec fn obeys_from_spec() -> bool {
        true
    }

    open spec fn from_spec(other: u64) -> Identifier {
        Identifier::from_number(other)
    }
}

impl PartialOrd for Identifier {
    fn partial_cmp(&self, other: &Identifier) -> (order: Option<Ordering>) {
        if self.0 < other.0 {
            Some(Ordering::Less)
        } else if self.0 == other.0 {
            Some(Ordering::Equal)
        } else {
            Some(Ordering::Greater)
        }
    }
}

impl PartialOrdSpecImpl for Identifier {
    open spec fn obeys_partial_cmp_spec() -> bool {
        true
    }

    open spec fn partial_cmp_spec(&self, other: &Identifier) -> Option<Ordering> {
        if self@ < other@ {
            Some(Ordering::Less)
        } else if self@ == other@ {
            Some(Ordering::Equal)
        } else {
            Some(Ordering::Greater)
        }
    }
}

impl Default for Identifier {
    fn default() -> (id: Identifier)
        ensures
            id@ == 0,
    {
        Identifier(0)
    }
}

/// The handle made from a number carries that number.
pub broadcast proof fn lemma_from_number_view(n: u64)
    ensures
        (#[trigger] Identifier::from_number(n))@ == n,
{
}

} // verus!
