//! How the number of nodes changes where siblings change.

use crate::dtrie::shape::{count_all, Shape};
use vstd::prelude::*;

verus! {

/// The subtrees of siblings with one more behind them hold the nodes of
/// both.
pub proof fn lemma_count_all_push(siblings: Seq<Shape>, last: Shape)
    ensures
        count_all(siblings.push(last)) == count_all(siblings) + last.count(),
    decreases siblings.len(),
{
    let longer = siblings.push(last);
    if siblings.len() == 0 {
        assert(longer.drop_first() =~= siblings);
    } else {
        assert(longer.drop_first() =~= siblings.drop_first().push(last));
        lemma_count_all_push(siblings.drop_first(), last);
    }
}

/// Changing one sibling changes the number of nodes by what that sibling
/// gains or loses.
pub proof fn lemma_count_all_update(siblings: Seq<Shape>, i: int, changed: Shape)
    requires
        0 <= i < siblings.len(),
    ensures
        count_all(siblings.update(i, changed)) + siblings[i].count() == count_all(siblings)
            + changed.count(),
    decreases siblings.len(),
{
    let after = siblings.update(i, changed);
    if i == 0 {
        assert(after.drop_first() =~= siblings.drop_first());
    } else {
        assert(after.drop_first() =~= siblings.drop_first().update(i - 1, changed));
        lemma_count_all_update(siblings.drop_first(), i - 1, changed);
    }
}

/// One node alone has the nodes of its own subtree.
pub proof fn lemma_count_all_one(only: Shape)
    ensures
        count_all(seq![only]) == only.count(),
{
    assert(seq![only] =~= Seq::<Shape>::empty().push(only));
    lemma_count_all_push(Seq::<Shape>::empty(), only);
}

/// Two nodes side by side have the nodes of both subtrees.
pub proof fn lemma_count_all_two(first: Shape, second: Shape)
    ensures
        count_all(seq![first, second]) == first.count() + second.count(),
{
    assert(seq![first, second] =~= seq![first].push(second));
    lemma_count_all_one(first);
    lemma_count_all_push(seq![first], second);
}

/// The subtree of one sibling has no more nodes than all of them together.
pub proof fn lemma_count_all_skip(siblings: Seq<Shape>, i: int)
    requires
        0 <= i < siblings.len(),
    ensures
        count_all(siblings.skip(i)) == siblings[i].count() + count_all(siblings.skip(i + 1)),
        count_all(siblings.skip(i)) <= count_all(siblings),
    decreases i,
{
    assert(siblings.skip(i).drop_first() =~= siblings.skip(i + 1));
    if i > 0 {
        lemma_count_all_skip(siblings, i - 1);
    } else {
        assert(siblings.skip(0) =~= siblings);
    }
}

} // verus!
