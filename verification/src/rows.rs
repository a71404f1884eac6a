//! Two facts about rows that grow at their end, for loops that fill a row
//! element by element.

use vstd::prelude::*;

verus! {

/// Filtering a row with one more element at its end.
pub proof fn lemma_filter_push<A>(row: Seq<A>, last: A, keep: spec_fn(A) -> bool)
    ensures
        row.push(last).filter(keep) == if keep(last) {
            row.filter(keep).push(last)
        } else {
            row.filter(keep)
        },
{
    reveal(Seq::filter);
    assert(row.push(last).drop_last() == row);
}

/// Mapping a row with one more element at its end.
pub proof fn lemma_map_push<A, B>(row: Seq<A>, last: A, f: spec_fn(A) -> B)
    ensures
        row.push(last).map_values(f) == row.map_values(f).push(f(last)),
{
    assert(row.push(last).map_values(f) =~= row.map_values(f).push(f(last)));
}

} // verus!
