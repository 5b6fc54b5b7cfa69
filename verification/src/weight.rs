//! The weight of a table of best costs, by which the searches are shown to
//! come to an end: every improvement makes it less.

use vstd::prelude::*;
use crate::time::Time;

verus! {

/// What a table entry weighs: its time, or more than any time where the
/// entry is still empty.
pub open spec fn entry_weight(e: Option<Time>) -> nat {
    match e {
        Some(t) => t as nat,
        None => 0x1_0000_0000_0000_0000,
    }
}

/// The weight of a row: the sum of the weights of its entries.
pub open spec fn row_weight(row: Seq<Option<Time>>) -> nat
    decreases row.len(),
{
    if row.len() == 0 {
        0
    } else {
        row_weight(row.drop_last()) + entry_weight(row.last())
    }
}

/// Changing one entry of a row changes the weight of the row by the
/// difference of the two entries.
pub proof fn lemma_row_update(row: Seq<Option<Time>>, j: int, e: Option<Time>)
    requires
        0 <= j < row.len(),
    ensures
        row_weight(row.update(j, e)) + entry_weight(row[j]) == row_weight(row) + entry_weight(e),
    decreases row.len(),
{
    if j == row.len() - 1 {
        assert(row.update(j, e).drop_last() =~= row.drop_last());
    } else {
        lemma_row_update(row.drop_last(), j, e);
        assert(row.update(j, e).drop_last() =~= row.drop_last().update(j, e));
    }
}

} // verus!
