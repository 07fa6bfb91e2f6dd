//! What merging the output of an epoch does to a store of plain rows.

use vstd::prelude::*;
use crate::epoch::{store_rows, EpochStore};
use crate::temp_store::TempStore;
use crate::value::Row;

verus! {

/// A merge of plain rows adds them all, and the delta is those that were not
/// there before.
pub proof fn law_plain_merge_adds_rows(
    before: EpochStore,
    out: TempStore,
    after: EpochStore,
    row: Row,
)
    requires
        before.total is Normal,
        EpochStore::merged(before, out, after),
    ensures
        after.rows().contains(row) <==> before.rows().contains(row) || store_rows(out).contains(
            row,
        ),
        after.delta_rows().contains(row) <==> after.rows().contains(row) && !before.rows().contains(
            row,
        ),
{
}

/// Whether a row is returned early is settled when it is first merged: a row
/// that is there stays as it is, and a new one is returned unless it came in
/// to be skipped.
pub proof fn law_first_merge_settles_what_is_returned(
    before: EpochStore,
    out: TempStore,
    after: EpochStore,
    row: Row,
)
    requires
        before.wf(),
        before.fits(out),
        before.total is Normal,
        EpochStore::merged(before, out, after),
    ensures
        before.rows().contains(row) ==> (after.returned().contains(row)
            <==> before.returned().contains(row)),
        !before.rows().contains(row) ==> (after.returned().contains(row) <==> store_rows(
            out,
        ).contains(row) && out is Normal && !out->Normal_0.flags()[row]),
{
    crate::epoch::lemma_flags_dom(before.total->Normal_0);
    crate::epoch::lemma_flags_dom(out->Normal_0);
}

} // verus!
