//! A probe reads less than the whole scan, and leaves nothing out.

use vstd::prelude::*;
use crate::answer::{lemma_holds_within, lemma_never_fails, lemma_passes_holds};
use crate::expr::Expr;
use crate::groups::{chunked, law_chunks_keep_rows};
use crate::meaning::{
    keys_match, passes, probe_columns, probe_join, probed, probed_row, sift, JoinShape, Origin,
};
use crate::names::{without, Name};
use crate::probe::in_reach;
use crate::stream::{
    flow, lemma_flow_ext, lemma_sound_rows, lemma_through_ext, lemma_through_of, through, Stream,
};
use crate::table_probe::lemma_met_wide;
use crate::value::Row;

verus! {

/// A left row joined with every row that agrees with it on the join columns and
/// passes the filters, in the order of the rows.
pub open spec fn scanned(
    l: Row,
    rows: Seq<Row>,
    shape: JoinShape,
    filters: Seq<Expr>,
    frame: Seq<Name>,
) -> Stream {
    flow(
        rows,
        |r: Row|
            if keys_match(l, shape.lp, r, shape.rp) {
                sift(filters, frame, r, without(l + r, shape.drop))
            } else {
                Stream::nothing()
            },
    )
}

/// Where every row has all its columns and no filter fails on one, the join by
/// probes yields the rows of the join by scans, each as often and in the same
/// order: neither the bounds that the filters set nor the lookup by key leaves
/// one out.
pub proof fn law_probes_are_scans(
    left: Stream,
    rows: Seq<Row>,
    shape: JoinShape,
    filters: Seq<Expr>,
    frame: Seq<Name>,
    key_len: Option<int>,
    origin: Option<Origin>,
)
    requires
        frame.no_duplicates(),
        shape.lp.len() == shape.rp.len(),
        shape.rp.len() <= frame.len(),
        in_reach(shape.rp, frame.len() as int),
        forall|i: int| 0 <= i < rows.len() ==> (#[trigger] rows[i]).len() == frame.len(),
        forall|i: int| 0 <= i < rows.len() ==> passes(filters, frame, #[trigger] rows[i]) is Ok,
    ensures
        probe_join(left, rows, shape, filters, frame, key_len, origin) == through(
            left,
            |l: Row| scanned(l, rows, shape, filters, frame),
        ),
{
    let columns = probe_columns(frame, shape.rp.len() as int, key_len);
    let f = |l: Row| probed(l, rows, shape, filters, frame, columns, origin);
    let g = |l: Row| scanned(l, rows, shape, filters, frame);
    assert forall|i: int| 0 <= i < left.items.len() && (#[trigger] left.items[i]) is Ok implies f(
        left.items[i]->Ok_0,
    ) == g(left.items[i]->Ok_0) by {
        let l = left.items[i]->Ok_0;
        let h = |r: Row| probed_row(l, r, shape, filters, frame, columns, origin);
        let k = |r: Row|
            if keys_match(l, shape.lp, r, shape.rp) {
                sift(filters, frame, r, without(l + r, shape.drop))
            } else {
                Stream::nothing()
            };
        assert forall|j: int| 0 <= j < rows.len() implies #[trigger] h(rows[j]) == k(rows[j]) by {
            let r = rows[j];
            assert(passes(filters, frame, r) is Ok);
            lemma_met_wide(l, r, shape, origin);
            lemma_passes_holds(filters, frame, r);
            if passes(filters, frame, r)->Ok_0 {
                lemma_holds_within(r, shape.rp.len() as int, filters, frame, key_len);
            }
        }
        lemma_flow_ext(rows, h, k);
    }
    lemma_through_ext(left, f, g);
}

/// The batches of a join by probes hold, one after the other, each left row
/// joined with every row that agrees with it and passes the filters, the left
/// rows in their order and the others in theirs.
pub proof fn law_batched_probes_are_scans(
    left: Stream,
    rows: Seq<Row>,
    shape: JoinShape,
    filters: Seq<Expr>,
    frame: Seq<Name>,
    key_len: Option<int>,
    origin: Option<Origin>,
)
    requires
        left.sound(),
        frame.no_duplicates(),
        shape.lp.len() == shape.rp.len(),
        shape.rp.len() <= frame.len(),
        in_reach(shape.rp, frame.len() as int),
        forall|i: int| 0 <= i < rows.len() ==> (#[trigger] rows[i]).len() == frame.len(),
        forall|i: int| 0 <= i < rows.len() ==> passes(filters, frame, #[trigger] rows[i]) is Ok,
    ensures
        ({
            let batches = chunked(
                probe_join(left, rows, shape, filters, frame, key_len, origin),
            );
            let out = flow(left.rows(), |l: Row| scanned(l, rows, shape, filters, frame));
            &&& out.sound()
            &&& batches.sound()
            &&& batches.stream() == out
        }),
{
    law_probes_are_scans(left, rows, shape, filters, frame, key_len, origin);
    let g = |l: Row| scanned(l, rows, shape, filters, frame);
    assert forall|i: int| 0 <= i < left.rows().len() implies (#[trigger] g(
        left.rows()[i],
    )).sound() by {
        let l = left.rows()[i];
        let k = |r: Row|
            if keys_match(l, shape.lp, r, shape.rp) {
                sift(filters, frame, r, without(l + r, shape.drop))
            } else {
                Stream::nothing()
            };
        assert forall|j: int| 0 <= j < rows.len() implies (#[trigger] k(rows[j])).sound() by {
            assert(passes(filters, frame, rows[j]) is Ok);
        }
        lemma_never_fails(rows, k);
    }
    lemma_never_fails(left.rows(), g);
    lemma_sound_rows(left);
    lemma_through_of(left.rows(), g);
    law_chunks_keep_rows(probe_join(left, rows, shape, filters, frame, key_len, origin));
}

} // verus!
