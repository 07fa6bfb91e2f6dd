//! What reading a list of writes as of an instant gives.

use vstd::prelude::*;
use crate::asof::{chosen, key_row, outranks, rows_as_of, written_row, Write};
use crate::reach::{is_edge_row, link_row, row_link, Link};
use crate::value::Row;

verus! {

/// Whether a row comes from another fact than a given one.
pub open spec fn from_another(ws: Seq<Write>, at: i64, key: Seq<i64>, row: Row) -> bool {
    exists|i: int| #[trigger]
        chosen(ws, i, at, true, true) && ws[i].asserted && ws[i].key@ != key && row == written_row(
            ws[i],
        )
}

/// A write that no write of its fact follows in time, as of an instant, says
/// what its fact is then: its row if it asserts, and nothing if it retracts.
/// The other facts stay as they were.
pub proof fn law_last_write_shows(ws: Seq<Write>, w: Write, at: i64, row: Row)
    requires
        w.ts <= at,
        forall|j: int|
            0 <= j < ws.len() && (#[trigger] ws[j]).key@ == w.key@ ==> ws[j].ts <= w.ts || at
                < ws[j].ts,
    ensures
        rows_as_of(ws.push(w), at, true, true).contains(row) <==> (w.asserted && row
            == written_row(w)) || from_another(ws, at, w.key@, row),
{
    let now = ws.push(w);
    let n = ws.len() as int;
    assert forall|i: int| 0 <= i < n implies #[trigger] now[i] == ws[i] by {}
    assert(now[n] == w);
    assert(chosen(now, n, at, true, true)) by {
        assert forall|j: int|
            0 <= j < now.len() && j != n && (#[trigger] now[j]).key@ == w.key@ && now[j].ts
                <= at implies outranks(now, n, j, true) by {
            assert(ws[j].key@ == w.key@);
        }
    }
    if rows_as_of(now, at, true, true).contains(row) {
        let i = choose|i: int| #[trigger]
            chosen(now, i, at, true, true) && now[i].asserted && row == written_row(now[i]);
        if i < n {
            if now[i].key@ == w.key@ {
                assert(outranks(now, i, n, true));
                assert(ws[i].key@ == w.key@);
            }
            assert(chosen(ws, i, at, true, true)) by {
                assert forall|j: int|
                    0 <= j < ws.len() && j != i && (#[trigger] ws[j]).key@ == ws[i].key@
                        && ws[j].ts <= at implies outranks(ws, i, j, true) by {
                    assert(now[j].key@ == now[i].key@);
                    assert(outranks(now, i, j, true));
                }
            }
        }
    }
    if from_another(ws, at, w.key@, row) {
        let i = choose|i: int| #[trigger]
            chosen(ws, i, at, true, true) && ws[i].asserted && ws[i].key@ != w.key@ && row
                == written_row(ws[i]);
        assert(now[i] == ws[i]);
        assert(chosen(now, i, at, true, true)) by {
            assert forall|j: int|
                0 <= j < now.len() && j != i && (#[trigger] now[j]).key@ == now[i].key@
                    && now[j].ts <= at implies outranks(now, i, j, true) by {
                if j < n {
                    assert(ws[j].key@ == ws[i].key@);
                    assert(outranks(ws, i, j, true));
                }
            }
        }
    }
}

/// A write of a later instant does not show.
pub proof fn law_later_write_does_not_show(ws: Seq<Write>, w: Write, at: i64, last_wins: bool)
    requires
        w.ts > at,
    ensures
        rows_as_of(ws.push(w), at, true, last_wins) == rows_as_of(ws, at, true, last_wins),
{
    let now = ws.push(w);
    let n = ws.len() as int;
    assert forall|i: int| 0 <= i < n implies #[trigger] now[i] == ws[i] by {}
    assert forall|row: Row| rows_as_of(now, at, true, last_wins).contains(row) == rows_as_of(
        ws,
        at,
        true,
        last_wins,
    ).contains(row) by {
        if rows_as_of(now, at, true, last_wins).contains(row) {
            let i = choose|i: int| #[trigger]
                chosen(now, i, at, true, last_wins) && now[i].asserted && row == written_row(
                    now[i],
                );
            assert(now[n] == w);
            assert(i < n);
            assert(chosen(ws, i, at, true, last_wins)) by {
                assert forall|j: int|
                    0 <= j < ws.len() && j != i && (#[trigger] ws[j]).key@ == ws[i].key@
                        && ws[j].ts <= at implies outranks(ws, i, j, last_wins) by {
                    assert(now[j].key@ == now[i].key@);
                    assert(outranks(now, i, j, last_wins));
                }
            }
        }
        if rows_as_of(ws, at, true, last_wins).contains(row) {
            let i = choose|i: int| #[trigger]
                chosen(ws, i, at, true, last_wins) && ws[i].asserted && row == written_row(ws[i]);
            assert(now[i] == ws[i]);
            assert(chosen(now, i, at, true, last_wins)) by {
                assert forall|j: int|
                    0 <= j < now.len() && j != i && (#[trigger] now[j]).key@ == now[i].key@
                        && now[j].ts <= at implies outranks(now, i, j, last_wins) by {
                    if j < n {
                        assert(ws[j].key@ == ws[i].key@);
                        assert(outranks(ws, i, j, last_wins));
                    }
                }
            }
        }
    }
    assert(rows_as_of(now, at, true, last_wins) =~= rows_as_of(ws, at, true, last_wins));
}

/// A read that leaves its instant out is one as of the instant before.
pub proof fn law_exclusive_is_the_instant_before(ws: Seq<Write>, at: i64, last_wins: bool)
    requires
        at > i64::MIN,
    ensures
        rows_as_of(ws, at, false, last_wins) == rows_as_of(ws, (at - 1) as i64, true, last_wins),
{
    let before = (at - 1) as i64;
    assert forall|i: int| #[trigger] chosen(ws, i, at, false, last_wins) == chosen(
        ws,
        i,
        before,
        true,
        last_wins,
    ) by {}
    assert forall|i: int| #[trigger] chosen(ws, i, before, true, last_wins) == chosen(
        ws,
        i,
        at,
        false,
        last_wins,
    ) by {}
    assert(rows_as_of(ws, at, false, last_wins) =~= rows_as_of(ws, before, true, last_wins));
}

proof fn lemma_reversed(ws: Seq<Write>, i: int, at: i64, inclusive: bool, last_wins: bool)
    requires
        chosen(ws, i, at, inclusive, last_wins),
    ensures
        chosen(ws.reverse(), ws.len() - 1 - i, at, inclusive, !last_wins),
{
    let rs = ws.reverse();
    let n = ws.len() as int;
    let k = n - 1 - i;
    assert(rs[k] == ws[i]);
    assert forall|j: int| 0 <= j < n implies #[trigger] rs[j] == ws[n - 1 - j] by {}
    assert forall|j: int|
        0 <= j < rs.len() && j != k && (#[trigger] rs[j]).key@ == rs[k].key@
            && crate::asof::in_window(rs[j], at, inclusive) implies outranks(
        rs,
        k,
        j,
        !last_wins,
    ) by {
        assert(ws[n - 1 - j].key@ == ws[i].key@);
        assert(outranks(ws, i, n - 1 - j, last_wins));
    }
}

/// To prefer the earlier of two writes of one instant is to prefer the later
/// one of the list read backwards.
pub proof fn law_first_wins_is_last_backwards(ws: Seq<Write>, at: i64, inclusive: bool)
    ensures
        rows_as_of(ws, at, inclusive, false) == rows_as_of(ws.reverse(), at, inclusive, true),
{
    let rs = ws.reverse();
    let n = ws.len() as int;
    assert(rs.reverse() =~= ws);
    assert forall|row: Row| rows_as_of(ws, at, inclusive, false).contains(row) == rows_as_of(
        rs,
        at,
        inclusive,
        true,
    ).contains(row) by {
        if rows_as_of(ws, at, inclusive, false).contains(row) {
            let i = choose|i: int| #[trigger]
                chosen(ws, i, at, inclusive, false) && ws[i].asserted && row == written_row(ws[i]);
            lemma_reversed(ws, i, at, inclusive, false);
            assert(rs[n - 1 - i] == ws[i]);
        }
        if rows_as_of(rs, at, inclusive, true).contains(row) {
            let i = choose|i: int| #[trigger]
                chosen(rs, i, at, inclusive, true) && rs[i].asserted && row == written_row(rs[i]);
            lemma_reversed(rs, i, at, inclusive, true);
            assert(ws[n - 1 - i] == rs[i]);
        }
    }
    assert(rows_as_of(ws, at, inclusive, false) =~= rows_as_of(rs, at, inclusive, true));
}

/// The row of a write is its key, as numbers, and its values behind it.
pub proof fn law_written_row(w: Write, i: int)
    ensures
        written_row(w).len() == w.key@.len() + w.vals@.len(),
        0 <= i < w.key@.len() ==> written_row(w)[i] == crate::value::Val::Num(w.key@[i]),
        0 <= i < w.vals@.len() ==> written_row(w)[w.key@.len() + i] == w.vals@[i].deep_view(),
{
    assert(key_row(w.key@).len() == w.key@.len());
}

/// The edge that a row begins with is, as a row, the beginning of that row.
pub proof fn law_edge_rows_read_back(row: Row, l: Link)
    ensures
        is_edge_row(row) ==> link_row(row_link(row)) == row.take(2),
        is_edge_row(link_row(l)) && row_link(link_row(l)) == l,
{
    if is_edge_row(row) {
        assert(link_row(row_link(row)) =~= row.take(2));
    }
}

} // verus!
