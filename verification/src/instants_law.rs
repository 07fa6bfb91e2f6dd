//! Why the instants of a history that are worth a look are enough.

use vstd::prelude::*;
use crate::asof::{chosen, rows_as_of, Write};
use crate::instants::{half, is_earliest, is_interesting, is_next, is_written};

verus! {

/// The halfway point of two instants lies between them, no further from one
/// than from the other but for a rounding.
pub proof fn law_halfway_lies_between(a: int, b: int)
    requires
        a < b,
    ensures
        a <= half(a + b) <= b,
        -1 <= (half(a + b) - a) - (b - half(a + b)) <= 1,
{
}

/// The latest written instant that is not after a given one, if there is any.
proof fn lemma_last_written(ws: Seq<Write>, t: int, k: int) -> (u: Option<int>)
    requires
        0 <= k <= ws.len(),
    ensures
        u matches Some(v) ==> is_written(ws, v) && v <= t && forall|j: int|
            0 <= j < k && (#[trigger] ws[j]).ts <= t ==> ws[j].ts <= v,
        u is None ==> forall|j: int| 0 <= j < k ==> (#[trigger] ws[j]).ts > t,
    decreases k,
{
    if k == 0 {
        None
    } else {
        let before = lemma_last_written(ws, t, k - 1);
        let ts = ws[k - 1].ts as int;
        if ts <= t && (before is None || before->Some_0 < ts) {
            assert(is_written(ws, ts));
            Some(ts)
        } else {
            before
        }
    }
}

/// The earliest written instant of some writes.
proof fn lemma_first_written(ws: Seq<Write>, k: int) -> (a: int)
    requires
        0 < k <= ws.len(),
    ensures
        is_written(ws, a),
        forall|j: int| 0 <= j < k ==> a <= (#[trigger] ws[j]).ts,
    decreases k,
{
    let ts = ws[k - 1].ts as int;
    assert(is_written(ws, ts));
    if k == 1 {
        ts
    } else {
        let a = lemma_first_written(ws, k - 1);
        if ts < a {
            ts
        } else {
            a
        }
    }
}

proof fn lemma_same_window(ws: Seq<Write>, t: i64, u: i64)
    requires
        forall|j: int| 0 <= j < ws.len() ==> ((#[trigger] ws[j]).ts <= t <==> ws[j].ts <= u),
    ensures
        rows_as_of(ws, t, true, true) == rows_as_of(ws, u, true, true),
{
    assert forall|i: int| #[trigger] chosen(ws, i, t, true, true) == chosen(
        ws,
        i,
        u,
        true,
        true,
    ) by {}
    assert forall|i: int| #[trigger] chosen(ws, i, u, true, true) == chosen(
        ws,
        i,
        t,
        true,
        true,
    ) by {}
    assert(rows_as_of(ws, t, true, true) =~= rows_as_of(ws, u, true, true));
}

/// Whatever a history is as of any instant, it is as of one that is worth a
/// look.
pub proof fn law_interesting_instants_suffice(ws: Seq<Write>, t: i64)
    requires
        ws.len() > 0,
        forall|i: int| 0 <= i < ws.len() ==> i64::MIN < (#[trigger] ws[i]).ts,
    ensures
        exists|u: i64| #[trigger]
            is_interesting(ws, u as int) && rows_as_of(ws, t, true, true) == rows_as_of(
                ws,
                u,
                true,
                true,
            ),
{
    let n = ws.len() as int;
    match lemma_last_written(ws, t as int, n) {
        Some(v) => {
            let u = v as i64;
            assert(u == v);
            assert(is_interesting(ws, u as int));
            lemma_same_window(ws, t, u);
        },
        None => {
            let a = lemma_first_written(ws, n);
            let i = choose|i: int| 0 <= i < ws.len() && (#[trigger] ws[i]).ts == a;
            let u = (a - 1) as i64;
            assert(u == a - 1);
            assert(is_earliest(ws, u + 1)) by {
                assert forall|c: int| #[trigger] is_written(ws, c) implies a <= c by {
                    let j = choose|j: int| 0 <= j < ws.len() && (#[trigger] ws[j]).ts == c;
                    assert(a <= ws[j].ts);
                }
            }
            assert(is_interesting(ws, u as int));
            assert forall|j: int| 0 <= j < ws.len() implies ((#[trigger] ws[j]).ts <= t
                <==> ws[j].ts <= u) by {
                assert(a <= ws[j].ts);
                assert(ws[j].ts > t);
            }
            lemma_same_window(ws, t, u);
        },
    }
}

/// Among the instants that are worth a look are one before all writes, one
/// after all writes, each written one, and one in each gap between two.
pub proof fn law_every_gap_is_looked_at(ws: Seq<Write>, i: int, a: int, b: int)
    ensures
        0 <= i < ws.len() ==> is_interesting(ws, ws[i].ts as int),
        ws.len() > 0 ==> exists|u: int| #[trigger]
            is_interesting(ws, u) && forall|j: int| 0 <= j < ws.len() ==> u < (#[trigger] ws[j]).ts,
        ws.len() > 0 ==> exists|u: int| #[trigger]
            is_interesting(ws, u) && forall|j: int| 0 <= j < ws.len() ==> (#[trigger] ws[j]).ts < u,
        is_next(ws, a, b) && a + 1 < b ==> exists|u: int| #[trigger]
            is_interesting(ws, u) && a < u < b,
{
    if ws.len() > 0 {
        let n = ws.len() as int;
        let first = lemma_first_written(ws, n);
        assert(is_earliest(ws, first)) by {
            assert forall|c: int| #[trigger] is_written(ws, c) implies first <= c by {
                let j = choose|j: int| 0 <= j < ws.len() && (#[trigger] ws[j]).ts == c;
                assert(first <= ws[j].ts);
            }
        }
        assert(is_earliest(ws, (first - 1) + 1));
        assert(is_interesting(ws, first - 1));
        let last = lemma_last_written(ws, i64::MAX as int, n);
        assert(last is Some) by {
            assert(ws[0].ts <= i64::MAX);
        }
        let l = last->Some_0;
        assert forall|j: int| 0 <= j < ws.len() implies (#[trigger] ws[j]).ts < l + 1 by {
            assert(ws[j].ts <= i64::MAX);
        }
        assert(crate::instants::is_latest(ws, l)) by {
            assert forall|c: int| #[trigger] is_written(ws, c) implies c <= l by {
                let j = choose|j: int| 0 <= j < ws.len() && (#[trigger] ws[j]).ts == c;
                assert(ws[j].ts < l + 1);
            }
        }
        assert(crate::instants::is_latest(ws, (l + 1) - 1));
        assert(is_interesting(ws, l + 1));
    }
    if 0 <= i < ws.len() {
        assert(is_written(ws, ws[i].ts as int));
    }
    if is_next(ws, a, b) && a + 1 < b {
        assert(is_interesting(ws, half(a + b)));
    }
}

} // verus!
