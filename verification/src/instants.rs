//! The instants of a history that are worth a look.

use vstd::prelude::*;
use crate::asof::Write;
use crate::order::{strictly_sorted, OrderedSet};

verus! {

/// Half of a number, towards zero.
pub open spec fn half(n: int) -> int {
    if n >= 0 {
        n / 2
    } else {
        -((-n) / 2)
    }
}

/// Whether a write speaks of an instant.
pub open spec fn is_written(ws: Seq<Write>, t: int) -> bool {
    exists|i: int| 0 <= i < ws.len() && (#[trigger] ws[i]).ts == t
}

/// Two instants with no instant between them.
pub open spec fn is_next(ws: Seq<Write>, a: int, b: int) -> bool {
    &&& is_written(ws, a)
    &&& is_written(ws, b)
    &&& a < b
    &&& forall|c: int| #[trigger] is_written(ws, c) ==> c <= a || b <= c
}

/// The earliest instant.
pub open spec fn is_earliest(ws: Seq<Write>, a: int) -> bool {
    is_written(ws, a) && forall|c: int| #[trigger] is_written(ws, c) ==> a <= c
}

/// The latest instant.
pub open spec fn is_latest(ws: Seq<Write>, a: int) -> bool {
    is_written(ws, a) && forall|c: int| #[trigger] is_written(ws, c) ==> c <= a
}

/// Whether an instant is worth a look: it is one that is written, or just
/// before the earliest, just after the latest, or halfway between two.
pub open spec fn is_interesting(ws: Seq<Write>, t: int) -> bool {
    ||| is_written(ws, t)
    ||| is_earliest(ws, t + 1)
    ||| is_latest(ws, t - 1)
    ||| exists|a: int, b: int| #[trigger] is_next(ws, a, b) && t == half(a + b)
}

/// The instants that are worth a look, in order.
pub fn interesting_instants(ws: &Vec<Write>) -> (r: Vec<i64>)
    requires
        forall|i: int|
            0 <= i < ws@.len() ==> i64::MIN < 2 * (#[trigger] ws@[i]).ts && 2 * ws@[i].ts
                < i64::MAX,
    ensures
        strictly_sorted::<i64>(r.deep_view()),
        forall|t: i64| #[trigger] r@.contains(t) == is_interesting(ws@, t as int),
{
    let mut ts: OrderedSet<i64> = OrderedSet::new();
    let mut i: usize = 0;
    while i < ws.len()
        invariant
            i <= ws@.len(),
            ts.wf(),
            forall|t: i64| #[trigger]
                ts.deep_view().contains(t) == exists|j: int|
                    0 <= j < i && (#[trigger] ws@[j]).ts == t,
        decreases ws.len() - i,
    {
        let _ = ts.insert(ws[i].ts);
        i = i + 1;
    }
    let ghost s = ts.items.deep_view();
    let n: usize = ts.items.len();
    proof {
        assert(s.len() == n);
        assert forall|k: int| 0 <= k < n implies is_written(ws@, (#[trigger] s[k]) as int)
            && s[k] == ts.items@[k] && i64::MIN < 2 * s[k] && 2 * s[k] < i64::MAX by {
            assert(s.contains(s[k]));
            assert(ts.deep_view().contains(s[k]));
        }
        assert forall|t: int| #[trigger] is_written(ws@, t) implies exists|k: int|
            0 <= k < n && #[trigger] s[k] == t by {
            let j = choose|j: int| 0 <= j < ws@.len() && (#[trigger] ws@[j]).ts == t;
            assert(ts.deep_view().contains(ws@[j].ts));
            let k = choose|k: int| 0 <= k < s.len() && s[k] == ws@[j].ts;
            assert(s[k] == t);
        }
        assert forall|a: int, b: int| 0 <= a < b < n implies (#[trigger] s[a]) < (#[trigger] s[b]) by {
            assert(<i64 as crate::order::Total>::before(s[a], s[b]));
        }
    }
    let mut out: OrderedSet<i64> = OrderedSet::new();
    if n == 0 {
        proof {
            assert forall|t: i64| #[trigger] out.items@.contains(t) == is_interesting(
                ws@,
                t as int,
            ) by {
                if is_interesting(ws@, t as int) {
                    if exists|a: int, b: int| #[trigger] is_next(ws@, a, b) && t == half(a + b) {
                        let (a, b) = choose|a: int, b: int| #[trigger]
                            is_next(ws@, a, b) && t == half(a + b);
                        assert(is_written(ws@, a));
                    }
                    assert(is_written(ws@, t as int) || is_written(ws@, t + 1) || is_written(
                        ws@,
                        t - 1,
                    ));
                }
            }
        }
        return out.items;
    }
    let first: i64 = ts.items[0];
    let last: i64 = ts.items[n - 1];
    proof {
        assert(s[0] == first);
        assert(s[n - 1] == last);
    }
    let _ = out.insert(first - 1);
    let _ = out.insert(last + 1);
    let mut k: usize = 0;
    while k < n
        invariant
            k <= n,
            0 < n,
            n == ts.items@.len(),
            s == ts.items.deep_view(),
            s.len() == n,
            forall|j: int|
                0 <= j < n ==> (#[trigger] s[j]) == ts.items@[j] && i64::MIN < 2 * s[j] && 2 * s[j]
                    < i64::MAX,
            out.wf(),
            forall|t: i64| #[trigger]
                out.deep_view().contains(t) == (t == s[0] - 1 || t == s[n - 1] + 1 || (exists|j: int|
                    0 <= j < k && #[trigger] s[j] == t) || (exists|j: int|
                    0 < j < k && t == half(#[trigger] halfway(s, j)))),
        decreases n - k,
    {
        let x: i64 = ts.items[k];
        proof {
            assert(s[k as int] == x);
        }
        let ghost before = out.deep_view();
        let _ = out.insert(x);
        if k > 0 {
            let w: i64 = ts.items[k - 1];
            proof {
                assert(s[k - 1] == w);
            }
            let sum: i64 = w + x;
            let mid: i64 = if sum >= 0 {
                sum / 2
            } else {
                -((-sum) / 2)
            };
            proof {
                assert(halfway(s, k as int) == sum);
                assert(mid == half(halfway(s, k as int)));
            }
            let _ = out.insert(mid);
        }
        proof {
            assert forall|t: i64| #[trigger] out.deep_view().contains(t) == (t == s[0] - 1 || t
                == s[n - 1] + 1 || (exists|j: int| 0 <= j < k + 1 && #[trigger] s[j] == t) || (
            exists|j: int| 0 < j < k + 1 && t == half(#[trigger] halfway(s, j)))) by {
                if exists|j: int| 0 <= j < k + 1 && #[trigger] s[j] == t {
                    let j = choose|j: int| 0 <= j < k + 1 && #[trigger] s[j] == t;
                    if j < k {
                        assert(before.contains(t));
                    }
                }
                if exists|j: int| 0 < j < k + 1 && t == half(#[trigger] halfway(s, j)) {
                    let j = choose|j: int| 0 < j < k + 1 && t == half(#[trigger] halfway(s, j));
                    if j < k {
                        assert(before.contains(t));
                    }
                }
                if before.contains(t) {
                    if exists|j: int| 0 <= j < k && #[trigger] s[j] == t {
                        let j = choose|j: int| 0 <= j < k && #[trigger] s[j] == t;
                        assert(s[j] == t);
                    }
                    if exists|j: int| 0 < j < k && t == half(#[trigger] halfway(s, j)) {
                        let j = choose|j: int| 0 < j < k && t == half(#[trigger] halfway(s, j));
                        assert(t == half(halfway(s, j)));
                    }
                }
            }
        }
        k = k + 1;
    }
    proof {
        let found = out.items@;
        assert(out.items.deep_view() =~= found);
        assert forall|t: i64| #[trigger] found.contains(t) == out.deep_view().contains(t) by {}
        lemma_all_interesting(ws@, s, found);
    }
    out.items
}

/// The sum of an instant and the one before it.
spec fn halfway(s: Seq<i64>, j: int) -> int {
    s[j - 1] + s[j]
}

proof fn lemma_all_interesting(ws: Seq<Write>, s: Seq<i64>, found: Seq<i64>)
    requires
        s.len() > 0,
        forall|k: int| 0 <= k < s.len() ==> is_written(ws, (#[trigger] s[k]) as int),
        forall|t: int| #[trigger]
            is_written(ws, t) ==> exists|k: int| 0 <= k < s.len() && #[trigger] s[k] == t,
        forall|a: int, b: int| 0 <= a < b < s.len() ==> (#[trigger] s[a]) < (#[trigger] s[b]),
        forall|t: i64| #[trigger]
            found.contains(t) == (t == s[0] - 1 || t == s[s.len() - 1] + 1 || (exists|j: int|
                0 <= j < s.len() && #[trigger] s[j] == t) || (exists|j: int|
                0 < j < s.len() && t == half(#[trigger] halfway(s, j)))),
    ensures
        forall|t: i64| #[trigger] found.contains(t) == is_interesting(ws, t as int),
{
    let n = s.len() as int;
    assert(is_earliest(ws, s[0] as int)) by {
        assert(is_written(ws, s[0] as int));
        assert forall|c: int| #[trigger] is_written(ws, c) implies s[0] <= c by {
            let k = choose|k: int| 0 <= k < s.len() && #[trigger] s[k] == c;
            if k > 0 {
                assert(s[0] < s[k]);
            }
        }
    }
    assert(is_latest(ws, s[n - 1] as int)) by {
        assert(is_written(ws, s[n - 1] as int));
        assert forall|c: int| #[trigger] is_written(ws, c) implies c <= s[n - 1] by {
            let k = choose|k: int| 0 <= k < s.len() && #[trigger] s[k] == c;
            if k < n - 1 {
                assert(s[k] < s[n - 1]);
            }
        }
    }
    assert forall|t: i64| #[trigger] found.contains(t) == is_interesting(ws, t as int) by {
        if found.contains(t) {
            if exists|j: int| 0 <= j < s.len() && #[trigger] s[j] == t {
                let j = choose|j: int| 0 <= j < s.len() && #[trigger] s[j] == t;
                assert(is_written(ws, s[j] as int));
            } else if exists|j: int| 0 < j < s.len() && t == half(#[trigger] halfway(s, j)) {
                let j = choose|j: int| 0 < j < s.len() && t == half(#[trigger] halfway(s, j));
                let a = s[j - 1] as int;
                let b = s[j] as int;
                assert(is_written(ws, s[j - 1] as int));
                assert(is_written(ws, s[j] as int));
                assert forall|c: int| #[trigger] is_written(ws, c) implies c <= a || b <= c by {
                    let k = choose|k: int| 0 <= k < s.len() && #[trigger] s[k] == c;
                    if k < j - 1 {
                        assert(s[k] < s[j - 1]);
                    } else if k > j {
                        assert(s[j] < s[k]);
                    }
                }
                assert(is_next(ws, a, b) && t == half(a + b));
            }
        }
        if is_written(ws, t as int) {
            let k = choose|k: int| 0 <= k < s.len() && #[trigger] s[k] == t;
            assert(s[k] == t);
        }
        if is_earliest(ws, t + 1) {
            assert(is_written(ws, s[0] as int));
            assert(is_written(ws, t + 1));
        }
        if is_latest(ws, t - 1) {
            assert(is_written(ws, s[n - 1] as int));
            assert(is_written(ws, t - 1));
        }
        if exists|a: int, b: int| #[trigger] is_next(ws, a, b) && t == half(a + b) {
            let (a, b) = choose|a: int, b: int| #[trigger]
                is_next(ws, a, b) && t == half(a + b);
            let j = choose|j: int| 0 <= j < s.len() && #[trigger] s[j] == b;
            let i = choose|i: int| 0 <= i < s.len() && #[trigger] s[i] == a;
            if i >= j {
                if i > j {
                    assert(s[j] < s[i]);
                }
                assert(false);
            }
            if i < j - 1 {
                assert(is_written(ws, s[j - 1] as int));
                assert(s[i] < s[j - 1]);
                assert(s[j - 1] < s[j]);
                assert(false);
            }
            assert(t == half(halfway(s, j)));
        }
    }
}

} // verus!
