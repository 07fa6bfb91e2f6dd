//! Histories as lists of writes, and what they say as of an instant: once
//! through the bitemporal record, and once by direct search.

use vstd::prelude::*;
use crate::delta::lemma_snapshot_row;
use crate::history::{
    decides, fact_at, governs, is_fact_key, lemma_decided, lemma_versions_at, settles, snapshot,
    versions_of, AsOf, ClaimPolarity, FactTable, RawVersion, Version,
};
use crate::order::OrderedSet;
use crate::value::{copy_row, DataValue, Row, Tuple, Val};

verus! {

/// One write of a fact: its key, the instant it speaks of, whether it asserts
/// or retracts, and the columns besides the key.
#[derive(Debug)]
pub struct Write {
    pub key: Vec<i64>,
    pub ts: i64,
    pub asserted: bool,
    pub vals: Tuple,
}

/// Integers as a row.
pub open spec fn key_row(key: Seq<i64>) -> Row {
    Seq::new(key.len(), |i: int| Val::Num(key[i]))
}

/// The row a write asserts.
pub open spec fn written_row(w: Write) -> Row {
    key_row(w.key@) + w.vals.deep_view()
}

/// Whether a write counts as of an instant.
pub open spec fn in_window(w: Write, at: i64, inclusive: bool) -> bool {
    if inclusive {
        w.ts <= at
    } else {
        w.ts < at
    }
}

/// Whether one write is preferred to another: the later instant, and at one
/// instant the later write, or the earlier one.
pub open spec fn outranks(ws: Seq<Write>, i: int, j: int, last_wins: bool) -> bool {
    ||| ws[i].ts > ws[j].ts
    ||| ws[i].ts == ws[j].ts && (if last_wins {
        i > j
    } else {
        i < j
    })
}

/// Whether a write says what its fact is as of an instant.
pub open spec fn chosen(ws: Seq<Write>, i: int, at: i64, inclusive: bool, last_wins: bool) -> bool {
    &&& 0 <= i < ws.len()
    &&& in_window(ws[i], at, inclusive)
    &&& forall|j: int|
        0 <= j < ws.len() && j != i && (#[trigger] ws[j]).key@ == ws[i].key@ && in_window(
            ws[j],
            at,
            inclusive,
        ) ==> outranks(ws, i, j, last_wins)
}

/// The rows that a list of writes gives as of an instant.
pub open spec fn rows_as_of(ws: Seq<Write>, at: i64, inclusive: bool, last_wins: bool) -> Set<Row> {
    Set::new(
        |row: Row|
            exists|i: int| #[trigger]
                chosen(ws, i, at, inclusive, last_wins) && ws[i].asserted && row == written_row(
                    ws[i],
                ),
    )
}

/// When the record took a write in: in list order, or the other way round.
pub open spec fn recorded_at(i: int, n: int, last_wins: bool) -> int {
    if last_wins {
        i
    } else {
        n - 1 - i
    }
}

/// A write as a version of its fact.
pub open spec fn version_of(w: Write, sys: int) -> Version {
    Version {
        valid: w.ts,
        sys: sys as i64,
        polarity: if w.asserted {
            ClaimPolarity::Assert
        } else {
            ClaimPolarity::Retract
        },
        payload: if w.asserted {
            w.vals.deep_view()
        } else {
            Seq::empty()
        },
    }
}

/// The places of the writes of a fact among the first `m`.
pub open spec fn places_of_key(ws: Seq<Write>, k: Row, m: int) -> Seq<int>
    decreases m,
{
    if m <= 0 {
        Seq::empty()
    } else if key_row(ws[m - 1].key@) == k {
        places_of_key(ws, k, m - 1).push(m - 1)
    } else {
        places_of_key(ws, k, m - 1)
    }
}

/// The versions of a fact that the first `m` writes record.
pub open spec fn versions_written(ws: Seq<Write>, k: Row, m: int, last_wins: bool) -> Seq<Version> {
    let ps = places_of_key(ws, k, m);
    Seq::new(
        ps.len(),
        |p: int| version_of(ws[ps[p]], recorded_at(ps[p], ws.len() as int, last_wins)),
    )
}

proof fn lemma_places_of_key(ws: Seq<Write>, k: Row, m: int)
    requires
        0 <= m <= ws.len(),
    ensures
        forall|p: int|
            0 <= p < places_of_key(ws, k, m).len() ==> 0 <= (#[trigger] places_of_key(
                ws,
                k,
                m,
            )[p]) < m && key_row(ws[places_of_key(ws, k, m)[p]].key@) == k,
        forall|p: int, q: int|
            0 <= p < q < places_of_key(ws, k, m).len() ==> places_of_key(ws, k, m)[p]
                < places_of_key(ws, k, m)[q],
        forall|i: int|
            0 <= i < m && key_row((#[trigger] ws[i]).key@) == k ==> places_of_key(
                ws,
                k,
                m,
            ).contains(i),
    decreases m,
{
    if m > 0 {
        lemma_places_of_key(ws, k, m - 1);
        let less = places_of_key(ws, k, m - 1);
        let ps = places_of_key(ws, k, m);
        assert forall|i: int| 0 <= i < m && key_row((#[trigger] ws[i]).key@) == k implies ps.contains(
            i,
        ) by {
            if i < m - 1 {
                assert(less.contains(i));
                let p = less.index_of(i);
                assert(ps[p] == i);
            } else {
                assert(ps[less.len() as int] == i);
            }
        }
    }
}

proof fn lemma_key_row_injective(a: Seq<i64>, b: Seq<i64>)
    ensures
        key_row(a) == key_row(b) <==> a == b,
{
    if key_row(a) == key_row(b) {
        assert(key_row(a).len() == a.len());
        assert(key_row(b).len() == b.len());
        assert forall|i: int| 0 <= i < a.len() implies a[i] == b[i] by {
            assert(key_row(a)[i] == key_row(b)[i]);
        }
        assert(a =~= b);
    }
}

/// The instant up to which a read looks.
pub open spec fn probe_instant(at: i64, inclusive: bool) -> int {
    if inclusive {
        at as int
    } else {
        at - 1
    }
}

/// The write that is chosen is the version that decides.
proof fn lemma_chosen_decides(
    ws: Seq<Write>,
    k: Row,
    p: int,
    at: i64,
    inclusive: bool,
    last_wins: bool,
)
    requires
        ws.len() <= i64::MAX,
        0 <= p < places_of_key(ws, k, ws.len() as int).len(),
    ensures
        chosen(ws, places_of_key(ws, k, ws.len() as int)[p], at, inclusive, last_wins) <==> decides(
            versions_written(ws, k, ws.len() as int, last_wins),
            p,
            probe_instant(at, inclusive),
            i64::MAX as int,
        ),
{
    let n = ws.len() as int;
    let ps = places_of_key(ws, k, n);
    let g = versions_written(ws, k, n, last_wins);
    let valid = probe_instant(at, inclusive);
    let top = i64::MAX as int;
    lemma_places_of_key(ws, k, n);
    let i = ps[p];
    if chosen(ws, i, at, inclusive, last_wins) {
        assert forall|q: int|
            0 <= q < g.len() && (#[trigger] g[q]).valid == g[p].valid && g[q].sys <= top implies g[q].sys
            < g[p].sys || (g[q].sys == g[p].sys && q <= p) by {
            if q != p {
                let j = ps[q];
                lemma_key_row_injective(ws[j].key@, ws[i].key@);
                assert(j != i);
                assert(outranks(ws, i, j, last_wins));
            }
        }
        assert(settles(g, p, top));
        assert forall|q: int| #[trigger] settles(g, q, top) && g[q].valid <= valid implies g[q].valid
            <= g[p].valid by {
            if q != p {
                let j = ps[q];
                lemma_key_row_injective(ws[j].key@, ws[i].key@);
                assert(j != i);
                assert(in_window(ws[j], at, inclusive));
                assert(outranks(ws, i, j, last_wins));
            }
        }
    }
    if decides(g, p, valid, top) {
        assert forall|j: int|
            0 <= j < ws.len() && j != i && (#[trigger] ws[j]).key@ == ws[i].key@ && in_window(
                ws[j],
                at,
                inclusive,
            ) implies outranks(ws, i, j, last_wins) by {
            lemma_key_row_injective(ws[j].key@, ws[i].key@);
            assert(ps.contains(j));
            let q = ps.index_of(j);
            assert(g[q].valid == ws[j].ts);
            let h = lemma_governing(ws, k, q, last_wins);
            assert(settles(g, h, top));
            assert(g[h].valid <= g[p].valid);
            if ws[j].ts == ws[i].ts {
                assert(governs(g, p, top));
                assert(g[q].sys < g[p].sys || (g[q].sys == g[p].sys && q <= p));
                assert(recorded_at(j, n, last_wins) <= recorded_at(i, n, last_wins));
            }
        }
    }
}

/// Some version governs the instant of every version.
proof fn lemma_governing(ws: Seq<Write>, k: Row, q: int, last_wins: bool) -> (h: int)
    requires
        ws.len() <= i64::MAX,
        0 <= q < places_of_key(ws, k, ws.len() as int).len(),
    ensures
        governs(versions_written(ws, k, ws.len() as int, last_wins), h, i64::MAX as int),
        versions_written(ws, k, ws.len() as int, last_wins)[h].valid == versions_written(
            ws,
            k,
            ws.len() as int,
            last_wins,
        )[q].valid,
{
    let g = versions_written(ws, k, ws.len() as int, last_wins);
    lemma_places_of_key(ws, k, ws.len() as int);
    lemma_latest(g, g.len() as int, q)
}

/// Of the first `m` versions of an instant, the latest recorded.
proof fn lemma_latest(g: Seq<Version>, m: int, q: int) -> (h: int)
    requires
        0 <= q < m <= g.len(),
    ensures
        0 <= h < m,
        g[h].valid == g[q].valid,
        forall|j: int|
            0 <= j < m && (#[trigger] g[j]).valid == g[q].valid ==> g[j].sys < g[h].sys || (
            g[j].sys == g[h].sys && j <= h),
    decreases m,
{
    if m == q + 1 {
        if exists|j: int| 0 <= j < q && (#[trigger] g[j]).valid == g[q].valid {
            let j = choose|j: int| 0 <= j < q && (#[trigger] g[j]).valid == g[q].valid;
            let h = lemma_latest(g, q, j);
            if g[h].sys <= g[q].sys {
                q
            } else {
                h
            }
        } else {
            q
        }
    } else {
        let h = lemma_latest(g, m - 1, q);
        if g[m - 1].valid == g[q].valid && g[h].sys <= g[m - 1].sys {
            m - 1
        } else {
            h
        }
    }
}

/// The integers of a key as a row.
pub fn key_tuple(key: &Vec<i64>) -> (r: Tuple)
    ensures
        r.deep_view() == key_row(key@),
        r@.len() == key@.len(),
{
    let mut out: Tuple = Vec::new();
    let mut i: usize = 0;
    while i < key.len()
        invariant
            i <= key@.len(),
            out@.len() == i,
            out.deep_view() == key_row(key@.take(i as int)),
        decreases key.len() - i,
    {
        let ghost before = out.deep_view();
        out.push(DataValue::Num(key[i]));
        proof {
            assert(out.deep_view() =~= before.push(Val::Num(key@[i as int])));
            assert(key_row(key@.take(i + 1)) =~= before.push(Val::Num(key@[i as int])));
        }
        i = i + 1;
    }
    proof {
        assert(key@.take(i as int) =~= key@);
    }
    out
}

/// The record of a list of writes.
pub fn table_of(ws: &Vec<Write>, key_len: usize, last_wins: bool) -> (r: FactTable)
    requires
        ws@.len() <= i64::MAX,
        forall|i: int| 0 <= i < ws@.len() ==> (#[trigger] ws@[i]).key@.len() == key_len,
    ensures
        r.wf(),
        r.key_len == key_len,
        forall|k: Row|
            #![trigger versions_of(r.model(), k)]
            versions_of(r.model(), k) == versions_written(
                ws@,
                k,
                ws@.len() as int,
                last_wins,
            ),
{
    let mut table = FactTable::new(key_len);
    let n: usize = ws.len();
    let mut i: usize = 0;
    proof {
        assert forall|k: Row| #![trigger versions_of(table.model(), k)] versions_of(
            table.model(),
            k,
        ) == versions_written(ws@, k, 0, last_wins) by {
            assert(versions_written(ws@, k, 0, last_wins) =~= Seq::<Version>::empty());
            assert(!exists|j: int| is_fact_key(table.model(), j, k));
        }
    }
    while i < n
        invariant
            i <= n,
            n == ws@.len(),
            n <= i64::MAX,
            table.wf(),
            table.key_len == key_len,
            forall|j: int| 0 <= j < ws@.len() ==> (#[trigger] ws@[j]).key@.len() == key_len,
            forall|k: Row|
                #![trigger versions_of(table.model(), k)]
                versions_of(table.model(), k) == versions_written(ws@, k, i as int, last_wins),
        decreases n - i,
    {
        let w = &ws[i];
        let key = key_tuple(&w.key);
        let sys: i64 = if last_wins {
            i as i64
        } else {
            (n - 1 - i) as i64
        };
        let payload: Tuple = if w.asserted {
            copy_row(&w.vals)
        } else {
            Vec::new()
        };
        proof {
            if !w.asserted {
                assert(payload.deep_view() =~= Seq::<Val>::empty());
            }
        }
        let version = RawVersion {
            valid: w.ts,
            sys,
            polarity: if w.asserted {
                ClaimPolarity::Assert
            } else {
                ClaimPolarity::Retract
            },
            payload,
        };
        let ghost before = table;
        let ghost k0 = key.deep_view();
        let ghost v0 = version.deep_view();
        table.record(key, version);
        proof {
            assert(v0 == version_of(ws@[i as int], recorded_at(i as int, n as int, last_wins)));
            assert forall|k: Row| #![trigger versions_of(table.model(), k)] versions_of(
                table.model(),
                k,
            ) == versions_written(ws@, k, i + 1, last_wins) by {
                let less = versions_written(ws@, k, i as int, last_wins);
                assert(versions_of(before.model(), k) == less);
                if k == k0 {
                    assert(versions_written(ws@, k, i + 1, last_wins) =~= less.push(v0));
                } else {
                    assert(versions_written(ws@, k, i + 1, last_wins) =~= less);
                }
            }
        }
        i = i + 1;
    }
    table
}

/// What the record of writes holds as of an instant.
proof fn lemma_record_as_of(
    ws: Seq<Write>,
    table: FactTable,
    at: i64,
    inclusive: bool,
    last_wins: bool,
)
    requires
        ws.len() <= i64::MAX,
        table.wf(),
        inclusive || at > i64::MIN,
        forall|k: Row|
            #![trigger versions_of(table.model(), k)]
            versions_of(table.model(), k) == versions_written(ws, k, ws.len() as int, last_wins),
    ensures
        snapshot(
            table.model(),
            AsOf { valid: probe_instant(at, inclusive) as i64, sys: i64::MAX },
        ).to_set() == rows_as_of(ws, at, inclusive, last_wins),
{
    let n = ws.len() as int;
    let to = AsOf { valid: probe_instant(at, inclusive) as i64, sys: i64::MAX };
    let facts = table.model();
    let want = rows_as_of(ws, at, inclusive, last_wins);
    assert forall|row: Row| snapshot(facts, to).to_set().contains(row) == want.contains(row) by {
        lemma_snapshot_row(facts, to, row);
        if snapshot(facts, to).contains(row) {
            let f = choose|f: int| 0 <= f < facts.len() && fact_at(#[trigger] facts[f], to) == Some(row);
            let k = facts[f].key;
            lemma_versions_at(&table, f);
            assert(table.facts.keys.deep_view()[f] == k);
            let g = versions_of(facts, k);
            assert(facts[f].versions == g);
            let p = choose|p: int| decides(g, p, to.valid as int, to.sys as int);
            lemma_chosen_decides(ws, k, p, at, inclusive, last_wins);
            lemma_places_of_key(ws, k, n);
            let i = places_of_key(ws, k, n)[p];
            assert(chosen(ws, i, at, inclusive, last_wins));
            assert(row == written_row(ws[i]));
        }
        if want.contains(row) {
            let i = choose|i: int| #[trigger]
                chosen(ws, i, at, inclusive, last_wins) && ws[i].asserted && row == written_row(
                    ws[i],
                );
            let k = key_row(ws[i].key@);
            lemma_places_of_key(ws, k, n);
            let ps = places_of_key(ws, k, n);
            assert(ps.contains(i));
            let p = ps.index_of(i);
            lemma_chosen_decides(ws, k, p, at, inclusive, last_wins);
            let g = versions_of(facts, k);
            assert(g == versions_written(ws, k, n, last_wins));
            lemma_decided(g, p, to.valid as int, to.sys as int);
            assert(g.len() > 0);
            let f = choose|f: int| is_fact_key(facts, f, k);
            assert(is_fact_key(facts, f, k));
            assert(facts[f].versions == g);
            assert(fact_at(facts[f], to) == Some(row));
        }
    }
    assert(snapshot(facts, to).to_set() =~= want);
}

/// The rows that writes give as of an instant, read from their record. The
/// read takes the instant in, or looks strictly before it; of two writes at
/// one instant the last counts, or the first.
pub fn naive_asof_cfg(
    ws: &Vec<Write>,
    key_len: usize,
    at: i64,
    boundary_inclusive: bool,
    last_write_wins: bool,
) -> (r: OrderedSet<Tuple>)
    requires
        ws@.len() <= i64::MAX,
        forall|i: int| 0 <= i < ws@.len() ==> (#[trigger] ws@[i]).key@.len() == key_len,
        boundary_inclusive || at > i64::MIN,
    ensures
        r.wf(),
        r.deep_view() == rows_as_of(ws@, at, boundary_inclusive, last_write_wins),
{
    let table = table_of(ws, key_len, last_write_wins);
    let probe_at: i64 = if boundary_inclusive {
        at
    } else {
        at - 1
    };
    proof {
        lemma_record_as_of(ws@, table, at, boundary_inclusive, last_write_wins);
    }
    OrderedSet::from_vec(table.skip_scan_all(AsOf { valid: probe_at, sys: i64::MAX }))
}

/// The rows that writes give as of an instant: the instant counts, and of two
/// writes at one instant the last.
pub fn naive_asof(ws: &Vec<Write>, key_len: usize, at: i64) -> (r: OrderedSet<Tuple>)
    requires
        ws@.len() <= i64::MAX,
        forall|i: int| 0 <= i < ws@.len() ==> (#[trigger] ws@[i]).key@.len() == key_len,
    ensures
        r.wf(),
        r.deep_view() == rows_as_of(ws@, at, true, true),
{
    naive_asof_cfg(ws, key_len, at, true, true)
}

/// Whether two keys are the same.
fn same_key(a: &Vec<i64>, b: &Vec<i64>) -> (r: bool)
    ensures
        r == (a@ == b@),
{
    if a.len() != b.len() {
        return false;
    }
    let mut i: usize = 0;
    while i < a.len()
        invariant
            i <= a@.len(),
            a@.len() == b@.len(),
            forall|j: int| 0 <= j < i ==> a@[j] == b@[j],
        decreases a.len() - i,
    {
        if a[i] != b[i] {
            return false;
        }
        i = i + 1;
    }
    proof {
        assert(a@ =~= b@);
    }
    true
}

/// The writes that are chosen among the first `m`, one for each key.
spec fn best_so_far(
    best: Seq<usize>,
    ws: Seq<Write>,
    m: int,
    at: i64,
    inclusive: bool,
    last_wins: bool,
) -> bool {
    &&& forall|b: int|
        0 <= b < best.len() ==> chosen(ws.take(m), (#[trigger] best[b]) as int, at, inclusive, last_wins)
    &&& forall|i: int|
        0 <= i < m && in_window(#[trigger] ws[i], at, inclusive) ==> exists|b: int|
            0 <= b < best.len() && ws[(#[trigger] best[b]) as int].key@ == ws[i].key@
    &&& forall|b: int, c: int|
        0 <= b < c < best.len() ==> ws[(#[trigger] best[b]) as int].key@ != ws[(
        #[trigger] best[c]) as int].key@
}

/// The rows that writes give as of an instant, found by comparing the writes
/// of each key one with the other.
pub fn independent_asof_reference(
    ws: &Vec<Write>,
    at: i64,
    boundary_inclusive: bool,
    last_write_wins: bool,
) -> (r: OrderedSet<Tuple>)
    ensures
        r.wf(),
        r.deep_view() == rows_as_of(ws@, at, boundary_inclusive, last_write_wins),
{
    let mut best: Vec<usize> = Vec::new();
    let mut i: usize = 0;
    while i < ws.len()
        invariant
            i <= ws@.len(),
            best_so_far(best@, ws@, i as int, at, boundary_inclusive, last_write_wins),
        decreases ws.len() - i,
    {
        let counts = if boundary_inclusive {
            ws[i].ts <= at
        } else {
            ws[i].ts < at
        };
        if counts {
            place_candidate(&mut best, ws, i, at, boundary_inclusive, last_write_wins);
        } else {
            proof {
                lemma_best_skips(best@, ws@, i as int, at, boundary_inclusive, last_write_wins);
            }
        }
        i = i + 1;
    }
    proof {
        assert(ws@.take(i as int) =~= ws@);
    }
    collect_asserted(&best, ws, at, boundary_inclusive, last_write_wins)
}

proof fn lemma_best_skips(
    best: Seq<usize>,
    ws: Seq<Write>,
    m: int,
    at: i64,
    inclusive: bool,
    last_wins: bool,
)
    requires
        0 <= m < ws.len(),
        best_so_far(best, ws, m, at, inclusive, last_wins),
        !in_window(ws[m], at, inclusive),
    ensures
        best_so_far(best, ws, m + 1, at, inclusive, last_wins),
{
    assert forall|b: int| 0 <= b < best.len() implies chosen(
        ws.take(m + 1),
        (#[trigger] best[b]) as int,
        at,
        inclusive,
        last_wins,
    ) by {
        let i = best[b] as int;
        assert(chosen(ws.take(m), i, at, inclusive, last_wins));
        assert(ws.take(m + 1)[i] == ws.take(m)[i]);
        assert forall|j: int|
            0 <= j < m + 1 && j != i && (#[trigger] ws.take(m + 1)[j]).key@ == ws.take(
                m + 1,
            )[i].key@ && in_window(ws.take(m + 1)[j], at, inclusive) implies outranks(
            ws.take(m + 1),
            i,
            j,
            last_wins,
        ) by {
            assert(ws.take(m)[j] == ws.take(m + 1)[j]);
        }
    }
}

/// Compare a write with the best one of its key.
fn place_candidate(
    best: &mut Vec<usize>,
    ws: &Vec<Write>,
    i: usize,
    at: i64,
    inclusive: bool,
    last_wins: bool,
)
    requires
        i < ws@.len(),
        best_so_far(old(best)@, ws@, i as int, at, inclusive, last_wins),
        in_window(ws@[i as int], at, inclusive),
    ensures
        best_so_far(final(best)@, ws@, i + 1, at, inclusive, last_wins),
{
    let ghost was = best@;
    let mut b: usize = 0;
    while b < best.len()
        invariant
            b <= best@.len(),
            best@ == was,
            i < ws@.len(),
            best_so_far(was, ws@, i as int, at, inclusive, last_wins),
            in_window(ws@[i as int], at, inclusive),
            was == old(best)@,
            forall|c: int|
                0 <= c < b ==> ws@[(#[trigger] best@[c]) as int].key@ != ws@[i as int].key@,
        decreases best.len() - b,
    {
        let cur: usize = best[b];
        proof {
            assert(chosen(ws@.take(i as int), was[b as int] as int, at, inclusive, last_wins));
        }
        if same_key(&ws[cur].key, &ws[i].key) {
            let better = if ws[i].ts != ws[cur].ts {
                ws[i].ts > ws[cur].ts
            } else {
                last_wins
            };
            if better {
                best.set(b, i);
            }
            proof {
                lemma_best_meets(
                    was,
                    best@,
                    ws@,
                    i as int,
                    b as int,
                    better,
                    at,
                    inclusive,
                    last_wins,
                );
            }
            return ;
        }
        b = b + 1;
    }
    best.push(i);
    proof {
        lemma_best_grows(was, ws@, i, at, inclusive, last_wins);
    }
}

proof fn lemma_best_meets(
    was: Seq<usize>,
    now: Seq<usize>,
    ws: Seq<Write>,
    i: int,
    b: int,
    better: bool,
    at: i64,
    inclusive: bool,
    last_wins: bool,
)
    requires
        0 <= i < ws.len(),
        i <= usize::MAX,
        best_so_far(was, ws, i, at, inclusive, last_wins),
        in_window(ws[i], at, inclusive),
        0 <= b < was.len(),
        ws[was[b] as int].key@ == ws[i].key@,
        better == outranks(ws, i, was[b] as int, last_wins),
        now == if better {
            was.update(b, i as usize)
        } else {
            was
        },
    ensures
        best_so_far(now, ws, i + 1, at, inclusive, last_wins),
{
    let less = ws.take(i);
    let more = ws.take(i + 1);
    let cur = was[b] as int;
    assert(chosen(less, cur, at, inclusive, last_wins));
    assert forall|c: int| 0 <= c < now.len() implies chosen(
        more,
        (#[trigger] now[c]) as int,
        at,
        inclusive,
        last_wins,
    ) by {
        if c == b && better {
            assert forall|j: int|
                0 <= j < more.len() && j != i && (#[trigger] more[j]).key@ == more[i].key@
                    && in_window(more[j], at, inclusive) implies outranks(more, i, j, last_wins) by {
                assert(less[j] == more[j]);
                if j != cur {
                    assert(outranks(less, cur, j, last_wins));
                }
            }
        } else {
            let x = now[c] as int;
            assert(now[c] == was[c]);
            assert(chosen(less, was[c] as int, at, inclusive, last_wins));
            if c != b {
                if c < b {
                    assert(ws[was[c] as int].key@ != ws[was[b] as int].key@);
                } else {
                    assert(ws[was[b] as int].key@ != ws[was[c] as int].key@);
                }
            }
            assert forall|j: int|
                0 <= j < more.len() && j != x && (#[trigger] more[j]).key@ == more[x].key@
                    && in_window(more[j], at, inclusive) implies outranks(more, x, j, last_wins) by {
                if j < i {
                    assert(less[j] == more[j]);
                    assert(outranks(less, x, j, last_wins));
                }
            }
        }
    }
    assert forall|k: int| 0 <= k < i + 1 && in_window(#[trigger] ws[k], at, inclusive) implies exists|
        c: int,
    |
        0 <= c < now.len() && ws[(#[trigger] now[c]) as int].key@ == ws[k].key@ by {
        if k == i {
            assert(ws[now[b] as int].key@ == ws[k].key@);
        } else {
            let c = choose|c: int|
                0 <= c < was.len() && ws[(#[trigger] was[c]) as int].key@ == ws[k].key@;
            assert(ws[now[c] as int].key@ == ws[k].key@);
        }
    }
    assert forall|c: int, d: int| 0 <= c < d < now.len() implies ws[(
    #[trigger] now[c]) as int].key@ != ws[(#[trigger] now[d]) as int].key@ by {
        assert(ws[was[c] as int].key@ != ws[was[d] as int].key@);
    }
}

proof fn lemma_best_grows(
    was: Seq<usize>,
    ws: Seq<Write>,
    i: usize,
    at: i64,
    inclusive: bool,
    last_wins: bool,
)
    requires
        i < ws.len(),
        best_so_far(was, ws, i as int, at, inclusive, last_wins),
        in_window(ws[i as int], at, inclusive),
        forall|c: int| 0 <= c < was.len() ==> ws[(#[trigger] was[c]) as int].key@ != ws[i as int].key@,
    ensures
        best_so_far(was.push(i), ws, i + 1, at, inclusive, last_wins),
{
    let now = was.push(i);
    let less = ws.take(i as int);
    let more = ws.take(i + 1);
    assert forall|c: int| 0 <= c < now.len() implies chosen(
        more,
        (#[trigger] now[c]) as int,
        at,
        inclusive,
        last_wins,
    ) by {
        let x = now[c] as int;
        if c < was.len() {
            assert(now[c] == was[c]);
            assert(chosen(less, was[c] as int, at, inclusive, last_wins));
            assert(ws[was[c] as int].key@ != ws[i as int].key@);
        }
        assert forall|j: int|
            0 <= j < more.len() && j != x && (#[trigger] more[j]).key@ == more[x].key@ && in_window(
                more[j],
                at,
                inclusive,
            ) implies outranks(more, x, j, last_wins) by {
            if j < i {
                assert(less[j] == more[j]);
                if x == i {
                    assert(in_window(ws[j], at, inclusive));
                    let d = choose|d: int|
                        0 <= d < was.len() && ws[(#[trigger] was[d]) as int].key@ == ws[j].key@;
                    assert(ws[was[d] as int].key@ != ws[i as int].key@);
                } else {
                    assert(outranks(less, x, j, last_wins));
                }
            }
        }
    }
    assert forall|k: int| 0 <= k < i + 1 && in_window(#[trigger] ws[k], at, inclusive) implies exists|
        c: int,
    |
        0 <= c < now.len() && ws[(#[trigger] now[c]) as int].key@ == ws[k].key@ by {
        if k == i {
            assert(now[was.len() as int] == i);
        } else {
            let c = choose|c: int|
                0 <= c < was.len() && ws[(#[trigger] was[c]) as int].key@ == ws[k].key@;
            assert(now[c] == was[c]);
        }
    }
    assert forall|c: int, d: int| 0 <= c < d < now.len() implies ws[(
    #[trigger] now[c]) as int].key@ != ws[(#[trigger] now[d]) as int].key@ by {
        assert(now[c] == was[c]);
        if d < was.len() {
            assert(now[d] == was[d]);
        }
    }
}

/// The rows of the chosen writes that assert.
fn collect_asserted(
    best: &Vec<usize>,
    ws: &Vec<Write>,
    at: i64,
    inclusive: bool,
    last_wins: bool,
) -> (r: OrderedSet<Tuple>)
    requires
        best_so_far(best@, ws@, ws@.len() as int, at, inclusive, last_wins),
    ensures
        r.wf(),
        r.deep_view() == rows_as_of(ws@, at, inclusive, last_wins),
{
    let mut out: OrderedSet<Tuple> = OrderedSet::new();
    let mut b: usize = 0;
    proof {
        assert(ws@.take(ws@.len() as int) =~= ws@);
    }
    while b < best.len()
        invariant
            b <= best@.len(),
            out.wf(),
            ws@.take(ws@.len() as int) == ws@,
            best_so_far(best@, ws@, ws@.len() as int, at, inclusive, last_wins),
            forall|row: Row| #[trigger]
                out.deep_view().contains(row) == exists|c: int|
                    0 <= c < b && ws@[(#[trigger] best@[c]) as int].asserted && row == written_row(
                        ws@[best@[c] as int],
                    ),
        decreases best.len() - b,
    {
        let i: usize = best[b];
        let ghost before = out.deep_view();
        proof {
            assert(chosen(ws@.take(ws@.len() as int), best@[b as int] as int, at, inclusive, last_wins));
        }
        if ws[i].asserted {
            let key = key_tuple(&ws[i].key);
            let row = crate::history::joined(&key, &ws[i].vals);
            let ghost m = row.deep_view();
            out.insert(row);
            proof {
                assert(m == written_row(ws@[i as int]));
                assert forall|row: Row| #[trigger] out.deep_view().contains(row) == exists|c: int|
                    0 <= c < b + 1 && ws@[(#[trigger] best@[c]) as int].asserted && row
                        == written_row(ws@[best@[c] as int]) by {
                    if before.contains(row) {
                        let c = choose|c: int|
                            0 <= c < b && ws@[(#[trigger] best@[c]) as int].asserted && row
                                == written_row(ws@[best@[c] as int]);
                    }
                    if row == m {
                        assert(best@[b as int] == i);
                    }
                }
            }
        }
        b = b + 1;
    }
    proof {
        let want = rows_as_of(ws@, at, inclusive, last_wins);
        assert forall|row: Row| out.deep_view().contains(row) == want.contains(row) by {
            if out.deep_view().contains(row) {
                let c = choose|c: int|
                    0 <= c < best@.len() && ws@[(#[trigger] best@[c]) as int].asserted && row
                        == written_row(ws@[best@[c] as int]);
                assert(chosen(
                    ws@.take(ws@.len() as int),
                    best@[c] as int,
                    at,
                    inclusive,
                    last_wins,
                ));
            }
            if want.contains(row) {
                let i = choose|i: int| #[trigger]
                    chosen(ws@, i, at, inclusive, last_wins) && ws@[i].asserted && row
                        == written_row(ws@[i]);
                let c = choose|c: int|
                    0 <= c < best@.len() && ws@[(#[trigger] best@[c]) as int].key@ == ws@[i].key@;
                assert(chosen(
                    ws@.take(ws@.len() as int),
                    best@[c] as int,
                    at,
                    inclusive,
                    last_wins,
                ));
                if best@[c] != i {
                    assert(outranks(ws@, i, best@[c] as int, last_wins));
                    assert(outranks(ws@, best@[c] as int, i, last_wins));
                }
            }
        }
        assert(out.deep_view() =~= want);
    }
    out
}

} // verus!
