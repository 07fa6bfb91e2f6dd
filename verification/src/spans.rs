//! Interval derivation: the maximal runs of valid time over which a fact
//! holds with one and the same row, at a fixed system snapshot.

use vstd::prelude::*;
use crate::batch::{Batch, BATCH_ROWS};
use crate::history::{
    collect_group, group_at, group_end, held, lemma_resolve_between, lemma_run_end, resolve_at,
    CorruptKey, FactModel, RawVersion, StoredModel, StoredRow, Version,
};
use crate::order::{strictly_sorted, OrderedSet};
use crate::value::{same_row, DataValue, Interval, Row, Tuple, Val};

verus! {

/// A derived interval would be empty: a run starts at the last instant.
#[derive(Clone, Copy, Debug, PartialEq, Eq, Structural)]
pub struct InvalidInterval {
    pub start: i64,
    pub end: i64,
}

impl Interval {
    /// The span from `start` up to, not including, `end`.
    pub fn new(start: i64, end: i64) -> (r: Result<Interval, InvalidInterval>)
        ensures
            r == (if start < end {
                Ok(Interval { start, end })
            } else {
                Err(InvalidInterval { start, end })
            }),
    {
        if start < end {
            Ok(Interval { start, end })
        } else {
            Err(InvalidInterval { start, end })
        }
    }
}

/// The interval column of a derived row.
pub open spec fn span_of(row: Row) -> Interval {
    row.last()->Interval_0
}

/// A derived row without its interval column.
pub open spec fn run_row(row: Row) -> Row {
    row.drop_last()
}

/// A row that ends in a non-empty interval.
pub open spec fn is_span_row(row: Row) -> bool {
    &&& row.len() > 0
    &&& row.last() is Interval
    &&& span_of(row).start < span_of(row).end
}

/// Whether an instant lies in the interval of a derived row.
pub open spec fn covers(row: Row, t: int) -> bool {
    span_of(row).start <= t < span_of(row).end
}

/// `rows` are the maximal runs of the fact with versions `g` and key `key`:
/// non-empty intervals in increasing order; over each the fact holds with
/// exactly that row; together they cover every instant, short of the last one,
/// at which it holds; and two that touch hold different rows.
pub open spec fn is_derivation(rows: Seq<Row>, g: Seq<Version>, key: Row, sys: int) -> bool {
    &&& forall|i: int| 0 <= i < rows.len() ==> is_span_row(#[trigger] rows[i])
    &&& forall|i: int, j: int|
        0 <= i < j < rows.len() ==> span_of(#[trigger] rows[i]).end <= span_of(
            #[trigger] rows[j],
        ).start
    &&& forall|i: int, t: int|
        0 <= i < rows.len() && #[trigger] covers(rows[i], t) ==> held(g, key, t, sys) == Some(
            run_row(rows[i]),
        )
    &&& forall|t: int|
        t < i64::MAX && (#[trigger] held(g, key, t, sys)) is Some ==> exists|i: int|
            0 <= i < rows.len() && #[trigger] covers(rows[i], t)
    &&& forall|i: int, j: int|
        0 <= i < rows.len() && 0 <= j < rows.len() && span_of(#[trigger] rows[i]).end == span_of(
            #[trigger] rows[j],
        ).start ==> run_row(rows[i]) != run_row(rows[j])
}

/// A run would start at the last instant, and its interval be empty: the fact
/// holds there, and not with the row of the instant before.
pub open spec fn run_at_end(g: Seq<Version>, key: Row, sys: int) -> bool {
    &&& held(g, key, i64::MAX as int, sys) is Some
    &&& held(g, key, i64::MAX - 1, sys) != held(g, key, i64::MAX as int, sys)
}

/// Increasing instants, among them every one at which a fact has a version.
pub open spec fn is_breaks(breaks: Seq<i64>, g: Seq<Version>) -> bool {
    &&& strictly_sorted::<i64>(breaks)
    &&& forall|j: int| 0 <= j < g.len() ==> breaks.contains((#[trigger] g[j]).valid)
}

/// Where the stretch that starts at break `i` ends.
pub open spec fn bound(breaks: Seq<i64>, i: int) -> int {
    if i < breaks.len() {
        breaks[i] as int
    } else {
        i64::MAX as int
    }
}

/// Between a break and the next nothing changes.
proof fn lemma_stretch(g: Seq<Version>, key: Row, sys: int, breaks: Seq<i64>, i: int, t: int)
    requires
        is_breaks(breaks, g),
        0 <= i < breaks.len(),
        breaks[i] <= t,
        i + 1 < breaks.len() ==> t < breaks[i + 1],
    ensures
        held(g, key, t, sys) == held(g, key, breaks[i] as int, sys),
{
    assert forall|j: int| 0 <= j < g.len() implies !(breaks[i] < (#[trigger] g[j]).valid
        <= t) by {
        assert(breaks.contains(g[j].valid));
        let k = choose|k: int| 0 <= k < breaks.len() && breaks[k] == g[j].valid;
        if k > i + 1 {
            assert(breaks[i + 1] < breaks[k]);
        }
        if k < i {
            assert(breaks[k] < breaks[i]);
        }
    }
    lemma_resolve_between(g, breaks[i] as int, t, sys);
}

/// Before the first break the fact does not hold.
proof fn lemma_before_breaks(g: Seq<Version>, key: Row, sys: int, breaks: Seq<i64>, t: int)
    requires
        is_breaks(breaks, g),
        t < bound(breaks, 0),
    ensures
        held(g, key, t, sys) is None,
{
    if exists|k: int| crate::history::decides(g, k, t, sys) {
        let k = choose|k: int| crate::history::decides(g, k, t, sys);
        assert(breaks.contains(g[k].valid));
        let b = choose|b: int| 0 <= b < breaks.len() && breaks[b] == g[k].valid;
        if b > 0 {
            assert(breaks[0] < breaks[b]);
        }
    }
}

/// The distinct valid instants of a fact's versions, in increasing order.
fn breaks_of(group: &Vec<RawVersion>) -> (r: Vec<i64>)
    ensures
        is_breaks(r@, group.deep_view()),
{
    let mut set: OrderedSet<i64> = OrderedSet::new();
    let ghost g = group.deep_view();
    let mut n: usize = 0;
    while n < group.len()
        invariant
            n <= group.len(),
            g == group.deep_view(),
            set.wf(),
            forall|j: int| 0 <= j < n ==> set.deep_view().contains((#[trigger] g[j]).valid),
        decreases group.len() - n,
    {
        let v: i64 = group[n].valid;
        set.insert(v);
        proof {
            assert(g[n as int].valid == v);
        }
        n = n + 1;
    }
    let ghost members = set.deep_view();
    let r = set.items;
    proof {
        assert(r.deep_view() =~= r@);
        assert(members == r@.to_set());
        assert forall|j: int| 0 <= j < g.len() implies r@.contains((#[trigger] g[j]).valid) by {
            assert(members.contains(g[j].valid));
        }
        assert(strictly_sorted::<i64>(r@));
    }
    r
}

/// What the sweep has established once every break before `i` is behind it.
spec fn swept(
    rows: Seq<Row>,
    g: Seq<Version>,
    key: Row,
    sys: int,
    breaks: Seq<i64>,
    i: int,
) -> bool {
    &&& forall|k: int| 0 <= k < rows.len() ==> is_span_row(#[trigger] rows[k])
    &&& forall|k: int|
        0 <= k < rows.len() ==> span_of(#[trigger] rows[k]).end <= bound(breaks, i)
    &&& forall|k: int, j: int|
        0 <= k < j < rows.len() ==> span_of(#[trigger] rows[k]).end <= span_of(
            #[trigger] rows[j],
        ).start
    &&& forall|k: int, t: int|
        0 <= k < rows.len() && #[trigger] covers(rows[k], t) ==> held(g, key, t, sys) == Some(
            run_row(rows[k]),
        )
    &&& forall|t: int|
        t < bound(breaks, i) && (#[trigger] held(g, key, t, sys)) is Some ==> exists|k: int|
            0 <= k < rows.len() && #[trigger] covers(rows[k], t)
    &&& forall|k: int, j: int|
        0 <= k < rows.len() && 0 <= j < rows.len() && span_of(#[trigger] rows[k]).end == span_of(
            #[trigger] rows[j],
        ).start ==> run_row(rows[k]) != run_row(rows[j])
    &&& forall|k: int|
        0 <= k < rows.len() && i < breaks.len() && span_of(#[trigger] rows[k]).end == breaks[i]
            ==> Some(run_row(rows[k])) != held(g, key, breaks[i] as int, sys)
    &&& forall|k: int|
        0 <= k < i && k < breaks.len() && #[trigger] breaks[k] == i64::MAX ==> !run_at_end(
            g,
            key,
            sys,
        )
}

/// Passing over a break at which the fact does not hold.
proof fn lemma_skip_break(
    rows: Seq<Row>,
    g: Seq<Version>,
    key: Row,
    sys: int,
    breaks: Seq<i64>,
    i: int,
)
    requires
        is_breaks(breaks, g),
        0 <= i < breaks.len(),
        swept(rows, g, key, sys, breaks, i),
        held(g, key, breaks[i] as int, sys) is None,
    ensures
        swept(rows, g, key, sys, breaks, i + 1),
{
    assert(bound(breaks, i) <= bound(breaks, i + 1));
    assert forall|t: int|
        t < bound(breaks, i + 1) && (#[trigger] held(g, key, t, sys)) is Some implies exists|k: int|
        0 <= k < rows.len() && #[trigger] covers(rows[k], t) by {
        if t >= breaks[i] {
            lemma_stretch(g, key, sys, breaks, i, t);
        }
    }
    if i + 1 < breaks.len() {
        assert(breaks[i] < breaks[i + 1]);
    }
}

/// Closing the run that starts at break `i` and reaches through break `j`.
proof fn lemma_close_run(
    rows: Seq<Row>,
    g: Seq<Version>,
    key: Row,
    sys: int,
    breaks: Seq<i64>,
    i: int,
    j: int,
    row: Row,
)
    requires
        is_breaks(breaks, g),
        0 <= i <= j < breaks.len(),
        swept(rows, g, key, sys, breaks, i),
        is_span_row(row),
        span_of(row).start == breaks[i],
        span_of(row).end == bound(breaks, j + 1),
        forall|k: int|
            i <= k <= j ==> held(g, key, (#[trigger] breaks[k]) as int, sys) == Some(run_row(row)),
        j + 1 < breaks.len() ==> held(g, key, breaks[j + 1] as int, sys) != Some(run_row(row)),
    ensures
        swept(rows.push(row), g, key, sys, breaks, j + 1),
{
    let out = rows.push(row);
    let tuple = run_row(row);
    assert forall|t: int| breaks[i] <= t < bound(breaks, j + 1) implies #[trigger] held(
        g,
        key,
        t,
        sys,
    ) == Some(tuple) by {
        lemma_stretch_within(g, key, sys, breaks, i, j, t, tuple);
    }
    assert forall|k: int, t: int| 0 <= k < out.len() && #[trigger] covers(out[k], t) implies held(
        g,
        key,
        t,
        sys,
    ) == Some(run_row(out[k])) by {
        if k < rows.len() {
            assert(covers(rows[k], t));
        }
    }
    assert forall|t: int|
        t < bound(breaks, j + 1) && (#[trigger] held(g, key, t, sys)) is Some implies exists|k: int|
        0 <= k < out.len() && #[trigger] covers(out[k], t) by {
        if t < breaks[i] {
            let k = choose|k: int| 0 <= k < rows.len() && #[trigger] covers(rows[k], t);
            assert(covers(out[k], t));
        } else {
            assert(covers(out[rows.len() as int], t));
        }
    }
    assert(breaks[i] < bound(breaks, j + 1));
    assert forall|k: int| 0 <= k < out.len() implies span_of(#[trigger] out[k]).end <= bound(
        breaks,
        j + 1,
    ) by {
        if k < rows.len() {
            assert(span_of(rows[k]).end <= bound(breaks, i));
        }
    }
    assert forall|k: int, m: int|
        0 <= k < out.len() && 0 <= m < out.len() && span_of(#[trigger] out[k]).end == span_of(
            #[trigger] out[m],
        ).start implies run_row(out[k]) != run_row(out[m]) by {
        if k < rows.len() && m < rows.len() {
            assert(out[k] == rows[k] && out[m] == rows[m]);
        } else if k < rows.len() {
            assert(out[k] == rows[k]);
        } else if m < rows.len() {
            assert(out[m] == rows[m]);
            assert(is_span_row(rows[m]));
            assert(span_of(rows[m]).end <= bound(breaks, i));
        }
    }
    assert forall|k: int|
        0 <= k < out.len() && j + 1 < breaks.len() && span_of(#[trigger] out[k]).end == breaks[j
            + 1] implies Some(run_row(out[k])) != held(g, key, breaks[j + 1] as int, sys) by {
        if k < rows.len() {
            assert(span_of(rows[k]).end <= bound(breaks, i));
            assert(breaks[i] < breaks[j + 1]);
        }
    }
    assert forall|k: int|
        0 <= k < j + 1 && k < breaks.len() && #[trigger] breaks[k] == i64::MAX implies !run_at_end(
        g,
        key,
        sys,
    ) by {
        if k >= i {
            if k == i {
                assert(span_of(row).start == i64::MAX);
            } else {
                assert(breaks[i] < breaks[k]);
                lemma_stretch_within(g, key, sys, breaks, i, j, i64::MAX - 1, tuple);
            }
        }
    }
}

/// A run that reaches from break `i` through break `j` holds one row throughout.
proof fn lemma_stretch_within(
    g: Seq<Version>,
    key: Row,
    sys: int,
    breaks: Seq<i64>,
    i: int,
    j: int,
    t: int,
    tuple: Row,
)
    requires
        is_breaks(breaks, g),
        0 <= i <= j < breaks.len(),
        breaks[i] <= t,
        t < bound(breaks, j + 1),
        forall|k: int|
            i <= k <= j ==> held(g, key, (#[trigger] breaks[k]) as int, sys) == Some(tuple),
    ensures
        held(g, key, t, sys) == Some(tuple),
    decreases j - i,
{
    if i == j || t < breaks[i + 1] {
        lemma_stretch(g, key, sys, breaks, i, t);
    } else {
        lemma_stretch_within(g, key, sys, breaks, i + 1, j, t, tuple);
    }
}

/// Sweep one fact's versions into its maximal runs: one row per run, the
/// fact's row followed by the interval it holds over.
pub fn derive_group(group: &Vec<RawVersion>, key: &Tuple, fixed_sys: i64) -> (r: Result<
    Vec<Tuple>,
    InvalidInterval,
>)
    ensures
        match r {
            Ok(rows) => {
                &&& is_derivation(
                    rows.deep_view(),
                    group.deep_view(),
                    key.deep_view(),
                    fixed_sys as int,
                )
                &&& !run_at_end(group.deep_view(), key.deep_view(), fixed_sys as int)
            },
            Err(e) => {
                &&& run_at_end(group.deep_view(), key.deep_view(), fixed_sys as int)
                &&& e == (InvalidInterval { start: i64::MAX, end: i64::MAX })
            },
        },
{
    let ghost g = group.deep_view();
    let ghost k0 = key.deep_view();
    let ghost sys = fixed_sys as int;
    let breaks = breaks_of(group);
    let mut out: Vec<Tuple> = Vec::new();
    let mut i: usize = 0;
    proof {
        assert forall|t: int|
            t < bound(breaks@, 0) && (#[trigger] held(g, k0, t, sys)) is Some implies exists|k: int|
            0 <= k < out.deep_view().len() && #[trigger] covers(out.deep_view()[k], t) by {
            lemma_before_breaks(g, k0, sys, breaks@, t);
        }
    }
    while i < breaks.len()
        invariant
            i <= breaks.len(),
            g == group.deep_view(),
            k0 == key.deep_view(),
            sys == fixed_sys as int,
            is_breaks(breaks@, g),
            swept(out.deep_view(), g, k0, sys, breaks@, i as int),
        decreases breaks.len() - i,
    {
        let start: i64 = breaks[i];
        let tuple = match resolve_at(group, key, start, fixed_sys) {
            Some(t) => t,
            None => {
                proof {
                    lemma_skip_break(out.deep_view(), g, k0, sys, breaks@, i as int);
                }
                i = i + 1;
                continue;
            },
        };
        let ghost run = tuple.deep_view();
        let mut j: usize = i;
        let mut extend = true;
        while extend && j + 1 < breaks.len()
            invariant
                i <= j < breaks.len(),
                g == group.deep_view(),
                k0 == key.deep_view(),
                sys == fixed_sys as int,
                run == tuple.deep_view(),
                forall|k: int|
                    i <= k <= j ==> held(g, k0, (#[trigger] breaks@[k]) as int, sys) == Some(run),
                !extend ==> j + 1 < breaks.len() && held(g, k0, breaks@[j + 1] as int, sys)
                    != Some(run),
            decreases breaks.len() - j, (if extend { 1int } else { 0int }),
        {
            match resolve_at(group, key, breaks[j + 1], fixed_sys) {
                Some(next) => if same_row(&next, &tuple) {
                    j = j + 1;
                } else {
                    extend = false;
                },
                None => {
                    extend = false;
                },
            }
        }
        let end: i64 = if j + 1 < breaks.len() {
            breaks[j + 1]
        } else {
            i64::MAX
        };
        match Interval::new(start, end) {
            Ok(iv) => {
                let ghost rows = out.deep_view();
                let mut row = tuple;
                row.push(DataValue::Interval(iv));
                proof {
                    assert(row.deep_view() =~= run.push(Val::Interval(iv)));
                    assert(run_row(row.deep_view()) =~= run);
                    lemma_close_run(
                        rows,
                        g,
                        k0,
                        sys,
                        breaks@,
                        i as int,
                        j as int,
                        row.deep_view(),
                    );
                }
                let ghost model = row.deep_view();
                out.push(row);
                assert(out.deep_view() =~= rows.push(model));
                i = j + 1;
            },
            Err(e) => {
                proof {
                    if i < j {
                        assert(breaks@[i as int] < breaks@[j as int]);
                    }
                    if j + 1 < breaks.len() {
                        assert(breaks@[i as int] < breaks@[j + 1]);
                    }
                    assert(start == i64::MAX);
                    if held(g, k0, i64::MAX - 1, sys) == Some(run) {
                        let rows = out.deep_view();
                        let c = choose|c: int|
                            0 <= c < rows.len() && #[trigger] covers(rows[c], i64::MAX - 1);
                        assert(span_of(rows[c]).end <= bound(breaks@, i as int));
                        assert(span_of(rows[c]).end == breaks@[i as int]);
                    }
                }
                return Err(e);
            },
        }
    }
    proof {
        if run_at_end(g, k0, sys) {
            if exists|j: int| 0 <= j < g.len() && (#[trigger] g[j]).valid == i64::MAX {
                let j = choose|j: int| 0 <= j < g.len() && (#[trigger] g[j]).valid == i64::MAX;
                assert(breaks@.contains(g[j].valid));
                let b = choose|b: int| 0 <= b < breaks@.len() && breaks@[b] == g[j].valid;
                assert(breaks@[b] == i64::MAX);
            } else {
                lemma_resolve_between(g, i64::MAX - 1, i64::MAX as int, sys);
            }
        }
    }
    Ok(out)
}

/// A fact has only one sequence of maximal runs.
pub proof fn law_derivation_unique(a: Seq<Row>, b: Seq<Row>, g: Seq<Version>, key: Row, sys: int)
    requires
        is_derivation(a, g, key, sys),
        is_derivation(b, g, key, sys),
    ensures
        a == b,
{
    lemma_derivations_agree(a, b, g, key, sys, a.len() as int);
    lemma_derivations_agree(b, a, g, key, sys, b.len() as int);
    assert(a =~= b);
}

/// The runs of a fact and its reads agree: at an instant before the last the
/// fact holds just where one run covers the instant, no more than one does, and
/// the fact's row there is the row of that run.
pub proof fn law_runs_are_the_reads(rows: Seq<Row>, g: Seq<Version>, key: Row, sys: int, t: int)
    requires
        is_derivation(rows, g, key, sys),
        t < i64::MAX,
    ensures
        held(g, key, t, sys) is Some == exists|i: int|
            0 <= i < rows.len() && #[trigger] covers(rows[i], t),
        forall|i: int|
            0 <= i < rows.len() && #[trigger] covers(rows[i], t) ==> held(g, key, t, sys) == Some(
                run_row(rows[i]),
            ),
        forall|i: int, j: int|
            0 <= i < rows.len() && 0 <= j < rows.len() && #[trigger] covers(rows[i], t)
                && #[trigger] covers(rows[j], t) ==> i == j,
{
    assert forall|i: int, j: int|
        0 <= i < rows.len() && 0 <= j < rows.len() && #[trigger] covers(rows[i], t)
            && #[trigger] covers(rows[j], t) implies i == j by {
        if i < j {
            assert(span_of(rows[i]).end <= span_of(rows[j]).start);
        }
        if j < i {
            assert(span_of(rows[j]).end <= span_of(rows[i]).start);
        }
    }
    if held(g, key, t, sys) is Some {
        let i = choose|i: int| 0 <= i < rows.len() && #[trigger] covers(rows[i], t);
        assert(covers(rows[i], t));
    }
}

/// Every run of the first derivation among the first `n` stands at the same
/// position in the second.
proof fn lemma_derivations_agree(
    a: Seq<Row>,
    b: Seq<Row>,
    g: Seq<Version>,
    key: Row,
    sys: int,
    n: int,
)
    requires
        is_derivation(a, g, key, sys),
        is_derivation(b, g, key, sys),
        0 <= n <= a.len(),
    ensures
        n <= b.len(),
        forall|i: int| 0 <= i < n ==> a[i] == b[i],
    decreases n,
{
    if n > 0 {
        let i = n - 1;
        lemma_derivations_agree(a, b, g, key, sys, i);
        let s = span_of(a[i]).start as int;
        assert(is_span_row(a[i]));
        assert(covers(a[i], s));
        let m = choose|m: int| 0 <= m < b.len() && #[trigger] covers(b[m], s);
        if m < i {
            assert(b[m] == a[m]);
            assert(span_of(a[m]).end <= span_of(a[i]).start);
        }
        assert(i < b.len());
        assert(is_span_row(b[i]));
        let t = span_of(b[i]).start as int;
        assert(covers(b[i], t));
        let p = choose|p: int| 0 <= p < a.len() && #[trigger] covers(a[p], t);
        if p < i {
            assert(a[p] == b[p]);
            assert(span_of(b[p]).end <= span_of(b[i]).start);
        }
        if i < m {
            assert(is_span_row(b[m]));
            assert(span_of(b[i]).end <= span_of(b[m]).start);
        }
        if i < p {
            assert(is_span_row(a[p]));
            assert(span_of(a[i]).end <= span_of(a[p]).start);
        }
        assert(s == t);
        assert(run_row(a[i]) == run_row(b[i]));
        let x = span_of(a[i]).end as int;
        let y = span_of(b[i]).end as int;
        if x < y {
            assert(covers(b[i], x));
            let q = choose|q: int| 0 <= q < a.len() && #[trigger] covers(a[q], x);
            assert(is_span_row(a[q]));
            if q < i {
                assert(span_of(a[q]).end <= span_of(a[i]).start);
            }
            if q > i {
                assert(span_of(a[i]).end <= span_of(a[q]).start);
            }
            assert(span_of(a[i]).end == span_of(a[q]).start);
        }
        if y < x {
            assert(covers(a[i], y));
            let q = choose|q: int| 0 <= q < b.len() && #[trigger] covers(b[q], y);
            assert(is_span_row(b[q]));
            if q < i {
                assert(span_of(b[q]).end <= span_of(b[i]).start);
            }
            if q > i {
                assert(span_of(b[i]).end <= span_of(b[q]).start);
            }
            assert(span_of(b[i]).end == span_of(b[q]).start);
        }
        assert(a[i].last() == b[i].last());
        assert(a[i] =~= run_row(a[i]).push(a[i].last()));
        assert(b[i] =~= run_row(b[i]).push(b[i].last()));
    }
}

/// The maximal runs of a fact.
pub open spec fn derivation(f: FactModel, sys: int) -> Seq<Row> {
    choose|rows: Seq<Row>| is_derivation(rows, f.versions, f.key, sys)
}

/// Why a scan for derived intervals failed.
#[derive(Clone, Copy, Debug, PartialEq, Eq, Structural)]
pub enum SpansError {
    Corrupt(CorruptKey),
    Interval(InvalidInterval),
}

/// What goes wrong with the group at row `from`, if anything.
pub open spec fn group_fault(rows: Seq<StoredModel>, key_len: int, sys: int, from: int) -> Option<
    SpansError,
> {
    match group_at(rows, key_len, from) {
        Err(e) => Some(SpansError::Corrupt(e)),
        Ok(f) => if run_at_end(f.versions, f.key, sys) {
            Some(SpansError::Interval(InvalidInterval { start: i64::MAX, end: i64::MAX }))
        } else {
            None
        },
    }
}

/// `[from, to)` is made of whole groups, and none of them is at fault.
pub open spec fn sound_groups(
    rows: Seq<StoredModel>,
    key_len: int,
    sys: int,
    from: int,
    to: int,
) -> bool
    decreases to - from,
{
    if from >= to {
        from == to
    } else {
        &&& group_fault(rows, key_len, sys, from) is None
        &&& from < group_end(rows, from) <= to
        &&& sound_groups(rows, key_len, sys, group_end(rows, from), to)
    }
}

/// The derived rows of the groups in `[from, to)`, in order.
pub open spec fn spans_between(
    rows: Seq<StoredModel>,
    key_len: int,
    sys: int,
    from: int,
    to: int,
) -> Seq<Row>
    decreases to - from,
{
    if from >= to || !(from < group_end(rows, from) <= to) {
        Seq::empty()
    } else {
        derivation(group_at(rows, key_len, from)->Ok_0, sys) + spans_between(
            rows,
            key_len,
            sys,
            group_end(rows, from),
            to,
        )
    }
}

/// One more group at the end of a scanned range.
proof fn lemma_groups_extend(
    rows: Seq<StoredModel>,
    key_len: int,
    sys: int,
    from: int,
    to: int,
    rows_added: Seq<Row>,
)
    requires
        0 <= from <= to < rows.len(),
        sound_groups(rows, key_len, sys, from, to),
        group_fault(rows, key_len, sys, to) is None,
        rows_added == derivation(group_at(rows, key_len, to)->Ok_0, sys),
    ensures
        to < group_end(rows, to) <= rows.len(),
        sound_groups(rows, key_len, sys, from, group_end(rows, to)),
        spans_between(rows, key_len, sys, from, group_end(rows, to)) == spans_between(
            rows,
            key_len,
            sys,
            from,
            to,
        ) + rows_added,
    decreases to - from,
{
    lemma_run_end(rows, to + 1, rows[to].key.take(rows[to].key.len() - 2));
    let end = group_end(rows, to);
    if from == to {
        assert(sound_groups(rows, key_len, sys, end, end));
        assert(spans_between(rows, key_len, sys, end, end) =~= Seq::<Row>::empty());
        assert(spans_between(rows, key_len, sys, from, end) =~= rows_added);
    } else {
        let mid = group_end(rows, from);
        lemma_sound_range(rows, key_len, sys, mid, to);
        lemma_groups_extend(rows, key_len, sys, mid, to, rows_added);
        assert(spans_between(rows, key_len, sys, from, end) =~= spans_between(
            rows,
            key_len,
            sys,
            from,
            to,
        ) + rows_added);
    }
}

proof fn lemma_sound_range(rows: Seq<StoredModel>, key_len: int, sys: int, from: int, to: int)
    requires
        sound_groups(rows, key_len, sys, from, to),
    ensures
        from <= to,
    decreases to - from,
{
}

/// A scan of a facts keyspace that derives the intervals of every fact. The
/// rows come in ascending key order, which keeps the versions of one fact
/// together; each fact is swept once its versions are complete, and what does
/// not fit into a batch waits for the next one.
pub struct SpansScan {
    pub rows: Vec<StoredRow>,
    /// The first row of the next group.
    pub at: usize,
    pub key_len: usize,
    pub sys_fixed: i64,
    /// The derived rows of the fact swept last.
    pub pending: Vec<Tuple>,
    /// How many of them were handed out.
    pub given: usize,
    pub done: bool,
}

impl SpansScan {
    pub open spec fn wf(&self) -> bool {
        &&& self.at <= self.rows@.len()
        &&& self.given <= self.pending@.len()
    }

    /// The derived rows that wait for the next batch.
    pub open spec fn waiting(&self) -> Seq<Row> {
        self.pending.deep_view().skip(self.given as int)
    }

    /// The scan of a keyspace at a fixed system snapshot.
    pub fn new(rows: Vec<StoredRow>, key_len: usize, sys_fixed: i64) -> (r: Self)
        ensures
            r.wf(),
            r.rows == rows,
            r.at == 0,
            r.key_len == key_len,
            r.sys_fixed == sys_fixed,
            r.waiting() == Seq::<Row>::empty(),
            !r.done,
    {
        let r = SpansScan {
            rows,
            at: 0,
            key_len,
            sys_fixed,
            pending: Vec::new(),
            given: 0,
            done: false,
        };
        assert(r.waiting() =~= Seq::<Row>::empty());
        r
    }

    /// The next batch of derived rows, full unless it is the last. The batches
    /// hold the derived rows of all facts, in order: what waited, then what the
    /// facts swept now give, as far as it fits. A fault ends the scan.
    pub fn next(&mut self) -> (r: Option<Result<Batch, SpansError>>)
        requires
            old(self).wf(),
        ensures
            final(self).wf(),
            final(self).rows == old(self).rows,
            final(self).key_len == old(self).key_len,
            final(self).sys_fixed == old(self).sys_fixed,
            old(self).done ==> r is None && final(self).at == old(self).at && final(self).done,
            !old(self).done ==> ({
                let rows = old(self).rows.deep_view();
                let n = old(self).key_len as int;
                let sys = old(self).sys_fixed as int;
                let from = old(self).at as int;
                let to = final(self).at as int;
                let all = old(self).waiting() + spans_between(rows, n, sys, from, to);
                &&& sound_groups(rows, n, sys, from, to)
                &&& match r {
                    None => {
                        &&& to == rows.len()
                        &&& final(self).done
                        &&& all.len() == 0
                    },
                    Some(Ok(b)) => {
                        &&& b.wf()
                        &&& 0 < b.deep_view().len() <= BATCH_ROWS
                        &&& b.deep_view() + final(self).waiting() == all
                        &&& final(self).done ==> to == rows.len() && final(self).waiting().len()
                            == 0
                        &&& !final(self).done ==> b.deep_view().len() == BATCH_ROWS
                    },
                    Some(Err(e)) => {
                        &&& final(self).done
                        &&& to < rows.len()
                        &&& all.len() < BATCH_ROWS
                        &&& group_fault(rows, n, sys, to) == Some(e)
                    },
                }
            }),
    {
        if self.done {
            return None;
        }
        let ghost rows = self.rows.deep_view();
        let ghost n = self.key_len as int;
        let ghost sys = self.sys_fixed as int;
        let ghost from = self.at as int;
        let ghost first = self.waiting();
        let mut out = Batch::new();
        proof {
            assert(out.deep_view() + first =~= first + spans_between(rows, n, sys, from, from));
        }
        loop
            invariant_except_break
                !self.done,
                out.deep_view() + self.waiting() == first + spans_between(
                    rows,
                    n,
                    sys,
                    from,
                    self.at as int,
                ),
            invariant
                self.rows == old(self).rows,
                self.key_len == old(self).key_len,
                self.sys_fixed == old(self).sys_fixed,
                self.given <= self.pending@.len(),
                rows == self.rows.deep_view(),
                n == self.key_len as int,
                sys == self.sys_fixed as int,
                from == old(self).at as int,
                first == old(self).waiting(),
                !old(self).done,
                from <= self.at <= self.rows@.len(),
                rows.len() == self.rows@.len(),
                out.wf(),
                out.deep_view().len() <= BATCH_ROWS,
                sound_groups(rows, n, sys, from, self.at as int),
            ensures
                self.done,
                self.at == self.rows@.len(),
                self.waiting() == Seq::<Row>::empty(),
                out.deep_view() == first + spans_between(rows, n, sys, from, self.at as int),
            decreases self.rows@.len() - self.at,
        {
            let ghost reached = self.at;
            let ghost had = out.deep_view();
            let ghost wait = self.waiting();
            while self.given < self.pending.len() && !out.is_full()
                invariant
                    self.rows == old(self).rows,
                    self.key_len == old(self).key_len,
                    self.sys_fixed == old(self).sys_fixed,
                    rows == self.rows.deep_view(),
                    self.at == reached,
                    from <= self.at <= self.rows@.len(),
                    self.given <= self.pending@.len(),
                    !self.done,
                    out.wf(),
                    out.deep_view().len() <= BATCH_ROWS,
                    out.deep_view() + self.waiting() == had + wait,
                    sound_groups(rows, n, sys, from, self.at as int),
                    had + wait == first + spans_between(rows, n, sys, from, self.at as int),
                decreases self.pending@.len() - self.given,
            {
                let ghost before = out.deep_view();
                let ghost rest = self.waiting();
                let row = crate::value::copy_row(&self.pending[self.given]);
                let ghost m = row.deep_view();
                out.push(row);
                self.given = self.given + 1;
                proof {
                    assert(rest[0] == m);
                    assert(self.waiting() =~= rest.skip(1));
                    assert(out.deep_view() + self.waiting() =~= before + rest);
                }
            }
            if out.is_full() {
                return Some(Ok(out));
            }
            proof {
                assert(self.waiting() =~= Seq::<Row>::empty());
                assert(out.deep_view() + self.waiting() =~= out.deep_view());
            }
            if self.at >= self.rows.len() {
                self.done = true;
                break;
            }
            let (fact, end) = match collect_group(&self.rows, self.key_len, self.at) {
                Ok(fe) => fe,
                Err(e) => {
                    self.done = true;
                    return Some(Err(SpansError::Corrupt(e)));
                },
            };
            let derived = match derive_group(&fact.versions, &fact.key, self.sys_fixed) {
                Ok(d) => d,
                Err(e) => {
                    self.done = true;
                    return Some(Err(SpansError::Interval(e)));
                },
            };
            proof {
                let f = fact.deep_view();
                law_derivation_unique(
                    derived.deep_view(),
                    derivation(f, sys),
                    f.versions,
                    f.key,
                    sys,
                );
                lemma_groups_extend(rows, n, sys, from, self.at as int, derived.deep_view());
            }
            let ghost added = derived.deep_view();
            self.pending = derived;
            self.given = 0;
            self.at = end;
            proof {
                assert(self.waiting() =~= added);
                assert(out.deep_view() + self.waiting() =~= first + spans_between(
                    rows,
                    n,
                    sys,
                    from,
                    self.at as int,
                ));
            }
        }
        proof {
            assert(out.deep_view() + self.waiting() =~= out.deep_view());
        }
        if out.is_empty() {
            None
        } else {
            Some(Ok(out))
        }
    }
}

} // verus!
