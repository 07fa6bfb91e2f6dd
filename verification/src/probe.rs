//! Probes: how one left row finds its partners in a scan: by a prefix of the
//! scan's columns, by a bounded range, or by a whole key.

use vstd::prelude::*;
use crate::bounds::{compute_bounds, lower_ends, upper_ends};
use crate::epoch::{in_range, lemma_ordered, ordered, starts_with, EpochStore};
use crate::expr::{eval_row, EvalError, EvalFault, Expr};
use crate::history::joined;
use crate::meaning::{
    keys_match, passes, probe_columns, probe_join, probed, probed_row, sift, within_bounds,
    JoinShape, Stores,
};
use crate::names::{eliminate_from_tuple, names, places_set, without, Name};
use crate::order::strictly_sorted;
use crate::plan::{is_prefix, TempStoreRA};
use crate::resolve::{lemma_placed, placed};
use crate::stream::{
    flow, lemma_every, lemma_flow_ext, lemma_flow_filter, lemma_flow_step, lemma_through_ext, pipe,
    PlanInvariant, QueryError, RowStep, Stream, TupleStream,
};
use crate::temp_store::{pick, project, TempStore, TupleInIter};
use crate::value::{
    lemma_row_irreflexive, row_before, same_value, val_before, DataValue, Row, Tuple, Val,
};

verus! {

/// Every name of the filters has its place in a frame.
pub open spec fn all_at_place(filters: Seq<Expr>, frame: Seq<Name>) -> bool {
    forall|i: int| 0 <= i < filters.len() ==> placed(#[trigger] filters[i], frame)
}

proof fn lemma_passes_ends(filters: Seq<Expr>, frame: Seq<Name>, row: Row, k: int)
    requires
        0 <= k <= filters.len(),
        passes(filters.take(k), frame, row) != Ok::<bool, EvalFault>(true),
    ensures
        passes(filters, frame, row) == passes(filters.take(k), frame, row),
    decreases filters.len() - k,
{
    if k == filters.len() {
        assert(filters.take(k) =~= filters);
    } else {
        assert(filters.take(k + 1).drop_last() =~= filters.take(k));
        lemma_passes_ends(filters, frame, row, k + 1);
    }
}

/// Every row of a stream has the given places.
pub open spec fn reached(s: Stream, places: Seq<usize>) -> bool {
    s.every(|row: Row| in_reach(places, row.len() as int))
}

/// An operator that takes every row with the given places.
pub proof fn lemma_reached(s: Stream, places: Seq<usize>, takes: spec_fn(Row) -> bool)
    requires
        reached(s, places),
        forall|row: Row| in_reach(places, row.len() as int) ==> #[trigger] takes(row),
    ensures
        s.every(takes),
{
    lemma_every(s, |row: Row| in_reach(places, row.len() as int), takes);
}

/// Whether filters hold on a row.
pub(crate) fn keep(filters: &Vec<Expr>, row: &Tuple, Ghost(frame): Ghost<Seq<Name>>) -> (r: Result<
    bool,
    EvalError,
>)
    requires
        all_at_place(filters@, frame),
    ensures
        match r {
            Ok(b) => passes(filters@, frame, row.deep_view()) == Ok::<bool, EvalFault>(b),
            Err(e) => passes(filters@, frame, row.deep_view()) == Err::<bool, EvalFault>(
                e.deep_view(),
            ),
        },
{
    let ghost m = row.deep_view();
    let mut i: usize = 0;
    proof {
        assert(filters@.take(0) =~= Seq::<Expr>::empty());
    }
    while i < filters.len()
        invariant
            i <= filters@.len(),
            m == row.deep_view(),
            all_at_place(filters@, frame),
            passes(filters@.take(i as int), frame, m) == Ok::<bool, EvalFault>(true),
        decreases filters.len() - i,
    {
        proof {
            assert(filters@.take(i + 1).drop_last() =~= filters@.take(i as int));
            assert(filters@.take(i + 1).last() == filters@[i as int]);
            lemma_placed(filters@[i as int], frame, m);
        }
        match eval_row(&filters[i], row) {
            Err(e) => {
                proof {
                    lemma_passes_ends(filters@, frame, m, i + 1);
                }
                return Err(e);
            },
            Ok(v) => match v {
                DataValue::Bool(b) => {
                    if !b {
                        proof {
                            lemma_passes_ends(filters@, frame, m, i + 1);
                        }
                        return Ok(false);
                    }
                },
                _ => {
                    proof {
                        lemma_passes_ends(filters@, frame, m, i + 1);
                    }
                    return Err(EvalError::PredicateType { value: v, span: filters[i].span() });
                },
            },
        }
        i = i + 1;
    }
    proof {
        assert(filters@.take(i as int) =~= filters@);
    }
    Ok(true)
}

/// A row, if filters hold on another one.
pub(crate) fn sift_row(
    filters: &Vec<Expr>,
    row: &Tuple,
    out: Tuple,
    Ghost(frame): Ghost<Seq<Name>>,
) -> (r: TupleStream)
    requires
        all_at_place(filters@, frame),
    ensures
        r.deep_view() == sift(filters@, frame, row.deep_view(), out.deep_view()),
{
    match keep(filters, row, Ghost(frame)) {
        Ok(true) => TupleStream::one(out),
        Ok(false) => TupleStream::nothing(),
        Err(e) => TupleStream::failed(QueryError::Eval(e)),
    }
}

/// Places that are the first ones, in some order, leave none of them out.
pub proof fn lemma_prefix_covers(places: Seq<usize>, c: int)
    requires
        is_prefix(places),
        0 <= c < places.len(),
    ensures
        exists|i: int| 0 <= i < places.len() && #[trigger] places[i] == c,
{
    let ints = Seq::new(places.len(), |i: int| places[i] as int);
    assert(ints.no_duplicates());
    ints.unique_seq_to_set();
    let n = places.len() as int;
    let range = vstd::set_lib::set_int_range(0, n);
    vstd::set_lib::lemma_int_range(0, n);
    assert forall|x: int| ints.to_set().contains(x) implies range.contains(x) by {
        let i = choose|i: int| 0 <= i < ints.len() && ints[i] == x;
        assert(places[i] < places.len());
    }
    vstd::seq_lib::seq_to_set_is_finite(ints);
    vstd::set_lib::lemma_subset_equality(ints.to_set(), range);
    assert(range.contains(c));
    assert(ints.to_set().contains(c));
    let i = choose|i: int| 0 <= i < ints.len() && ints[i] == c;
    assert(places[i] == c);
}

/// Leading places within a row are no more than its columns.
pub proof fn lemma_prefix_fits(places: Seq<usize>, w: int)
    requires
        is_prefix(places),
        in_reach(places, w),
        0 <= w,
    ensures
        places.len() <= w,
{
    if places.len() > 0 {
        lemma_prefix_covers(places, places.len() - 1);
        let i = choose|i: int|
            0 <= i < places.len() && #[trigger] places[i] == places.len() - 1;
        assert(places[i] < w);
    }
}

/// The left places in the order of the right places they are joined to.
pub open spec fn is_probe_order(order: Seq<usize>, lp: Seq<usize>, rp: Seq<usize>) -> bool {
    &&& order.len() == rp.len()
    &&& forall|i: int| 0 <= i < rp.len() ==> order[(#[trigger] rp[i]) as int] == lp[i]
}

/// The left places in the order of the right places they are joined to.
pub fn probe_order(lp: &Vec<usize>, rp: &Vec<usize>) -> (r: Vec<usize>)
    requires
        lp@.len() == rp@.len(),
        is_prefix(rp@),
    ensures
        is_probe_order(r@, lp@, rp@),
{
    let n: usize = rp.len();
    let mut out: Vec<usize> = Vec::new();
    let mut i: usize = 0;
    while i < n
        invariant
            i <= n,
            out@.len() == i,
        decreases n - i,
    {
        out.push(0);
        i = i + 1;
    }
    let mut i: usize = 0;
    while i < n
        invariant
            i <= n,
            n == rp@.len(),
            lp@.len() == rp@.len(),
            is_prefix(rp@),
            out@.len() == n,
            forall|j: int| 0 <= j < i ==> out@[(#[trigger] rp@[j]) as int] == lp@[j],
        decreases n - i,
    {
        proof {
            assert(rp@[i as int] < n);
        }
        out.set(rp[i], lp[i]);
        i = i + 1;
    }
    out
}

/// A row of a scan agrees with a left row on the join columns exactly when it
/// begins with the probe's prefix.
pub proof fn lemma_prefix_match(l: Row, lp: Seq<usize>, r: Row, rp: Seq<usize>, order: Seq<usize>)
    requires
        lp.len() == rp.len(),
        is_prefix(rp),
        is_probe_order(order, lp, rp),
        rp.len() <= r.len(),
    ensures
        starts_with(r, project(l, order)) == keys_match(l, lp, r, rp),
{
    let prefix = project(l, order);
    let n = rp.len() as int;
    if starts_with(r, prefix) {
        assert forall|i: int| 0 <= i < n implies project(l, lp)[i] == project(r, rp)[i] by {
            assert(rp[i] < n);
            assert(order[rp[i] as int] == lp[i]);
            assert(r.take(n)[rp[i] as int] == prefix[rp[i] as int]);
        }
        assert(project(l, lp) =~= project(r, rp));
    }
    if keys_match(l, lp, r, rp) {
        assert forall|c: int| 0 <= c < n implies r.take(n)[c] == prefix[c] by {
            lemma_prefix_covers(rp, c);
            let i = choose|i: int| 0 <= i < rp.len() && #[trigger] rp[i] == c;
            assert(order[rp[i] as int] == lp[i]);
            assert(project(l, lp)[i] == project(r, rp)[i]);
        }
        assert(r.take(n) =~= prefix);
    }
}

/// A row between two rows with a common beginning has that beginning too.
pub proof fn lemma_between_prefix(row: Row, p: Row, a: Row, b: Row)
    requires
        !row_before(row, p + a),
        row_before(row, p + b) || row == p + b,
    ensures
        starts_with(row, p),
    decreases p.len(),
{
    if p.len() == 0 {
        assert(row.take(0) =~= p);
    } else {
        let x = p + a;
        let y = p + b;
        assert(x[0] == p[0] && y[0] == p[0]);
        if row.len() == 0 {
        } else if row == y {
            assert(row.take(p.len() as int) =~= p);
        } else {
            if row[0] != p[0] {
                crate::value::lemma_val_total(row[0], p[0]);
                assert(val_before(row[0], p[0]));
                assert(!val_before(row[0], p[0]));
            }
            let r = row.drop_first();
            let q = p.drop_first();
            assert(x.drop_first() =~= q + a);
            assert(y.drop_first() =~= q + b);
            lemma_between_prefix(r, q, a, b);
            assert(row.take(p.len() as int) =~= seq![row[0]] + r.take(q.len() as int));
            assert(p =~= seq![p[0]] + q);
        }
    }
}

/// Bounds that are open on every column bound nothing.
pub proof fn lemma_open_bounds(r: Row, joined: int, filters: Seq<Expr>, columns: Seq<Name>)
    requires
        0 <= joined,
        joined + columns.len() <= r.len(),
        forall|i: int|
            0 <= i < columns.len() ==> (#[trigger] lower_ends(filters, columns)[i]) == Val::Null,
        forall|i: int|
            0 <= i < columns.len() ==> (#[trigger] upper_ends(filters, columns)[i]) == Val::Bot,
    ensures
        within_bounds(r, joined, filters, columns),
{
    let head = r.take(joined);
    let rest = r.subrange(joined, joined + columns.len());
    let low = lower_ends(filters, columns);
    let up = upper_ends(filters, columns);
    assert(r.take(joined + columns.len()) =~= head + rest);
    lemma_open_range(head, rest, low, up);
}

proof fn lemma_open_range(head: Row, rest: Row, low: Row, up: Row)
    requires
        rest.len() == low.len(),
        rest.len() == up.len(),
        forall|i: int| 0 <= i < rest.len() ==> (#[trigger] low[i]) == Val::Null,
        forall|i: int| 0 <= i < rest.len() ==> (#[trigger] up[i]) == Val::Bot,
    ensures
        in_range(head + rest, head + low, head + up, true),
    decreases head.len(),
{
    if head.len() > 0 {
        let h = head.drop_first();
        lemma_open_range(h, rest, low, up);
        assert((head + rest).drop_first() =~= h + rest);
        assert((head + low).drop_first() =~= h + low);
        assert((head + up).drop_first() =~= h + up);
        if h + rest == h + up {
            assert(head + rest =~= seq![head[0]] + (h + rest));
            assert(head + up =~= seq![head[0]] + (h + up));
        }
    } else {
        assert(head + rest =~= rest);
        assert(head + low =~= low);
        assert(head + up =~= up);
        lemma_open_rest(rest, low, up);
    }
}

proof fn lemma_open_rest(rest: Row, low: Row, up: Row)
    requires
        rest.len() == low.len(),
        rest.len() == up.len(),
        forall|i: int| 0 <= i < rest.len() ==> (#[trigger] low[i]) == Val::Null,
        forall|i: int| 0 <= i < rest.len() ==> (#[trigger] up[i]) == Val::Bot,
    ensures
        in_range(rest, low, up, true),
    decreases rest.len(),
{
    if rest.len() == 0 {
        assert(rest =~= up);
    } else {
        let r = rest.drop_first();
        let l = low.drop_first();
        let u = up.drop_first();
        assert(low[0] == Val::Null);
        assert(up[0] == Val::Bot);
        assert forall|i: int| 0 <= i < r.len() implies (#[trigger] l[i]) == Val::Null by {
            assert(l[i] == low[i + 1]);
        }
        assert forall|i: int| 0 <= i < r.len() implies (#[trigger] u[i]) == Val::Bot by {
            assert(u[i] == up[i + 1]);
        }
        lemma_open_rest(r, l, u);
        assert(!val_before(rest[0], Val::Null));
        assert(rest[0] == Val::Bot || val_before(rest[0], Val::Bot));
        if rest[0] == up[0] && r == u {
            assert(rest =~= seq![rest[0]] + r);
            assert(up =~= seq![up[0]] + u);
        }
    }
}

/// Without further columns a probe has no bounds.
pub proof fn lemma_no_columns(r: Row, joined: int, filters: Seq<Expr>)
    ensures
        within_bounds(r, joined, filters, Seq::empty()),
{
    let x = r.take(joined);
    assert(lower_ends(filters, Seq::<Name>::empty()) =~= Seq::<Val>::empty());
    assert(upper_ends(filters, Seq::<Name>::empty()) =~= Seq::<Val>::empty());
    assert(x + Seq::<Val>::empty() =~= x);
    assert(r.take(joined + 0) =~= x);
    lemma_row_irreflexive(x);
}

/// The range scan of a probe: what lies between its bounds begins with the
/// prefix and is within the bounds of the filters, and the other way round.
pub proof fn lemma_range_match(
    r: Row,
    prefix: Row,
    filters: Seq<Expr>,
    columns: Seq<Name>,
    head: int,
)
    requires
        head == prefix.len() + columns.len(),
        head <= r.len(),
    ensures
        in_range(
            r.take(head),
            prefix + lower_ends(filters, columns),
            prefix + upper_ends(filters, columns),
            true,
        ) == (starts_with(r, prefix) && within_bounds(
            r,
            prefix.len() as int,
            filters,
            columns,
        )),
{
    let n = prefix.len() as int;
    let low = lower_ends(filters, columns);
    let up = upper_ends(filters, columns);
    if in_range(r.take(head), prefix + low, prefix + up, true) {
        lemma_between_prefix(r.take(head), prefix, low, up);
        assert(r.take(head).take(n) =~= r.take(n));
    }
}

/// The sorted enumeration of part of a set is that part of the enumeration.
pub proof fn lemma_ordered_filter(m: Seq<Row>, p: spec_fn(Row) -> bool)
    requires
        strictly_sorted::<Tuple>(m),
    ensures
        ordered(m.to_set().filter(p)) == m.filter(p),
{
    let part = m.filter(p);
    lemma_filter_sorted(m, p);
    assert(part.to_set() =~= m.to_set().filter(p)) by {
        assert forall|x: Row| part.to_set().contains(x) == m.to_set().filter(p).contains(x) by {
            if part.contains(x) {
                let i = choose|i: int| 0 <= i < part.len() && part[i] == x;
                m.lemma_filter_pred(p, i);
                m.lemma_filter_contains_rev(p, x);
            }
            if m.contains(x) && p(x) {
                let i = choose|i: int| 0 <= i < m.len() && m[i] == x;
                m.lemma_filter_contains(p, i);
            }
        }
    }
    lemma_ordered(part);
}

proof fn lemma_filter_sorted(m: Seq<Row>, p: spec_fn(Row) -> bool)
    requires
        strictly_sorted::<Tuple>(m),
    ensures
        strictly_sorted::<Tuple>(m.filter(p)),
    decreases m.len(),
{
    reveal(Seq::filter);
    crate::value::lemma_rows_sorted(m);
    if m.len() > 0 {
        let rest = m.drop_last();
        crate::value::lemma_rows_sorted(rest);
        lemma_filter_sorted(rest, p);
        let part = rest.filter(p);
        crate::value::lemma_rows_sorted(part);
        let whole = m.filter(p);
        crate::value::lemma_rows_sorted(whole);
        if p(m.last()) {
            assert forall|i: int, j: int| 0 <= i < j < whole.len() implies row_before(
                #[trigger] whole[i],
                #[trigger] whole[j],
            ) by {
                if j == part.len() {
                    rest.lemma_filter_contains_rev(p, part[i]);
                    let k = choose|k: int| 0 <= k < rest.len() && rest[k] == part[i];
                    assert(row_before(m[k], m[m.len() - 1]));
                } else {
                    assert(row_before(part[i], part[j]));
                }
            }
        }
    }
}

/// Reading only the rows that matter is reading all rows.
pub proof fn lemma_read_part(
    m: Seq<Row>,
    part: Set<Row>,
    p: spec_fn(Row) -> bool,
    g: spec_fn(Row) -> Stream,
    h: spec_fn(Row) -> Stream,
)
    requires
        strictly_sorted::<Tuple>(m),
        forall|x: Row| #[trigger] part.contains(x) == (m.contains(x) && p(x)),
        forall|i: int|
            0 <= i < m.len() ==> #[trigger] h(m[i]) == (if p(m[i]) {
                g(m[i])
            } else {
                Stream::nothing()
            }),
    ensures
        flow(ordered(part), g) == flow(m, h),
{
    assert(part =~= m.to_set().filter(p));
    lemma_ordered_filter(m, p);
    lemma_flow_filter(m, p, g);
    let f = |x: Row|
        if p(x) {
            g(x)
        } else {
            Stream::nothing()
        };
    lemma_flow_ext(m, f, h);
}

/// The joined rows of a left row and the rows a probe has read.
pub(crate) fn emit_matches(
    l: &Tuple,
    found: &Vec<Tuple>,
    filters: &Vec<Expr>,
    eliminate: &Vec<usize>,
    Ghost(rframe): Ghost<Seq<Name>>,
) -> (r: TupleStream)
    requires
        all_at_place(filters@, rframe),
    ensures
        r.deep_view() == flow(
            found.deep_view(),
            |x: Row| sift(filters@, rframe, x, without(l.deep_view() + x, places_set(eliminate@))),
        ),
{
    let ghost rows = found.deep_view();
    let ghost g = |x: Row| sift(filters@, rframe, x, without(l.deep_view() + x, places_set(eliminate@)));
    let mut out = TupleStream::nothing();
    let mut i: usize = 0;
    proof {
        assert(rows.take(0) =~= Seq::<Row>::empty());
        assert(rows.len() == found@.len());
    }
    while i < found.len()
        invariant
            i <= found@.len(),
            rows == found.deep_view(),
            rows.len() == found@.len(),
            g == (|x: Row| sift(filters@, rframe, x, without(l.deep_view() + x, places_set(eliminate@)))),
            all_at_place(filters@, rframe),
            out.deep_view() == flow(rows.take(i as int), g),
        decreases found.len() - i,
    {
        proof {
            lemma_flow_step(rows, g, i as int);
        }
        let full = joined(l, &found[i]);
        let kept = eliminate_from_tuple(full, eliminate);
        let next = sift_row(filters, &found[i], kept, Ghost(rframe));
        out.append(next);
        i = i + 1;
    }
    proof {
        assert(rows.take(i as int) =~= rows);
    }
    out
}

/// The bounds of a probe, if filters set any.
pub fn probe_bounds(filters: &Vec<Expr>, columns: &Vec<String>) -> (r: Option<(Tuple, Tuple)>)
    ensures
        match r {
            Some(b) => b.0.deep_view() == lower_ends(filters@, names(columns@))
                && b.1.deep_view() == upper_ends(filters@, names(columns@)),
            None => (forall|i: int|
                0 <= i < columns@.len() ==> (#[trigger] lower_ends(filters@, names(columns@))[i])
                    == Val::Null) && (forall|i: int|
                0 <= i < columns@.len() ==> (#[trigger] upper_ends(filters@, names(columns@))[i])
                    == Val::Bot),
        },
        columns@.len() == 0 ==> r is None,
{
    let (lower, upper) = compute_bounds(filters, columns);
    let ghost low = lower.deep_view();
    let ghost up = upper.deep_view();
    proof {
        assert(lower@.len() == low.len());
        assert(upper@.len() == up.len());
    }
    let mut open = true;
    let mut i: usize = 0;
    while i < lower.len()
        invariant
            i <= lower@.len(),
            lower@.len() == upper@.len(),
            low == lower.deep_view(),
            up == upper.deep_view(),
            i == 0 ==> open,
            open ==> forall|j: int| 0 <= j < i ==> (#[trigger] low[j]) == Val::Null,
            open ==> forall|j: int| 0 <= j < i ==> (#[trigger] up[j]) == Val::Bot,
        decreases lower.len() - i,
    {
        proof {
            assert(low[i as int] == lower@[i as int].deep_view());
            assert(up[i as int] == upper@[i as int].deep_view());
        }
        if !same_value(&lower[i], &DataValue::Null) || !same_value(&upper[i], &DataValue::Bot) {
            open = false;
        }
        i = i + 1;
    }
    if open {
        None
    } else {
        Some((lower, upper))
    }
}

/// The rows a probe of a rule store reads.
pub open spec fn probe_takes(row: Row, prefix: Row, bounds: Option<(Row, Row)>) -> bool {
    match bounds {
        None => starts_with(row, prefix),
        Some(b) => in_range(row, prefix + b.0, prefix + b.1, true),
    }
}

/// The models of bounds.
pub open spec fn bounds_model(bounds: Option<(Tuple, Tuple)>) -> Option<(Row, Row)> {
    match bounds {
        None => None,
        Some(b) => Some((b.0.deep_view(), b.1.deep_view())),
    }
}

/// Owned copies of tuple views.
pub fn own_rows(found: &Vec<TupleInIter<'_>>) -> (r: Vec<Tuple>)
    ensures
        r.deep_view() == found.deep_view(),
{
    let ghost all = found.deep_view();
    let mut out: Vec<Tuple> = Vec::new();
    let mut i: usize = 0;
    proof {
        assert(all.len() == found@.len());
        assert(out.deep_view() =~= all.take(0));
    }
    while i < found.len()
        invariant
            i <= found@.len(),
            all == found.deep_view(),
            all.len() == found@.len(),
            out.deep_view() == all.take(i as int),
        decreases found.len() - i,
    {
        let ghost prev = out.deep_view();
        let row = found[i].into_tuple();
        let ghost m = row.deep_view();
        out.push(row);
        proof {
            assert(m == all[i as int]);
            assert(out.deep_view() =~= prev.push(m));
            assert(all.take(i + 1) =~= prev.push(m));
        }
        i = i + 1;
    }
    proof {
        assert(all.take(i as int) =~= all);
    }
    out
}

/// Probe a rule store: its total or its delta, by a prefix or by a range.
fn probe_store(storage: &EpochStore, scan_epoch: bool, prefix: Tuple, bounds: &Option<
    (Tuple, Tuple),
>) -> (r: Vec<Tuple>)
    requires
        storage.wf(),
    ensures
        ({
            let rows = if scan_epoch {
                storage.delta_rows()
            } else {
                storage.rows()
            };
            r.deep_view() == ordered(
                rows.filter(
                    |row: Row| probe_takes(row, prefix.deep_view(), bounds_model(*bounds)),
                ),
            )
        }),
{
    let ghost rows = if scan_epoch {
        storage.delta_rows()
    } else {
        storage.rows()
    };
    let ghost taken = rows.filter(
        |row: Row| probe_takes(row, prefix.deep_view(), bounds_model(*bounds)),
    );
    match bounds {
        Some(b) => {
            let lower = joined(&prefix, &b.0);
            let upper = joined(&prefix, &b.1);
            let found = if scan_epoch {
                storage.delta_range_iter(&lower, &upper, true)
            } else {
                storage.range_iter(&lower, &upper, true)
            };
            proof {
                assert(rows.filter(
                    |row: Row| in_range(row, lower.deep_view(), upper.deep_view(), true),
                ) =~= taken);
            }
            own_rows(&found)
        },
        None => {
            let found = if scan_epoch {
                storage.delta_prefix_iter(&prefix)
            } else {
                storage.prefix_iter(&prefix)
            };
            proof {
                assert(rows.filter(|row: Row| starts_with(row, prefix.deep_view())) =~= taken);
            }
            own_rows(&found)
        },
    }
}

/// Places within a row of the given width.
pub open spec fn in_reach(places: Seq<usize>, w: int) -> bool {
    forall|j: int| 0 <= j < places.len() ==> #[trigger] places[j] < w
}

/// Rows of one width.
pub open spec fn all_wide(rows: Set<Row>, w: int) -> bool {
    forall|r: Row| #[trigger] rows.contains(r) ==> r.len() == w
}

/// What a probe reads is what matters to the join.
proof fn lemma_store_probe(
    l: Row,
    rows: Set<Row>,
    shape: JoinShape,
    order: Seq<usize>,
    filters: Seq<Expr>,
    frame: Seq<Name>,
    bounds: Option<(Row, Row)>,
    m: Seq<Row>,
)
    requires
        strictly_sorted::<Tuple>(m),
        m.to_set() == rows,
        all_wide(rows, frame.len() as int),
        shape.lp.len() == shape.rp.len(),
        shape.rp.len() <= frame.len(),
        is_prefix(shape.rp),
        is_probe_order(order, shape.lp, shape.rp),
        ({
            let columns = frame.skip(shape.rp.len() as int);
            match bounds {
                Some(b) => b.0 == lower_ends(filters, columns) && b.1 == upper_ends(
                    filters,
                    columns,
                ),
                None => (forall|i: int|
                    0 <= i < columns.len() ==> (#[trigger] lower_ends(filters, columns)[i])
                        == Val::Null) && (forall|i: int|
                    0 <= i < columns.len() ==> (#[trigger] upper_ends(filters, columns)[i])
                        == Val::Bot),
            }
        }),
    ensures
        flow(
            ordered(rows.filter(|row: Row| probe_takes(row, project(l, order), bounds))),
            |x: Row| sift(filters, frame, x, without(l + x, shape.drop)),
        ) == probed(
            l,
            m,
            shape,
            filters,
            frame,
            probe_columns(frame, shape.rp.len() as int, None),
            None,
        ),
{
    let n = shape.rp.len() as int;
    let columns = frame.skip(n);
    let prefix = project(l, order);
    let p = |row: Row| probe_takes(row, prefix, bounds);
    let part = rows.filter(p);
    let g = |x: Row| sift(filters, frame, x, without(l + x, shape.drop));
    let h = |r: Row| probed_row(l, r, shape, filters, frame, columns, None);
    assert forall|i: int| 0 <= i < m.len() implies #[trigger] h(m[i]) == (if p(m[i]) {
        g(m[i])
    } else {
        Stream::nothing()
    }) by {
        let r = m[i];
        assert(m.to_set().contains(r));
        assert(r.len() == frame.len());
        assert(in_reach(shape.rp, r.len() as int));
        lemma_prefix_match(l, shape.lp, r, shape.rp, order);
        match bounds {
            Some(b) => {
                lemma_range_match(r, prefix, filters, columns, frame.len() as int);
                assert(r.take(frame.len() as int) =~= r);
            },
            None => {
                lemma_open_bounds(r, n, filters, columns);
            },
        }
    }
    assert forall|x: Row| #[trigger] part.contains(x) == (m.contains(x) && p(x)) by {
        assert(rows.contains(x) == m.contains(x));
    }
    lemma_read_part(m, part, p, g, h);
}

/// The probe of a rule store by left rows.
pub struct StoreProbe<'a> {
    pub inner: &'a TempStoreRA,
    pub storage: &'a EpochStore,
    pub scan_epoch: bool,
    pub lp: &'a Vec<usize>,
    pub rp: &'a Vec<usize>,
    pub order: Vec<usize>,
    pub bounds: Option<(Tuple, Tuple)>,
    pub eliminate: &'a Vec<usize>,
}

impl<'a> StoreProbe<'a> {
    /// The tuples that are probed.
    pub open spec fn set(&self) -> Set<Row> {
        if self.scan_epoch {
            self.storage.delta_rows()
        } else {
            self.storage.rows()
        }
    }

    pub open spec fn shape(&self) -> JoinShape {
        JoinShape { lp: self.lp@, rp: self.rp@, drop: places_set(self.eliminate@) }
    }

    pub open spec fn wf(&self) -> bool {
        let frame = names(self.inner.bindings@);
        let columns = frame.skip(self.rp@.len() as int);
        &&& self.storage.wf()
        &&& all_wide(self.storage.rows(), frame.len() as int)
        &&& self.lp@.len() == self.rp@.len()
        &&& self.rp@.len() <= frame.len()
        &&& is_prefix(self.rp@)
        &&& is_probe_order(self.order@, self.lp@, self.rp@)
        &&& all_at_place(self.inner.filters@, frame)
        &&& match self.bounds {
            Some(b) => b.0.deep_view() == lower_ends(self.inner.filters@, columns)
                && b.1.deep_view() == upper_ends(self.inner.filters@, columns),
            None => (forall|i: int|
                0 <= i < columns.len() ==> (#[trigger] lower_ends(
                    self.inner.filters@,
                    columns,
                )[i]) == Val::Null) && (forall|i: int|
                0 <= i < columns.len() ==> (#[trigger] upper_ends(
                    self.inner.filters@,
                    columns,
                )[i]) == Val::Bot),
        }
    }

    /// The tuples of the store that begin with the values of a left row, and
    /// lie within the bounds.
    pub fn probe(&self, l: &Tuple) -> (r: Vec<Tuple>)
        requires
            self.wf(),
            in_reach(self.lp@, l@.len() as int),
        ensures
            r.deep_view() == ordered(
                self.set().filter(
                    |row: Row|
                        probe_takes(
                            row,
                            project(l.deep_view(), self.order@),
                            bounds_model(self.bounds),
                        ),
                ),
            ),
    {
        proof {
            lemma_order_bounded(self.order@, self.lp@, self.rp@, l@.len() as int);
        }
        let prefix = pick(l, &self.order);
        probe_store(self.storage, self.scan_epoch, prefix, &self.bounds)
    }
}

impl<'a> RowStep for StoreProbe<'a> {
    open spec fn takes(&self, row: Row) -> bool {
        self.wf() && in_reach(self.lp@, row.len() as int)
    }

    open spec fn gives(&self, row: Row) -> Stream {
        probed(
            row,
            ordered(self.set()),
            self.shape(),
            self.inner.filters@,
            names(self.inner.bindings@),
            probe_columns(names(self.inner.bindings@), self.rp@.len() as int, None),
            None,
        )
    }

    fn step(&self, row: &Tuple) -> (r: TupleStream) {
        let ghost frame = names(self.inner.bindings@);
        proof {
            assert(row@.len() == row.deep_view().len());
            lemma_delta_within(*self.storage);
            lemma_store_enumerated(*self.storage);
            lemma_store_probe(
                row.deep_view(),
                self.set(),
                self.shape(),
                self.order@,
                self.inner.filters@,
                frame,
                bounds_model(self.bounds),
                ordered(self.set()),
            );
        }
        let found = self.probe(row);
        emit_matches(row, &found, &self.inner.filters, self.eliminate, Ghost(frame))
    }
}

impl TempStoreRA {
    /// The probe of the store for a join on the given columns. The selected
    /// occurrence probes the delta, every other one the total.
    pub fn prober<'a>(
        &'a self,
        lp: &'a Vec<usize>,
        rp: &'a Vec<usize>,
        eliminate: &'a Vec<usize>,
        delta: Option<usize>,
        stores: &'a Stores,
    ) -> (r: Result<StoreProbe<'a>, QueryError>)
        requires
            stores.wf(),
            lp@.len() == rp@.len(),
            is_prefix(rp@),
            rp@.len() <= self.bindings@.len(),
            all_at_place(self.filters@, names(self.bindings@)),
            stores@.contains_key(self.storage_key@) ==> all_wide(
                stores@[self.storage_key@].rows(),
                self.bindings@.len() as int,
            ),
        ensures
            match r {
                Err(e) => !stores@.contains_key(self.storage_key@) && e == QueryError::Plan(
                    PlanInvariant::NoStore,
                ),
                Ok(p) => {
                    &&& stores@.contains_key(self.storage_key@)
                    &&& p.wf()
                    &&& *p.inner == *self
                    &&& *p.storage == stores@[self.storage_key@]
                    &&& p.scan_epoch == (delta == Some(self.occurrence))
                    &&& p.lp@ == lp@
                    &&& p.rp@ == rp@
                    &&& p.eliminate@ == eliminate@
                },
            },
    {
        let storage = epoch_store_of(stores, &self.storage_key)?;
        let scan_epoch = match delta {
            Some(occurrence) => occurrence == self.occurrence,
            None => false,
        };
        let order = probe_order(lp, rp);
        let others = names_between(&self.bindings, rp.len(), self.bindings.len());
        proof {
            let frame = names(self.bindings@);
            assert(frame.subrange(rp@.len() as int, frame.len() as int) =~= frame.skip(
                rp@.len() as int,
            ));
        }
        let bounds = probe_bounds(&self.filters, &others);
        Ok(StoreProbe { inner: self, storage, scan_epoch, lp, rp, order, bounds, eliminate })
    }

    /// Prefix join: each left tuple probes the store by the join columns.
    pub fn prefix_join(
        &self,
        left: TupleStream,
        lp: &Vec<usize>,
        rp: &Vec<usize>,
        eliminate: &Vec<usize>,
        delta: Option<usize>,
        stores: &Stores,
    ) -> (r: Result<TupleStream, QueryError>)
        requires
            stores.wf(),
            lp@.len() == rp@.len(),
            is_prefix(rp@),
            rp@.len() <= self.bindings@.len(),
            reached(left.deep_view(), lp@),
            all_at_place(self.filters@, names(self.bindings@)),
            stores@.contains_key(self.storage_key@) ==> all_wide(
                stores@[self.storage_key@].rows(),
                self.bindings@.len() as int,
            ),
        ensures
            match r {
                Err(e) => !stores@.contains_key(self.storage_key@) && e == QueryError::Plan(
                    PlanInvariant::NoStore,
                ),
                Ok(s) => {
                    let store = stores@[self.storage_key@];
                    let rows = if delta == Some(self.occurrence) {
                        ordered(store.delta_rows())
                    } else {
                        ordered(store.rows())
                    };
                    let shape = JoinShape { lp: lp@, rp: rp@, drop: places_set(eliminate@) };
                    &&& stores@.contains_key(self.storage_key@)
                    &&& s.deep_view() == probe_join(
                        left.deep_view(),
                        rows,
                        shape,
                        self.filters@,
                        names(self.bindings@),
                        None,
                        None,
                    )
                },
            },
    {
        let prober = self.prober(lp, rp, eliminate, delta, stores)?;
        let ghost rows = ordered(prober.set());
        let ghost shape = JoinShape { lp: lp@, rp: rp@, drop: places_set(eliminate@) };
        let ghost g = |l: Row|
            probed(
                l,
                rows,
                shape,
                self.filters@,
                names(self.bindings@),
                probe_columns(names(self.bindings@), rp@.len() as int, None),
                None,
            );
        proof {
            lemma_through_ext(left.deep_view(), |row: Row| prober.gives(row), g);
            lemma_reached(left.deep_view(), lp@, |row: Row| prober.takes(row));
        }
        Ok(pipe(left, &prober))
    }
}

/// The names of a list from one place to another.
pub fn names_between(v: &Vec<String>, from: usize, to: usize) -> (r: Vec<String>)
    requires
        from <= to <= v@.len(),
    ensures
        names(r@) == names(v@).subrange(from as int, to as int),
{
    let mut out: Vec<String> = Vec::new();
    let mut i: usize = from;
    while i < to
        invariant
            from <= i <= to <= v@.len(),
            out@.len() == i - from,
            forall|j: int| 0 <= j < out@.len() ==> (#[trigger] out@[j])@ == v@[from + j]@,
        decreases to - i,
    {
        out.push(v[i].clone());
        i = i + 1;
    }
    proof {
        assert(names(out@) =~= names(v@).subrange(from as int, to as int));
    }
    out
}

/// The store a scan reads. Every rule a plan refers to has one.
pub fn epoch_store_of<'m>(stores: &'m Stores, key: &String) -> (r: Result<
    &'m EpochStore,
    QueryError,
>)
    requires
        stores.wf(),
    ensures
        match r {
            Ok(s) => stores@.contains_key(key@) && *s == stores@[key@] && s.wf(),
            Err(e) => !stores@.contains_key(key@) && e == QueryError::Plan(PlanInvariant::NoStore),
        },
{
    match stores.get(key) {
        Some(s) => Ok(s),
        None => Err(QueryError::Plan(PlanInvariant::NoStore)),
    }
}

/// The places a probe reads are join columns.
pub proof fn lemma_order_bounded(order: Seq<usize>, lp: Seq<usize>, rp: Seq<usize>, w: int)
    requires
        lp.len() == rp.len(),
        is_prefix(rp),
        is_probe_order(order, lp, rp),
        in_reach(lp, w),
    ensures
        forall|c: int| 0 <= c < order.len() ==> #[trigger] order[c] < w,
{
    assert forall|c: int| 0 <= c < order.len() implies #[trigger] order[c] < w by {
        lemma_prefix_covers(rp, c);
        let i = choose|i: int| 0 <= i < rp.len() && #[trigger] rp[i] == c;
        assert(order[rp[i] as int] == lp[i]);
    }
}

/// A delta is part of its total.
pub proof fn lemma_delta_within(store: EpochStore)
    requires
        store.wf(),
    ensures
        store.delta_rows().subset_of(store.rows()),
{
    match (store.total, store.delta) {
        (TempStore::MeetAggr(t), TempStore::MeetAggr(d)) => {
            assert forall|r: Row| store.delta_rows().contains(r) implies store.rows().contains(
                r,
            ) by {}
        },
        _ => {},
    }
}

/// The rows of a store have a sorted enumeration.
pub proof fn lemma_store_enumerated(store: EpochStore)
    requires
        store.wf(),
    ensures
        strictly_sorted::<Tuple>(ordered(store.rows())),
        ordered(store.rows()).to_set() == store.rows(),
        strictly_sorted::<Tuple>(ordered(store.delta_rows())),
        ordered(store.delta_rows()).to_set() == store.delta_rows(),
{
    crate::epoch::lemma_store_enumerable(store.total);
    crate::epoch::lemma_store_enumerable(store.delta);
}

} // verus!
