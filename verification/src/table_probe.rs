//! Probes of stored relations: by a prefix of the key, by a bounded range of
//! it, or by the whole key.

use vstd::prelude::*;
use crate::bounds::{lower_ends, upper_ends};
use crate::delta::{lemma_snapshot_row, lemma_table_keyed};
use crate::epoch::{in_range, starts_with};
use crate::expr::Expr;
use crate::history::{
    fact_at, is_fact_key, joined, row_of_key, row_prefix, snapshot, AsOf, FactModel, FactTable,
};
use crate::meaning::{
    agree_on_key, compared, keys_match, meeting, met, newest, probe_columns, probe_join, probed,
    probed_row, sift, too_short, JoinShape, Meeting, Origin,
};
use crate::names::{eliminate_from_tuple, names, places_set, without, Name};
use crate::order::{strictly_sorted, Rank};
use crate::plan::{is_prefix, StoredRA, StoredWithValidityRA};
use crate::probe::{
    all_at_place, bounds_model, emit_matches, in_reach, is_probe_order, lemma_no_columns,
    lemma_reached, reached, lemma_open_bounds, lemma_order_bounded, lemma_prefix_covers,
    lemma_prefix_fits, lemma_prefix_match, lemma_range_match, names_between, probe_bounds,
    probe_order, sift_row,
};
use crate::stream::{
    flow, lemma_flow_ext, lemma_flow_filter, lemma_flow_step, lemma_through_ext, pipe, QueryError,
    RowStep, Stream, TupleStream,
};
use crate::temp_store::{pick, project};
use crate::value::{copy_row, rank_rows, row_before, same_row, same_value, Row, Tuple, Val};

verus! {

/// A snapshot is in strictly increasing row order.
pub proof fn lemma_snapshot_sorted(table: &FactTable, at: AsOf)
    requires
        table.wf(),
    ensures
        strictly_sorted::<Tuple>(snapshot(table.model(), at)),
{
    let ks = table.facts.keys.deep_view();
    crate::value::lemma_rows_sorted(ks);
    let facts = table.model();
    assert forall|i: int, j: int| 0 <= i < j < facts.len() implies row_before(
        (#[trigger] facts[i]).key,
        (#[trigger] facts[j]).key,
    ) by {
        assert(row_before(ks[i], ks[j]));
    }
    lemma_table_keyed(table);
    lemma_facts_sorted(facts, table.key_len as int, at);
}

proof fn lemma_facts_sorted(facts: Seq<FactModel>, key_len: int, at: AsOf)
    requires
        forall|i: int| 0 <= i < facts.len() ==> (#[trigger] facts[i]).key.len() == key_len,
        forall|i: int, j: int|
            0 <= i < j < facts.len() ==> row_before(
                (#[trigger] facts[i]).key,
                (#[trigger] facts[j]).key,
            ),
    ensures
        strictly_sorted::<Tuple>(snapshot(facts, at)),
    decreases facts.len(),
{
    let whole = snapshot(facts, at);
    crate::value::lemma_rows_sorted(whole);
    if facts.len() > 0 {
        let rest = facts.drop_last();
        let last = facts.last();
        assert forall|i: int, j: int| 0 <= i < j < rest.len() implies row_before(
            (#[trigger] rest[i]).key,
            (#[trigger] rest[j]).key,
        ) by {
            assert(row_before(facts[i].key, facts[j].key));
        }
        lemma_facts_sorted(rest, key_len, at);
        let part = snapshot(rest, at);
        crate::value::lemma_rows_sorted(part);
        assert forall|i: int, j: int| 0 <= i < j < whole.len() implies row_before(
            #[trigger] whole[i],
            #[trigger] whole[j],
        ) by {
            if j < part.len() {
                assert(row_before(part[i], part[j]));
            } else {
                assert(part.contains(part[i]));
                lemma_snapshot_row(rest, at, part[i]);
                let k = choose|k: int|
                    0 <= k < rest.len() && fact_at(#[trigger] rest[k], at) == Some(part[i]);
                assert(row_before(facts[k].key, facts[facts.len() - 1].key));
                let x = part[i].skip(key_len);
                let y = whole[j].skip(key_len);
                assert(part[i] =~= rest[k].key + x);
                assert(whole[j] =~= last.key + y);
                crate::epoch::lemma_before_extends(rest[k].key, last.key, x, y);
            }
        }
    }
}

/// A row of a snapshot is the row of the fact with its key.
pub proof fn lemma_row_of_key(table: &FactTable, at: AsOf, t: Row)
    requires
        table.wf(),
        snapshot(table.model(), at).contains(t),
    ensures
        table.key_len <= t.len(),
        row_of_key(table.model(), t.take(table.key_len as int), at) == Some(t),
{
    let facts = table.model();
    lemma_table_keyed(table);
    lemma_snapshot_row(facts, at, t);
    let i = choose|i: int| 0 <= i < facts.len() && fact_at(#[trigger] facts[i], at) == Some(t);
    let key = facts[i].key;
    assert(t.take(table.key_len as int) =~= key);
    assert(is_fact_key(facts, i, key));
    let c = choose|c: int| is_fact_key(facts, c, key);
    assert(facts[c].key == facts[i].key);
}

/// The row of a fact is in the snapshot.
pub proof fn lemma_key_in_snapshot(table: &FactTable, at: AsOf, key: Row)
    requires
        row_of_key(table.model(), key, at) is Some,
    ensures
        snapshot(table.model(), at).contains(row_of_key(table.model(), key, at)->Some_0),
{
    let facts = table.model();
    let t = row_of_key(facts, key, at)->Some_0;
    let c = choose|c: int| is_fact_key(facts, c, key);
    assert(fact_at(facts[c], at) == Some(t));
    lemma_snapshot_row(facts, at, t);
}

/// The row that is found under a key begins with the key.
pub proof fn lemma_found_key(table: &FactTable, at: AsOf, key: Row)
    requires
        table.wf(),
        row_of_key(table.model(), key, at) is Some,
    ensures
        table.key_len <= row_of_key(table.model(), key, at)->Some_0.len(),
        row_of_key(table.model(), key, at)->Some_0.take(table.key_len as int) == key,
{
    let facts = table.model();
    let t = row_of_key(facts, key, at)->Some_0;
    let c = choose|c: int| is_fact_key(facts, c, key);
    lemma_table_keyed(table);
    assert(fact_at(facts[c], at) == Some(t));
    assert(t.take(table.key_len as int) =~= key);
}

/// Where nothing comes of all items but one, what comes of that one comes of
/// all.
pub proof fn lemma_flow_single<A>(items: Seq<A>, f: spec_fn(A) -> Stream, i: int)
    requires
        0 <= i < items.len(),
        forall|j: int|
            0 <= j < items.len() && j != i ==> #[trigger] f(items[j]) == Stream::nothing(),
    ensures
        flow(items, f) == f(items[i]),
    decreases items.len(),
{
    let rest = items.drop_last();
    if i == items.len() - 1 {
        assert forall|j: int| 0 <= j < rest.len() implies #[trigger] f(rest[j])
            == Stream::nothing() by {
            assert(f(items[j]) == Stream::nothing());
        }
        lemma_flow_nothing(rest, f);
        assert(Stream::nothing().followed_by(f(items[i])) =~= f(items[i]));
    } else {
        assert forall|j: int| 0 <= j < rest.len() && j != i implies #[trigger] f(rest[j])
            == Stream::nothing() by {
            assert(f(items[j]) == Stream::nothing());
        }
        lemma_flow_single(rest, f, i);
        assert(f(items[items.len() - 1]) == Stream::nothing());
        assert(f(items[i]).followed_by(Stream::nothing()) =~= f(items[i]));
    }
}

/// Where nothing comes of any item, nothing comes of them.
pub proof fn lemma_flow_nothing<A>(items: Seq<A>, f: spec_fn(A) -> Stream)
    requires
        forall|j: int| 0 <= j < items.len() ==> #[trigger] f(items[j]) == Stream::nothing(),
    ensures
        flow(items, f) == Stream::nothing(),
    decreases items.len(),
{
    if items.len() > 0 {
        let rest = items.drop_last();
        assert forall|j: int| 0 <= j < rest.len() implies #[trigger] f(rest[j])
            == Stream::nothing() by {
            assert(f(items[j]) == Stream::nothing());
        }
        lemma_flow_nothing(rest, f);
        assert(f(items[items.len() - 1]) == Stream::nothing());
        assert(Stream::nothing().followed_by(Stream::nothing()) =~= Stream::nothing());
    }
}

/// In rows that are long enough, agreeing column by column is agreeing.
pub proof fn lemma_meeting(l: Row, lp: Seq<usize>, r: Row, rp: Seq<usize>, n: int)
    requires
        0 <= n <= rp.len(),
        lp.len() == rp.len(),
        in_reach(rp, r.len() as int),
    ensures
        !(meeting(l, lp, r, rp, n) is Short),
        meeting(l, lp, r, rp, n) is Agree <==> project(l, lp).take(n) == project(r, rp).take(n),
    decreases n,
{
    let a = project(l, lp);
    let b = project(r, rp);
    if n > 0 {
        lemma_meeting(l, lp, r, rp, n - 1);
        assert(rp[n - 1] < r.len());
        assert(a.take(n) =~= a.take(n - 1).push(a[n - 1]));
        assert(b.take(n) =~= b.take(n - 1).push(b[n - 1]));
        if a.take(n) == b.take(n) {
            assert(a.take(n)[n - 1] == b.take(n)[n - 1]);
            assert(a.take(n - 1) =~= a.take(n).take(n - 1));
            assert(b.take(n - 1) =~= b.take(n).take(n - 1));
        }
    } else {
        assert(a.take(0) =~= b.take(0));
    }
}

proof fn lemma_meeting_ends(l: Row, lp: Seq<usize>, r: Row, rp: Seq<usize>, k: int, n: int)
    requires
        0 <= k <= n,
        !(meeting(l, lp, r, rp, k) is Agree),
    ensures
        meeting(l, lp, r, rp, n) == meeting(l, lp, r, rp, k),
    decreases n - k,
{
    if k < n {
        lemma_meeting_ends(l, lp, r, rp, k + 1, n);
    }
}

/// A row that has the join columns is met exactly where it agrees on them.
pub proof fn lemma_met_wide(l: Row, r: Row, shape: JoinShape, origin: Option<Origin>)
    requires
        shape.lp.len() == shape.rp.len(),
        in_reach(shape.rp, r.len() as int),
    ensures
        !(met(l, r, shape, origin) is Short),
        met(l, r, shape, origin) is Agree <==> keys_match(l, shape.lp, r, shape.rp),
{
    let n = shape.rp.len() as int;
    let a = project(l, shape.lp);
    let b = project(r, shape.rp);
    lemma_meeting(l, shape.lp, r, shape.rp, n);
    assert(a.take(n) =~= a);
    assert(b.take(n) =~= b);
    if a == b {
        assert forall|j: int| 0 <= j < n implies l[shape.lp[j] as int] == r[
            (#[trigger] shape.rp[j]) as int
        ] by {
            assert(a[j] == b[j]);
        }
    }
}

/// A row agrees on the join columns of the key exactly when it begins with
/// their values.
pub proof fn lemma_met_key(
    l: Row,
    r: Row,
    shape: JoinShape,
    key_len: int,
    k: int,
    order: Seq<usize>,
)
    requires
        shape.lp.len() == shape.rp.len(),
        is_prefix(shape.rp),
        is_probe_order(order, shape.lp, shape.rp),
        0 <= k <= r.len(),
        k == key_len <= shape.rp.len() || k == shape.rp.len() <= key_len,
    ensures
        agree_on_key(l, shape.lp, r, shape.rp, key_len) == starts_with(
            r,
            project(l, order).take(k),
        ),
{
    let prefix = project(l, order);
    if agree_on_key(l, shape.lp, r, shape.rp, key_len) {
        assert forall|c: int| 0 <= c < k implies prefix.take(k)[c] == r.take(k)[c] by {
            lemma_prefix_covers(shape.rp, c);
            let j = choose|j: int| 0 <= j < shape.rp.len() && #[trigger] shape.rp[j] == c;
            assert(order[shape.rp[j] as int] == shape.lp[j]);
        }
        assert(prefix.take(k) =~= r.take(k));
    }
    if starts_with(r, prefix.take(k)) {
        assert forall|j: int| 0 <= j < shape.rp.len() && #[trigger] shape.rp[j] < key_len implies l[
            shape.lp[j] as int
        ] == r[shape.rp[j] as int] by {
            let c = shape.rp[j] as int;
            assert(order[c] == shape.lp[j]);
            assert(prefix.take(k)[c] == r.take(k)[c]);
        }
    }
}

/// A scan finds the rows that begin with the prefix, where the key holds all
/// join columns or the scan is no probe by key.
proof fn lemma_met_prefix(
    l: Row,
    r: Row,
    shape: JoinShape,
    origin: Option<Origin>,
    order: Seq<usize>,
)
    requires
        shape.lp.len() == shape.rp.len(),
        is_prefix(shape.rp),
        is_probe_order(order, shape.lp, shape.rp),
        origin matches Some(o) ==> shape.rp.len() <= o.key_len <= r.len(),
    ensures
        !(met(l, r, shape, origin) is Short),
        met(l, r, shape, origin) is Agree <==> starts_with(r, project(l, order)),
{
    let n = shape.rp.len() as int;
    if n <= r.len() {
        assert(in_reach(shape.rp, r.len() as int)) by {
            assert forall|j: int| 0 <= j < shape.rp.len() implies #[trigger] shape.rp[j]
                < r.len() by {}
        }
        lemma_met_wide(l, r, shape, origin);
        lemma_prefix_match(l, shape.lp, r, shape.rp, order);
    } else {
        assert(project(l, order).len() == n);
        if in_reach(shape.rp, r.len() as int) {
            lemma_prefix_fits(shape.rp, r.len() as int);
        }
    }
}

/// Compare a left row and a found row on the join columns.
pub fn meet_rows_on(l: &Tuple, lp: &Vec<usize>, r: &Tuple, rp: &Vec<usize>) -> (m: Meeting)
    requires
        lp@.len() == rp@.len(),
        in_reach(lp@, l@.len() as int),
    ensures
        m == meeting(l.deep_view(), lp@, r.deep_view(), rp@, rp@.len() as int),
{
    let ghost a = l.deep_view();
    let ghost b = r.deep_view();
    let n: usize = rp.len();
    let mut i: usize = 0;
    proof {
        assert(a.len() == l@.len());
        assert(b.len() == r@.len());
    }
    while i < n
        invariant
            i <= n,
            n == rp@.len(),
            lp@.len() == rp@.len(),
            a == l.deep_view(),
            b == r.deep_view(),
            a.len() == l@.len(),
            b.len() == r@.len(),
            in_reach(lp@, l@.len() as int),
            meeting(a, lp@, b, rp@, i as int) is Agree,
        decreases n - i,
    {
        proof {
            assert(lp@[i as int] < l@.len());
        }
        let at: usize = rp[i];
        if at >= r.len() {
            proof {
                lemma_meeting_ends(a, lp@, b, rp@, i + 1, n as int);
            }
            return Meeting::Short(at);
        }
        if !same_value(&l[lp[i]], &r[at]) {
            proof {
                lemma_meeting_ends(a, lp@, b, rp@, i + 1, n as int);
            }
            return Meeting::Differ;
        }
        i = i + 1;
    }
    Meeting::Agree
}

/// The report of a stored row that ends before a column.
pub(crate) fn report_short(origin: &Origin, row: &Tuple, index: usize) -> (r: QueryError)
    ensures
        r.deep_view() == too_short(*origin, row.deep_view(), index),
{
    proof {
        assert(row.deep_view().len() == row@.len());
    }
    QueryError::RowTooShort {
        relation: origin.relation.clone(),
        index,
        len: row.len(),
        span: origin.span,
    }
}

/// The rows a probe of a stored relation reads.
pub open spec fn table_takes(row: Row, prefix: Row, bounds: Option<(Row, Row)>, head: int) -> bool {
    match bounds {
        None => starts_with(row, prefix),
        Some(b) => in_range(row.take(head), prefix + b.0, prefix + b.1, true),
    }
}

/// Read from rows those with a prefix, or those whose first columns lie in a
/// range.
fn scan_part(rows: &Vec<Tuple>, prefix: &Tuple, bounds: &Option<(Tuple, Tuple)>, head: usize) -> (r:
    Vec<Tuple>)
    requires
        bounds is Some ==> forall|i: int|
            0 <= i < rows@.len() ==> head <= (#[trigger] rows@[i])@.len(),
    ensures
        r.deep_view() == rows.deep_view().filter(
            |row: Row| table_takes(row, prefix.deep_view(), bounds_model(*bounds), head as int),
        ),
{
    reveal(Seq::filter);
    let ghost all = rows.deep_view();
    let ghost p = |row: Row|
        table_takes(row, prefix.deep_view(), bounds_model(*bounds), head as int);
    let mut out: Vec<Tuple> = Vec::new();
    let mut i: usize = 0;
    proof {
        assert(all.len() == rows@.len());
        assert(out.deep_view() =~= all.take(0).filter(p));
    }
    while i < rows.len()
        invariant
            i <= rows@.len(),
            all == rows.deep_view(),
            all.len() == rows@.len(),
            bounds is Some ==> forall|i: int|
                0 <= i < rows@.len() ==> head <= (#[trigger] rows@[i])@.len(),
            p == (|row: Row|
                table_takes(row, prefix.deep_view(), bounds_model(*bounds), head as int)),
            out.deep_view() == all.take(i as int).filter(p),
        decreases rows.len() - i,
    {
        let row = &rows[i];
        let wanted = match bounds {
            None => {
                if prefix.len() > row.len() {
                    false
                } else {
                    let start = row_prefix(row, prefix.len());
                    same_row(&start, prefix)
                }
            },
            Some(b) => {
                let start = row_prefix(row, head);
                let lower = joined(prefix, &b.0);
                let upper = joined(prefix, &b.1);
                proof {
                    crate::value::lemma_row_irreflexive(start.deep_view());
                }
                match rank_rows(&start, &lower) {
                    Rank::Before => false,
                    _ => !matches!(rank_rows(&start, &upper), Rank::After),
                }
            },
        };
        let ghost prev = out.deep_view();
        proof {
            assert(all.take(i + 1).drop_last() =~= all.take(i as int));
            assert(all.take(i + 1).last() == row.deep_view());
            assert(prefix.deep_view().len() == prefix@.len());
            assert(row.deep_view().len() == row@.len());
            assert(wanted == p(row.deep_view()));
            reveal(Seq::filter);
        }
        if wanted {
            let copy = copy_row(row);
            let ghost m = copy.deep_view();
            out.push(copy);
            proof {
                assert(out.deep_view() =~= prev.push(m));
            }
        }
        i = i + 1;
    }
    proof {
        assert(all.take(i as int) =~= all);
    }
    out
}

/// Join a left row with found rows, each compared column by column.
pub(crate) fn emit_met(
    l: &Tuple,
    found: &Vec<Tuple>,
    lp: &Vec<usize>,
    rp: &Vec<usize>,
    filters: &Vec<Expr>,
    eliminate: &Vec<usize>,
    origin: &Origin,
    Ghost(rframe): Ghost<Seq<Name>>,
) -> (r: TupleStream)
    requires
        all_at_place(filters@, rframe),
        lp@.len() == rp@.len(),
        in_reach(lp@, l@.len() as int),
    ensures
        r.deep_view() == flow(
            found.deep_view(),
            |x: Row|
                compared(
                    l.deep_view(),
                    x,
                    (JoinShape { lp: lp@, rp: rp@, drop: places_set(eliminate@) }),
                    filters@,
                    rframe,
                    *origin,
                ),
        ),
{
    let ghost rows = found.deep_view();
    let ghost shape = JoinShape { lp: lp@, rp: rp@, drop: places_set(eliminate@) };
    let ghost g = |x: Row| compared(l.deep_view(), x, shape, filters@, rframe, *origin);
    let mut out = TupleStream::nothing();
    let mut i: usize = 0;
    proof {
        assert(rows.take(0) =~= Seq::<Row>::empty());
        assert(rows.len() == found@.len());
    }
    while i < found.len()
        invariant
            i <= found@.len(),
            rows == found.deep_view(),
            rows.len() == found@.len(),
            shape == (JoinShape { lp: lp@, rp: rp@, drop: places_set(eliminate@) }),
            g == (|x: Row| compared(l.deep_view(), x, shape, filters@, rframe, *origin)),
            all_at_place(filters@, rframe),
            lp@.len() == rp@.len(),
            in_reach(lp@, l@.len() as int),
            out.deep_view() == flow(rows.take(i as int), g),
        decreases found.len() - i,
    {
        proof {
            lemma_flow_step(rows, g, i as int);
        }
        let next = match meet_rows_on(l, lp, &found[i], rp) {
            Meeting::Agree => {
                let full = joined(l, &found[i]);
                let kept = eliminate_from_tuple(full, eliminate);
                sift_row(filters, &found[i], kept, Ghost(rframe))
            },
            Meeting::Differ => TupleStream::nothing(),
            Meeting::Short(index) => TupleStream::failed(report_short(origin, &found[i], index)),
        };
        out.append(next);
        i = i + 1;
    }
    proof {
        assert(rows.take(i as int) =~= rows);
    }
    out
}

/// The probe of a stored relation, as of a coordinate, by left rows.
pub struct TableProbe<'a> {
    pub table: &'a FactTable,
    pub at: AsOf,
    pub bindings: &'a Vec<String>,
    pub filters: &'a Vec<Expr>,
    pub lp: &'a Vec<usize>,
    pub rp: &'a Vec<usize>,
    pub order: Vec<usize>,
    pub bounds: Option<(Tuple, Tuple)>,
    /// The number of leading columns the bounds speak of.
    pub head: usize,
    /// The rows at the coordinate; none are read where the whole key is known.
    pub rows: Vec<Tuple>,
    /// Whether the join columns cover the key.
    pub by_key: bool,
    pub eliminate: &'a Vec<usize>,
    /// The relation that is looked up by key, if it is.
    pub origin: Option<Origin>,
}

impl<'a> TableProbe<'a> {
    pub open spec fn all_rows(&self) -> Seq<Row> {
        snapshot(self.table.model(), self.at)
    }

    pub open spec fn columns(&self) -> Seq<Name> {
        probe_columns(
            names(self.bindings@),
            self.rp@.len() as int,
            Some(self.table.key_len as int),
        )
    }

    pub open spec fn shape(&self) -> JoinShape {
        JoinShape { lp: self.lp@, rp: self.rp@, drop: places_set(self.eliminate@) }
    }

    pub open spec fn wf(&self) -> bool {
        let frame = names(self.bindings@);
        let columns = self.columns();
        &&& self.table.wf()
        &&& self.lp@.len() == self.rp@.len()
        &&& self.rp@.len() <= frame.len()
        &&& is_prefix(self.rp@)
        &&& is_probe_order(self.order@, self.lp@, self.rp@)
        &&& all_at_place(self.filters@, frame)
        &&& self.origin matches Some(o) ==> o.key_len == self.table.key_len
        &&& self.by_key == (self.origin is Some && self.table.key_len <= self.rp@.len())
        &&& !self.by_key ==> self.rows.deep_view() == self.all_rows()
        &&& self.head == self.rp@.len() + columns.len()
        &&& self.bounds is Some ==> columns.len() > 0
        &&& match self.bounds {
            Some(b) => b.0.deep_view() == lower_ends(self.filters@, columns) && b.1.deep_view()
                == upper_ends(self.filters@, columns),
            None => (forall|i: int|
                0 <= i < columns.len() ==> (#[trigger] lower_ends(self.filters@, columns)[i])
                    == Val::Null) && (forall|i: int|
                0 <= i < columns.len() ==> (#[trigger] upper_ends(self.filters@, columns)[i])
                    == Val::Bot),
        }
    }

    /// Look a left row's partner up by its key. A partner that ends before a
    /// join column is an error.
    pub fn point_lookup(&self, origin: &Origin, l: &Tuple) -> (r: Result<
        Option<Tuple>,
        QueryError,
    >)
        requires
            self.table.wf(),
            self.lp@.len() == self.rp@.len(),
            is_prefix(self.rp@),
            is_probe_order(self.order@, self.lp@, self.rp@),
            self.table.key_len <= self.rp@.len(),
            in_reach(self.lp@, l@.len() as int),
        ensures
            ({
                let key = project(l.deep_view(), self.order@).take(self.table.key_len as int);
                match row_of_key(self.table.model(), key, self.at) {
                    None => r == Ok::<Option<Tuple>, QueryError>(None),
                    Some(found) => match meeting(
                        l.deep_view(),
                        self.lp@,
                        found,
                        self.rp@,
                        self.rp@.len() as int,
                    ) {
                        Meeting::Agree => r is Ok && r->Ok_0 is Some
                            && r->Ok_0->Some_0.deep_view() == found,
                        Meeting::Differ => r == Ok::<Option<Tuple>, QueryError>(None),
                        Meeting::Short(index) => r is Err && r->Err_0.deep_view() == too_short(
                            *origin,
                            found,
                            index,
                        ),
                    },
                }
            }),
    {
        proof {
            lemma_order_bounded(self.order@, self.lp@, self.rp@, l@.len() as int);
        }
        let prefix = pick(l, &self.order);
        proof {
            assert(prefix@.len() == prefix.deep_view().len());
        }
        let key = row_prefix(&prefix, self.table.key_len);
        match self.table.current_row(&key, self.at) {
            None => Ok(None),
            Some(found) => match meet_rows_on(l, self.lp, &found, self.rp) {
                Meeting::Agree => Ok(Some(found)),
                Meeting::Differ => Ok(None),
                Meeting::Short(index) => Err(report_short(origin, &found, index)),
            },
        }
    }

    /// What a lookup by key finds is all that a scan would find.
    proof fn lemma_point(&self, l: Row)
        requires
            self.wf(),
            self.by_key,
        ensures
            ({
                let key = project(l, self.order@).take(self.table.key_len as int);
                let frame = names(self.bindings@);
                probed(
                    l,
                    self.all_rows(),
                    self.shape(),
                    self.filters@,
                    frame,
                    self.columns(),
                    self.origin,
                ) == (match row_of_key(self.table.model(), key, self.at) {
                    Some(r) => match meeting(l, self.lp@, r, self.rp@, self.rp@.len() as int) {
                        Meeting::Agree => sift(
                            self.filters@,
                            frame,
                            r,
                            without(l + r, places_set(self.eliminate@)),
                        ),
                        Meeting::Differ => Stream::nothing(),
                        Meeting::Short(index) => Stream::failed(
                            too_short(self.origin->Some_0, r, index),
                        ),
                    },
                    None => Stream::nothing(),
                })
            }),
    {
        let rows = self.all_rows();
        let frame = names(self.bindings@);
        let columns = self.columns();
        let k = self.table.key_len as int;
        assert(columns =~= Seq::<Name>::empty());
        let key = project(l, self.order@).take(k);
        let shape = self.shape();
        let h = |r: Row| probed_row(l, r, shape, self.filters@, frame, columns, self.origin);
        lemma_snapshot_sorted(self.table, self.at);
        crate::order::lemma_sorted_no_duplicates::<Tuple>(rows);
        assert forall|i: int| 0 <= i < rows.len() implies agree_on_key(
            l,
            shape.lp,
            #[trigger] rows[i],
            shape.rp,
            k,
        ) == (row_of_key(self.table.model(), key, self.at) == Some(rows[i])) by {
            let r = rows[i];
            assert(rows.contains(r));
            lemma_row_of_key(self.table, self.at, r);
            lemma_met_key(l, r, shape, k, k, self.order@);
            if row_of_key(self.table.model(), key, self.at) == Some(r) {
                lemma_found_key(self.table, self.at, key);
            }
        }
        match row_of_key(self.table.model(), key, self.at) {
            None => {
                lemma_flow_nothing(rows, h);
            },
            Some(r) => {
                lemma_key_in_snapshot(self.table, self.at, key);
                let i = rows.index_of(r);
                assert(rows[i] == r);
                lemma_no_columns(r, shape.rp.len() as int, self.filters@);
                assert forall|j: int| 0 <= j < rows.len() && j != i implies #[trigger] h(rows[j])
                    == Stream::nothing() by {
                    assert(rows[j] != rows[i]);
                }
                lemma_flow_single(rows, h, i);
            },
        }
    }

    /// What a scan reads is what matters to the join.
    proof fn lemma_scan(&self, l: Row)
        requires
            self.wf(),
            !self.by_key,
        ensures
            ({
                let frame = names(self.bindings@);
                flow(
                    self.all_rows().filter(
                        |row: Row|
                            table_takes(
                                row,
                                project(l, self.order@),
                                bounds_model(self.bounds),
                                self.head as int,
                            ),
                    ),
                    |x: Row|
                        sift(
                            self.filters@,
                            frame,
                            x,
                            without(l + x, places_set(self.eliminate@)),
                        ),
                ) == probed(
                    l,
                    self.all_rows(),
                    self.shape(),
                    self.filters@,
                    frame,
                    self.columns(),
                    self.origin,
                )
            }),
    {
        let rows = self.all_rows();
        let frame = names(self.bindings@);
        let columns = self.columns();
        let prefix = project(l, self.order@);
        let shape = self.shape();
        let bounds = bounds_model(self.bounds);
        let head = self.head as int;
        let p = |row: Row| table_takes(row, prefix, bounds, head);
        let g = |x: Row| sift(self.filters@, frame, x, without(l + x, shape.drop));
        let h = |r: Row| probed_row(l, r, shape, self.filters@, frame, columns, self.origin);
        let f = |x: Row|
            if p(x) {
                g(x)
            } else {
                Stream::nothing()
            };
        lemma_flow_filter(rows, p, g);
        assert forall|i: int| 0 <= i < rows.len() implies #[trigger] f(rows[i]) == h(rows[i]) by {
            let r = rows[i];
            assert(rows.contains(r));
            lemma_row_of_key(self.table, self.at, r);
            lemma_met_prefix(l, r, shape, self.origin, self.order@);
            match bounds {
                Some(b) => {
                    lemma_range_match(r, prefix, self.filters@, columns, head);
                },
                None => {
                    if starts_with(r, prefix) {
                        lemma_open_bounds(r, shape.rp.len() as int, self.filters@, columns);
                    }
                },
            }
        }
        lemma_flow_ext(rows, f, h);
    }
}

impl<'a> RowStep for TableProbe<'a> {
    open spec fn takes(&self, row: Row) -> bool {
        self.wf() && in_reach(self.lp@, row.len() as int)
    }

    open spec fn gives(&self, row: Row) -> Stream {
        probed(
            row,
            self.all_rows(),
            self.shape(),
            self.filters@,
            names(self.bindings@),
            self.columns(),
            self.origin,
        )
    }

    fn step(&self, row: &Tuple) -> (r: TupleStream) {
        let ghost frame = names(self.bindings@);
        let ghost l = row.deep_view();
        proof {
            assert(row@.len() == l.len());
        }
        if let (true, Some(origin)) = (self.by_key, &self.origin) {
            proof {
                self.lemma_point(l);
            }
            match self.point_lookup(origin, row) {
                Err(e) => TupleStream::failed(e),
                Ok(None) => TupleStream::nothing(),
                Ok(Some(found)) => {
                    let full = joined(row, &found);
                    let kept = eliminate_from_tuple(full, self.eliminate);
                    sift_row(self.filters, &found, kept, Ghost(frame))
                },
            }
        } else {
            proof {
                lemma_order_bounded(self.order@, self.lp@, self.rp@, row@.len() as int);
                self.lemma_scan(l);
                if self.bounds is Some {
                    assert forall|i: int| 0 <= i < self.rows@.len() implies self.head <= (
                    #[trigger] self.rows@[i])@.len() by {
                        let r = self.rows.deep_view()[i];
                        assert(r == self.rows@[i].deep_view());
                        assert(self.all_rows().contains(r));
                        lemma_row_of_key(self.table, self.at, r);
                    }
                }
            }
            let prefix = pick(row, &self.order);
            let found = scan_part(&self.rows, &prefix, &self.bounds, self.head);
            emit_matches(row, &found, self.filters, self.eliminate, Ghost(frame))
        }
    }
}

/// The rows of a relation at a coordinate are as wide as its columns.
pub open spec fn table_wide(table: FactTable, at: AsOf, w: int) -> bool {
    forall|i: int|
        0 <= i < snapshot(table.model(), at).len() ==> (#[trigger] snapshot(
            table.model(),
            at,
        )[i]).len() == w
}

pub(crate) fn table_prober<'a>(
    table: &'a FactTable,
    at: AsOf,
    bindings: &'a Vec<String>,
    filters: &'a Vec<Expr>,
    lp: &'a Vec<usize>,
    rp: &'a Vec<usize>,
    eliminate: &'a Vec<usize>,
    origin: Option<Origin>,
) -> (r: TableProbe<'a>)
    requires
        table.wf(),
        origin matches Some(o) ==> o.key_len == table.key_len,
        lp@.len() == rp@.len(),
        is_prefix(rp@),
        rp@.len() <= bindings@.len(),
        all_at_place(filters@, names(bindings@)),
    ensures
        r.wf(),
        *r.table == *table,
        r.at == at,
        r.bindings@ == bindings@,
        r.filters@ == filters@,
        r.lp@ == lp@,
        r.rp@ == rp@,
        r.eliminate@ == eliminate@,
        r.origin == origin,
{
    let order = probe_order(lp, rp);
    let key_len: usize = table.key_len;
    let others = if rp.len() <= key_len && key_len <= bindings.len() {
        names_between(bindings, rp.len(), key_len)
    } else {
        Vec::new()
    };
    proof {
        assert(names(others@) =~= probe_columns(
            names(bindings@),
            rp@.len() as int,
            Some(key_len as int),
        ));
    }
    let bounds = probe_bounds(filters, &others);
    let head: usize = rp.len() + others.len();
    let by_key = origin.is_some() && key_len <= rp.len();
    let rows = if by_key {
        Vec::new()
    } else {
        table.skip_scan_all(at)
    };
    TableProbe {
        table,
        at,
        bindings,
        filters,
        lp,
        rp,
        order,
        bounds,
        head,
        rows,
        by_key,
        eliminate,
        origin,
    }
}

impl StoredRA {
    /// Prefix join with the relation as it is now. Where the join columns
    /// cover the key, each left tuple costs one lookup instead of a scan.
    pub fn prefix_join(
        &self,
        left: TupleStream,
        lp: &Vec<usize>,
        rp: &Vec<usize>,
        eliminate: &Vec<usize>,
        table: &FactTable,
    ) -> (r: TupleStream)
        requires
            table.wf(),
            lp@.len() == rp@.len(),
            is_prefix(rp@),
            rp@.len() <= self.bindings@.len(),
            reached(left.deep_view(), lp@),
            all_at_place(self.filters@, names(self.bindings@)),
        ensures
            r.deep_view() == probe_join(
                left.deep_view(),
                snapshot(table.model(), newest()),
                (JoinShape { lp: lp@, rp: rp@, drop: places_set(eliminate@) }),
                self.filters@,
                names(self.bindings@),
                Some(table.key_len as int),
                Some(
                    Origin { relation: self.storage.name, key_len: table.key_len, span: self.span },
                ),
            ),
    {
        let origin = Origin {
            relation: self.storage.name.clone(),
            key_len: table.key_len,
            span: self.span,
        };
        let at = AsOf { valid: i64::MAX, sys: i64::MAX };
        let prober = table_prober(
            table,
            at,
            &self.bindings,
            &self.filters,
            lp,
            rp,
            eliminate,
            Some(origin),
        );
        let ghost shape = JoinShape { lp: lp@, rp: rp@, drop: places_set(eliminate@) };
        let ghost g = |l: Row|
            probed(
                l,
                snapshot(table.model(), newest()),
                shape,
                self.filters@,
                names(self.bindings@),
                probe_columns(
                    names(self.bindings@),
                    shape.rp.len() as int,
                    Some(table.key_len as int),
                ),
                Some(origin),
            );
        proof {
            lemma_through_ext(left.deep_view(), |row: Row| prober.gives(row), g);
            lemma_reached(left.deep_view(), lp@, |row: Row| prober.takes(row));
        }
        pipe(left, &prober)
    }
}

impl StoredWithValidityRA {
    /// Prefix join with the relation as of the coordinate.
    pub fn prefix_join(
        &self,
        left: TupleStream,
        lp: &Vec<usize>,
        rp: &Vec<usize>,
        eliminate: &Vec<usize>,
        table: &FactTable,
    ) -> (r: TupleStream)
        requires
            table.wf(),
            lp@.len() == rp@.len(),
            is_prefix(rp@),
            rp@.len() <= self.bindings@.len(),
            reached(left.deep_view(), lp@),
            all_at_place(self.filters@, names(self.bindings@)),
        ensures
            r.deep_view() == probe_join(
                left.deep_view(),
                snapshot(table.model(), self.as_of),
                (JoinShape { lp: lp@, rp: rp@, drop: places_set(eliminate@) }),
                self.filters@,
                names(self.bindings@),
                Some(table.key_len as int),
                None,
            ),
    {
        let prober = table_prober(
            table,
            self.as_of,
            &self.bindings,
            &self.filters,
            lp,
            rp,
            eliminate,
            None,
        );
        let ghost shape = JoinShape { lp: lp@, rp: rp@, drop: places_set(eliminate@) };
        let ghost g = |l: Row|
            probed(
                l,
                snapshot(table.model(), self.as_of),
                shape,
                self.filters@,
                names(self.bindings@),
                probe_columns(
                    names(self.bindings@),
                    shape.rp.len() as int,
                    Some(table.key_len as int),
                ),
                None,
            );
        proof {
            lemma_through_ext(left.deep_view(), |row: Row| prober.gives(row), g);
            lemma_reached(left.deep_view(), lp@, |row: Row| prober.takes(row));
        }
        pipe(left, &prober)
    }
}

} // verus!
