//! Negation row by row: the left rows that no row on the right agrees with.

use vstd::prelude::*;
use crate::epoch::starts_with;
use crate::history::row_prefix;
use crate::meaning::{
    agree_on_key, first_met, first_missing, keys_match, meeting, met, neg_join, read_failure,
    spared, unmatched, JoinShape, Meeting, Origin,
};
use crate::names::{eliminate_from_tuple, places_set, without};
use crate::order::{is_place, place_of, strictly_sorted, OrderedSet};
use crate::plan::{is_prefix, join_is_prefix};
use crate::probe::{
    in_reach, is_probe_order, lemma_order_bounded, lemma_prefix_fits, lemma_prefix_match,
    lemma_reached, probe_order, reached,
};
use crate::steps::lemma_run;
use crate::stream::{
    lemma_through_ext, pipe, through, QueryError, QueryFault, RowStep, Stream, TupleStream,
};
use crate::table_probe::{lemma_met_key, lemma_met_wide, meet_rows_on, report_short};
use crate::temp_store::{pick, project};
use crate::value::{copy_row, same_row, Row, Tuple};

verus! {

/// Nothing is met exactly where every row differs.
pub proof fn lemma_first_met(l: Row, rows: Seq<Row>, shape: JoinShape, origin: Option<Origin>)
    ensures
        first_met(l, rows, shape, origin) is None <==> (forall|i: int|
            0 <= i < rows.len() ==> met(l, #[trigger] rows[i], shape, origin) is Differ),
        first_met(l, rows, shape, origin) is Some ==> exists|i: int|
            0 <= i < rows.len() && #[trigger] rows[i] == first_met(l, rows, shape, origin)->Some_0
                && !(met(l, rows[i], shape, origin) is Differ),
    decreases rows.len(),
{
    if rows.len() > 0 {
        let rest = rows.drop_last();
        let n = rows.len() - 1;
        lemma_first_met(l, rest, shape, origin);
        assert(rows[n] == rows.last());
        match first_met(l, rest, shape, origin) {
            Some(r) => {
                let i = choose|i: int|
                    0 <= i < rest.len() && #[trigger] rest[i] == r && !(met(
                        l,
                        rest[i],
                        shape,
                        origin,
                    ) is Differ);
                assert(rows[i] == r);
            },
            None => {
                assert forall|i: int| 0 <= i < n implies met(
                    l,
                    #[trigger] rows[i],
                    shape,
                    origin,
                ) is Differ by {
                    assert(rest[i] == rows[i]);
                }
            },
        }
    }
}

/// The first row that does not differ is the one that is met.
proof fn lemma_met_at(l: Row, rows: Seq<Row>, shape: JoinShape, origin: Option<Origin>, at: int)
    requires
        0 <= at < rows.len(),
        forall|i: int| 0 <= i < at ==> met(l, #[trigger] rows[i], shape, origin) is Differ,
        !(met(l, rows[at], shape, origin) is Differ),
    ensures
        first_met(l, rows, shape, origin) == Some(rows[at]),
    decreases rows.len(),
{
    let rest = rows.drop_last();
    if at == rows.len() - 1 {
        assert forall|i: int| 0 <= i < rest.len() implies met(
            l,
            #[trigger] rest[i],
            shape,
            origin,
        ) is Differ by {
            assert(rest[i] == rows[i]);
        }
        lemma_first_met(l, rest, shape, origin);
    } else {
        assert forall|i: int| 0 <= i < at implies met(
            l,
            #[trigger] rest[i],
            shape,
            origin,
        ) is Differ by {
            assert(rest[i] == rows[i]);
        }
        lemma_met_at(l, rest, shape, origin, at);
    }
}

/// Against rows that have the join columns, a left row is spared exactly where
/// none of them agrees with it.
pub proof fn lemma_spared_wide(l: Row, rows: Seq<Row>, shape: JoinShape, origin: Option<Origin>)
    requires
        shape.lp.len() == shape.rp.len(),
        forall|i: int|
            0 <= i < rows.len() ==> in_reach(shape.rp, (#[trigger] rows[i]).len() as int),
    ensures
        spared(l, rows, shape, origin) == (if unmatched(l, rows, shape) {
            Stream::one(without(l, shape.drop))
        } else {
            Stream::nothing()
        }),
{
    assert forall|i: int| 0 <= i < rows.len() implies (met(
        l,
        #[trigger] rows[i],
        shape,
        origin,
    ) is Differ) == !keys_match(l, shape.lp, rows[i], shape.rp) && !(met(
        l,
        rows[i],
        shape,
        origin,
    ) is Short) by {
        lemma_met_wide(l, rows[i], shape, origin);
    }
    lemma_first_met(l, rows, shape, origin);
    match first_met(l, rows, shape, origin) {
        None => {
            assert(unmatched(l, rows, shape));
        },
        Some(r) => {
            let i = choose|i: int|
                0 <= i < rows.len() && #[trigger] rows[i] == r && !(met(
                    l,
                    rows[i],
                    shape,
                    origin,
                ) is Differ);
            assert(keys_match(l, shape.lp, rows[i], shape.rp));
        },
    }
}

/// A row without a missing place has all of them.
pub proof fn lemma_none_missing(places: Seq<usize>, len: int, n: int)
    requires
        0 <= n <= places.len(),
    ensures
        first_missing(places, len, n) is None <==> (forall|j: int|
            0 <= j < n ==> #[trigger] places[j] < len),
    decreases n,
{
    if n > 0 {
        lemma_none_missing(places, len, n - 1);
    }
}

proof fn lemma_missing_stays(places: Seq<usize>, len: int, k: int, n: int)
    requires
        0 <= k <= n,
        first_missing(places, len, k) is Some,
    ensures
        first_missing(places, len, n) == first_missing(places, len, k),
    decreases n - k,
{
    if k < n {
        lemma_missing_stays(places, len, k + 1, n);
    }
}

/// Reading the join columns fails on no rows that have them.
pub proof fn lemma_readable(rows: Seq<Row>, rp: Seq<usize>, origin: Origin)
    ensures
        read_failure(rows, rp, origin) is None <==> (forall|i: int|
            0 <= i < rows.len() ==> in_reach(rp, (#[trigger] rows[i]).len() as int)),
    decreases rows.len(),
{
    if rows.len() > 0 {
        let rest = rows.drop_last();
        lemma_readable(rest, rp, origin);
        lemma_none_missing(rp, rows.last().len() as int, rp.len() as int);
        assert(rows[rows.len() - 1] == rows.last());
        assert(forall|i: int| 0 <= i < rest.len() ==> rest[i] == #[trigger] rows[i]);
        if read_failure(rows, rp, origin) is None {
            assert forall|i: int| 0 <= i < rows.len() implies in_reach(
                rp,
                (#[trigger] rows[i]).len() as int,
            ) by {
                if i < rest.len() {
                    assert(in_reach(rp, rest[i].len() as int));
                }
            }
        } else if read_failure(rest, rp, origin) is Some {
            let i = choose|i: int|
                0 <= i < rest.len() && !in_reach(rp, (#[trigger] rest[i]).len() as int);
            assert(!in_reach(rp, rows[i].len() as int));
        } else {
            assert(!in_reach(rp, rows[rows.len() - 1].len() as int));
        }
    }
}

proof fn lemma_failure_stays(rows: Seq<Row>, rp: Seq<usize>, origin: Origin, k: int)
    requires
        0 <= k <= rows.len(),
        read_failure(rows.take(k), rp, origin) is Some,
    ensures
        read_failure(rows, rp, origin) == read_failure(rows.take(k), rp, origin),
    decreases rows.len() - k,
{
    if k == rows.len() {
        assert(rows.take(k) =~= rows);
    } else {
        assert(rows.take(k + 1).drop_last() =~= rows.take(k));
        lemma_failure_stays(rows, rp, origin, k + 1);
    }
}

/// The first place that a row of the given length does not have.
pub(crate) fn missing_place(places: &Vec<usize>, len: usize) -> (r: Option<usize>)
    ensures
        r == first_missing(places@, len as int, places@.len() as int),
        r is None ==> in_reach(places@, len as int),
{
    let mut i: usize = 0;
    while i < places.len()
        invariant
            i <= places@.len(),
            first_missing(places@, len as int, i as int) is None,
        decreases places.len() - i,
    {
        if places[i] >= len {
            proof {
                lemma_missing_stays(places@, len as int, i + 1, places@.len() as int);
            }
            return Some(places[i]);
        }
        i = i + 1;
    }
    proof {
        lemma_none_missing(places@, len as int, places@.len() as int);
    }
    None
}

/// Negation against the join values of the right rows.
struct NegSetStep<'a> {
    vals: OrderedSet<Tuple>,
    lp: &'a Vec<usize>,
    eliminate: &'a Vec<usize>,
}

impl<'a> RowStep for NegSetStep<'a> {
    closed spec fn takes(&self, row: Row) -> bool {
        self.vals.wf() && in_reach(self.lp@, row.len() as int)
    }

    closed spec fn gives(&self, row: Row) -> Stream {
        if self.vals.deep_view().contains(project(row, self.lp@)) {
            Stream::nothing()
        } else {
            Stream::one(without(row, places_set(self.eliminate@)))
        }
    }

    fn step(&self, row: &Tuple) -> (r: TupleStream) {
        proof {
            assert(row@.len() == row.deep_view().len());
        }
        let vals = pick(row, self.lp);
        if self.vals.contains(&vals) {
            TupleStream::nothing()
        } else {
            TupleStream::one(eliminate_from_tuple(copy_row(row), self.eliminate))
        }
    }
}

/// The values of rows on the join columns. A stored row that ends before one
/// of them is an error.
fn join_values(rows: &Vec<Tuple>, rp: &Vec<usize>, origin: &Option<Origin>) -> (r: Result<
    OrderedSet<Tuple>,
    QueryError,
>)
    requires
        origin is None ==> forall|i: int|
            0 <= i < rows.deep_view().len() ==> in_reach(
                rp@,
                (#[trigger] rows.deep_view()[i]).len() as int,
            ),
    ensures
        match r {
            Ok(vals) => {
                &&& vals.wf()
                &&& origin matches Some(o) ==> read_failure(rows.deep_view(), rp@, *o) is None
                &&& forall|m: Row| #[trigger]
                    vals.deep_view().contains(m) == exists|j: int|
                        0 <= j < rows.deep_view().len() && m == project(
                            #[trigger] rows.deep_view()[j],
                            rp@,
                        )
            },
            Err(e) => origin matches Some(o) && read_failure(rows.deep_view(), rp@, *o)
                == Some(e.deep_view()),
        },
{
    let ghost all = rows.deep_view();
    let mut vals: OrderedSet<Tuple> = OrderedSet::new();
    let mut i: usize = 0;
    proof {
        assert(all.len() == rows@.len());
        assert(all.take(0) =~= Seq::<Row>::empty());
    }
    while i < rows.len()
        invariant
            i <= rows@.len(),
            all == rows.deep_view(),
            all.len() == rows@.len(),
            origin is None ==> forall|i: int|
                0 <= i < all.len() ==> in_reach(rp@, (#[trigger] all[i]).len() as int),
            origin matches Some(o) ==> read_failure(all.take(i as int), rp@, *o) is None,
            vals.wf(),
            forall|m: Row| #[trigger]
                vals.deep_view().contains(m) == exists|j: int|
                    0 <= j < i && m == project(#[trigger] all[j], rp@),
        decreases rows.len() - i,
    {
        let ghost before = vals.deep_view();
        let row = &rows[i];
        proof {
            assert(all[i as int] == row.deep_view());
            assert(all[i as int].len() == row@.len());
            assert(all.take(i + 1).drop_last() =~= all.take(i as int));
            assert(all.take(i + 1).last() == all[i as int]);
        }
        if let (Some(index), Some(o)) = (missing_place(rp, row.len()), origin) {
            proof {
                lemma_failure_stays(all, rp@, *o, i + 1);
            }
            return Err(report_short(o, row, index));
        }
        proof {
            if origin is Some {
                lemma_none_missing(rp@, row@.len() as int, rp@.len() as int);
            }
        }
        let picked = pick(row, rp);
        let ghost new = picked.deep_view();
        vals.insert(picked);
        proof {
            assert forall|m: Row| #[trigger] vals.deep_view().contains(m) == exists|j: int|
                0 <= j < i + 1 && m == project(#[trigger] all[j], rp@) by {
                if before.contains(m) {
                    let j = choose|j: int| 0 <= j < i && m == project(#[trigger] all[j], rp@);
                    assert(m == project(all[j], rp@));
                }
                if m == new {
                    assert(m == project(all[i as int], rp@));
                }
                if exists|j: int| 0 <= j < i + 1 && m == project(#[trigger] all[j], rp@) {
                    let j = choose|j: int| 0 <= j < i + 1 && m == project(#[trigger] all[j], rp@);
                    if j < i {
                        assert(before.contains(m));
                    }
                }
            }
        }
        i = i + 1;
    }
    proof {
        assert(all.take(i as int) =~= all);
    }
    Ok(vals)
}

/// The left rows that no given row agrees with, by the set of their join
/// values. Where the rows are stored, one that ends before a join column fails
/// the negation.
pub fn neg_join_rows(
    left: TupleStream,
    rows: &Vec<Tuple>,
    lp: &Vec<usize>,
    rp: &Vec<usize>,
    eliminate: &Vec<usize>,
    origin: &Option<Origin>,
) -> (r: Result<TupleStream, QueryError>)
    requires
        lp@.len() == rp@.len(),
        reached(left.deep_view(), lp@),
        origin is None ==> forall|i: int|
            0 <= i < rows.deep_view().len() ==> in_reach(
                rp@,
                (#[trigger] rows.deep_view()[i]).len() as int,
            ),
    ensures
        match r {
            Ok(s) => {
                &&& origin matches Some(o) ==> read_failure(rows.deep_view(), rp@, *o) is None
                &&& s.deep_view() == through(
                    left.deep_view(),
                    |l: Row|
                        spared(
                            l,
                            rows.deep_view(),
                            (JoinShape { lp: lp@, rp: rp@, drop: places_set(eliminate@) }),
                            *origin,
                        ),
                )
            },
            Err(e) => origin matches Some(o) && read_failure(rows.deep_view(), rp@, *o)
                == Some(e.deep_view()),
        },
{
    let vals = join_values(rows, rp, origin)?;
    let step = NegSetStep { vals, lp, eliminate };
    let ghost all = rows.deep_view();
    proof {
        if origin is Some {
            lemma_readable(all, rp@, origin->Some_0);
        }
        let shape = JoinShape { lp: lp@, rp: rp@, drop: places_set(eliminate@) };
        let f = |row: Row| step.gives(row);
        let g = |l: Row| spared(l, all, shape, *origin);
        let items = left.deep_view().items;
        assert forall|i: int| 0 <= i < items.len() && (#[trigger] items[i]) is Ok implies f(
            items[i]->Ok_0,
        ) == g(items[i]->Ok_0) by {
            let l = items[i]->Ok_0;
            lemma_spared_wide(l, all, shape, *origin);
            if step.vals.deep_view().contains(project(l, lp@)) {
                let j = choose|j: int|
                    0 <= j < all.len() && project(l, lp@) == project(#[trigger] all[j], rp@);
                assert(keys_match(l, shape.lp, all[j], shape.rp));
                assert(!unmatched(l, all, shape));
            } else {
                assert forall|j: int| 0 <= j < all.len() implies !keys_match(
                    l,
                    shape.lp,
                    #[trigger] all[j],
                    shape.rp,
                ) by {}
                assert(unmatched(l, all, shape));
            }
        }
        lemma_through_ext(left.deep_view(), f, g);
        lemma_reached(left.deep_view(), lp@, |row: Row| step.takes(row));
    }
    Ok(pipe(left, &step))
}

/// A row is long enough to be found: a stored one has its key, any other one
/// has the join columns.
pub open spec fn findable(r: Row, rp: Seq<usize>, origin: Option<Origin>) -> bool {
    match origin {
        Some(o) => o.key_len <= r.len(),
        None => in_reach(rp, r.len() as int),
    }
}

/// The number of leading columns by which rows are found.
pub open spec fn found_by(rp: Seq<usize>, origin: Option<Origin>) -> int {
    match origin {
        Some(o) => if o.key_len <= rp.len() {
            o.key_len as int
        } else {
            rp.len() as int
        },
        None => rp.len() as int,
    }
}

/// A row is met as it compares, if it begins with the values it is found by,
/// and differs otherwise.
proof fn lemma_found(l: Row, r: Row, shape: JoinShape, origin: Option<Origin>, order: Seq<usize>)
    requires
        shape.lp.len() == shape.rp.len(),
        is_prefix(shape.rp),
        is_probe_order(order, shape.lp, shape.rp),
        findable(r, shape.rp, origin),
    ensures
        met(l, r, shape, origin) == (if starts_with(
            r,
            project(l, order).take(found_by(shape.rp, origin)),
        ) {
            meeting(l, shape.lp, r, shape.rp, shape.rp.len() as int)
        } else {
            Meeting::Differ
        }),
{
    let n = shape.rp.len() as int;
    let prefix = project(l, order);
    match origin {
        Some(o) => {
            lemma_met_key(l, r, shape, o.key_len as int, found_by(shape.rp, origin), order);
        },
        None => {
            lemma_prefix_fits(shape.rp, r.len() as int);
            lemma_prefix_match(l, shape.lp, r, shape.rp, order);
            assert(prefix.take(n) =~= prefix);
            let o = Origin {
                relation: arbitrary(),
                key_len: 0,
                span: crate::expr::SourceSpan { start: 0, len: 0 },
            };
            lemma_met_wide(l, r, shape, Some(o));
            assert(agree_on_key(l, shape.lp, r, shape.rp, 0));
        },
    }
}

/// Negation against sorted rows, by the place of the left row's prefix.
struct NegPrefixStep<'a> {
    rows: &'a Vec<Tuple>,
    lp: &'a Vec<usize>,
    rp: &'a Vec<usize>,
    order: Vec<usize>,
    eliminate: &'a Vec<usize>,
    origin: &'a Option<Origin>,
}

impl<'a> NegPrefixStep<'a> {
    closed spec fn shape(&self) -> JoinShape {
        JoinShape { lp: self.lp@, rp: self.rp@, drop: places_set(self.eliminate@) }
    }
}

impl<'a> RowStep for NegPrefixStep<'a> {
    closed spec fn takes(&self, row: Row) -> bool {
        &&& strictly_sorted::<Tuple>(self.rows.deep_view())
        &&& in_reach(self.lp@, row.len() as int)
        &&& self.lp@.len() == self.rp@.len()
        &&& is_prefix(self.rp@)
        &&& is_probe_order(self.order@, self.lp@, self.rp@)
        &&& forall|i: int|
            0 <= i < self.rows.deep_view().len() ==> findable(
                #[trigger] self.rows.deep_view()[i],
                self.rp@,
                *self.origin,
            )
    }

    closed spec fn gives(&self, row: Row) -> Stream {
        spared(row, self.rows.deep_view(), self.shape(), *self.origin)
    }

    fn step(&self, row: &Tuple) -> (r: TupleStream) {
        let ghost l = row.deep_view();
        let ghost all = self.rows.deep_view();
        let ghost shape = self.shape();
        proof {
            assert(row@.len() == l.len());
            assert(all.len() == self.rows@.len());
            lemma_order_bounded(self.order@, self.lp@, self.rp@, row@.len() as int);
        }
        let whole = pick(row, &self.order);
        let k: usize = match self.origin {
            Some(o) => if o.key_len <= whole.len() {
                o.key_len
            } else {
                whole.len()
            },
            None => whole.len(),
        };
        proof {
            assert(whole.deep_view().len() == whole@.len());
        }
        let prefix = row_prefix(&whole, k);
        let ghost key = prefix.deep_view();
        let (_, place) = place_of(self.rows, &prefix);
        let mut at: usize = place;
        proof {
            assert(key.len() == prefix@.len());
            assert(key == project(l, self.order@).take(found_by(self.rp@, *self.origin)));
            assert forall|j: int| 0 <= j < place implies met(
                l,
                #[trigger] all[j],
                shape,
                *self.origin,
            ) is Differ by {
                lemma_run(all, key, place as int, j, j);
                lemma_found(l, all[j], shape, *self.origin, self.order@);
            }
        }
        while at < self.rows.len()
            invariant
                place <= at <= self.rows@.len(),
                l == row.deep_view(),
                all == self.rows.deep_view(),
                all.len() == self.rows@.len(),
                shape == self.shape(),
                self.takes(l),
                in_reach(self.lp@, row@.len() as int),
                key == prefix.deep_view(),
                key.len() == prefix@.len(),
                key == project(l, self.order@).take(found_by(self.rp@, *self.origin)),
                is_place::<Tuple>(all, key, place as int),
                forall|j: int|
                    0 <= j < at ==> met(l, #[trigger] all[j], shape, *self.origin) is Differ,
            decreases self.rows.len() - at,
        {
            let found = &self.rows[at];
            proof {
                assert(all[at as int] == found.deep_view());
                assert(all[at as int].len() == found@.len());
                assert(findable(all[at as int], self.rp@, *self.origin));
                lemma_found(l, all[at as int], shape, *self.origin, self.order@);
            }
            let begins = if prefix.len() <= found.len() {
                let head = row_prefix(found, prefix.len());
                same_row(&head, &prefix)
            } else {
                false
            };
            if !begins {
                proof {
                    assert forall|j: int| 0 <= j < all.len() implies met(
                        l,
                        #[trigger] all[j],
                        shape,
                        *self.origin,
                    ) is Differ by {
                        if j >= at {
                            lemma_run(all, key, place as int, at as int, j);
                            assert(findable(all[j], self.rp@, *self.origin));
                            lemma_found(l, all[j], shape, *self.origin, self.order@);
                        }
                    }
                    lemma_first_met(l, all, shape, *self.origin);
                }
                return TupleStream::one(eliminate_from_tuple(copy_row(row), self.eliminate));
            }
            match meet_rows_on(row, self.lp, found, self.rp) {
                Meeting::Agree => {
                    proof {
                        lemma_met_at(l, all, shape, *self.origin, at as int);
                    }
                    return TupleStream::nothing();
                },
                Meeting::Differ => {},
                Meeting::Short(index) => {
                    proof {
                        lemma_met_at(l, all, shape, *self.origin, at as int);
                        if self.origin is None {
                            lemma_met_wide(l, all[at as int], shape, *self.origin);
                        }
                    }
                    if let Some(o) = self.origin {
                        return TupleStream::failed(report_short(o, found, index));
                    }
                },
            }
            at = at + 1;
        }
        proof {
            lemma_first_met(l, all, shape, *self.origin);
        }
        TupleStream::one(eliminate_from_tuple(copy_row(row), self.eliminate))
    }
}

/// The left rows that no row of a sorted scan agrees with: by prefix where the
/// join columns are a leading run, else by the set of join values. A stored
/// row that ends before a join column fails the negation: where it is found by
/// a left row, or, where the join columns are read from every row, at once.
pub fn neg_join_scan(
    left: TupleStream,
    rows: &Vec<Tuple>,
    lp: &Vec<usize>,
    rp: &Vec<usize>,
    eliminate: &Vec<usize>,
    origin: &Option<Origin>,
) -> (r: Result<TupleStream, QueryError>)
    requires
        strictly_sorted::<Tuple>(rows.deep_view()),
        lp@.len() == rp@.len(),
        reached(left.deep_view(), lp@),
        forall|i: int|
            0 <= i < rows.deep_view().len() ==> findable(
                #[trigger] rows.deep_view()[i],
                rp@,
                *origin,
            ),
    ensures
        ({
            let shape = JoinShape { lp: lp@, rp: rp@, drop: places_set(eliminate@) };
            let want = neg_join(left.deep_view(), rows.deep_view(), shape, *origin);
            match r {
                Ok(s) => want == Ok::<Stream, QueryFault>(s.deep_view()),
                Err(e) => want == Err::<Stream, QueryFault>(e.deep_view()),
            }
        }),
{
    if join_is_prefix(rp) {
        let order = probe_order(lp, rp);
        let step = NegPrefixStep { rows, lp, rp, order, eliminate, origin };
        proof {
            let shape = JoinShape { lp: lp@, rp: rp@, drop: places_set(eliminate@) };
            let all = rows.deep_view();
            lemma_through_ext(
                left.deep_view(),
                |row: Row| step.gives(row),
                |l: Row| spared(l, all, shape, *origin),
            );
            lemma_reached(left.deep_view(), lp@, |row: Row| step.takes(row));
        }
        Ok(pipe(left, &step))
    } else {
        proof {
            if origin is None {
                assert forall|i: int| 0 <= i < rows.deep_view().len() implies in_reach(
                    rp@,
                    (#[trigger] rows.deep_view()[i]).len() as int,
                ) by {
                    assert(findable(rows.deep_view()[i], rp@, *origin));
                }
            }
        }
        neg_join_rows(left, rows, lp, rp, eliminate, origin)
    }
}

} // verus!
