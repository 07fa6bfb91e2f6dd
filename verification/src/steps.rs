//! The operators row by row: joins with inline and with materialized rows,
//! negation, reordering, filtering, unification and search.

use vstd::prelude::*;
use crate::epoch::{lemma_ordered, starts_with};
use crate::expr::{eval_row, Expr, SourceSpan};
use crate::history::{joined, row_prefix};
use crate::meaning::{
    back_places, fixed_join, keys_match, materialized, paired, rest_places, searchable,
    store_places, unified, JoinShape, SearchIndex,
};
use crate::names::{eliminate_from_tuple, names, places_set, without, Name};
use crate::order::{is_place, place_of, strictly_sorted, OrderedSet};
use crate::plan::{InlineFixedRA, SearchKind};
use crate::probe::{all_at_place, in_reach, lemma_reached, reached};
use crate::resolve::{eval_named, lemma_placed, placed};
use crate::stream::{
    flow, lemma_flow_step, lemma_through_ext, pipe, QueryError, RowStep, Stream, TupleStream,
};
use crate::temp_store::{pick, project};
use crate::value::{
    copy_row, copy_rows, row_before, same_row, same_value, DataValue, Row, Tuple, Val,
};

verus! {

/// Whether two rows agree on the join columns.
pub fn rows_agree(l: &Tuple, lp: &Vec<usize>, r: &Tuple, rp: &Vec<usize>) -> (b: bool)
    requires
        in_reach(lp@, l@.len() as int),
        in_reach(rp@, r@.len() as int),
    ensures
        b == keys_match(l.deep_view(), lp@, r.deep_view(), rp@),
{
    let a = pick(l, lp);
    let b = pick(r, rp);
    same_row(&a, &b)
}

/// The join with inline rows.
struct FixedStep<'a> {
    rows: Vec<Tuple>,
    lp: &'a Vec<usize>,
    rp: &'a Vec<usize>,
    eliminate: &'a Vec<usize>,
}

impl<'a> FixedStep<'a> {
    spec fn shape(&self) -> JoinShape {
        JoinShape { lp: self.lp@, rp: self.rp@, drop: places_set(self.eliminate@) }
    }
}

impl<'a> RowStep for FixedStep<'a> {
    closed spec fn takes(&self, row: Row) -> bool {
        &&& in_reach(self.lp@, row.len() as int)
        &&& forall|i: int|
            0 <= i < self.rows@.len() ==> in_reach(
                self.rp@,
                (#[trigger] self.rows@[i])@.len() as int,
            )
    }

    closed spec fn gives(&self, row: Row) -> Stream {
        paired(row, self.rows.deep_view(), self.shape())
    }

    fn step(&self, row: &Tuple) -> (r: TupleStream) {
        let ghost l = row.deep_view();
        let ghost rows = self.rows.deep_view();
        let ghost shape = self.shape();
        let ghost g = |r: Row|
            if keys_match(l, shape.lp, r, shape.rp) {
                Stream::one(without(l + r, shape.drop))
            } else {
                Stream::nothing()
            };
        let mut out = TupleStream::nothing();
        let mut i: usize = 0;
        proof {
            assert(row@.len() == l.len());
            assert(rows.len() == self.rows@.len());
            assert(rows.take(0) =~= Seq::<Row>::empty());
        }
        while i < self.rows.len()
            invariant
                i <= self.rows@.len(),
                l == row.deep_view(),
                rows == self.rows.deep_view(),
                rows.len() == self.rows@.len(),
                shape == self.shape(),
                g == (|r: Row|
                    if keys_match(l, shape.lp, r, shape.rp) {
                        Stream::one(without(l + r, shape.drop))
                    } else {
                        Stream::nothing()
                    }),
                in_reach(self.lp@, row@.len() as int),
                forall|i: int|
                    0 <= i < self.rows@.len() ==> in_reach(
                        self.rp@,
                        (#[trigger] self.rows@[i])@.len() as int,
                    ),
                out.deep_view() == flow(rows.take(i as int), g),
            decreases self.rows.len() - i,
        {
            proof {
                lemma_flow_step(rows, g, i as int);
                assert(rows[i as int] == self.rows@[i as int].deep_view());
            }
            let other = &self.rows[i];
            if rows_agree(row, self.lp, other, self.rp) {
                let full = joined(row, other);
                let kept = eliminate_from_tuple(full, self.eliminate);
                out.append(TupleStream::one(kept));
            } else {
                out.append(TupleStream::nothing());
            }
            i = i + 1;
        }
        proof {
            assert(rows.take(i as int) =~= rows);
        }
        out
    }
}

impl InlineFixedRA {
    /// The rows, without the columns that are shed.
    pub fn shed_rows(&self) -> (r: Vec<Tuple>)
        ensures
            r.deep_view() == self.rows(),
    {
        let indices = crate::names::get_eliminate_indices(&self.bindings, &self.to_eliminate);
        let ghost want = self.rows();
        let mut out: Vec<Tuple> = Vec::new();
        let mut i: usize = 0;
        proof {
            assert(out.deep_view() =~= want.take(0));
        }
        while i < self.data.len()
            invariant
                i <= self.data@.len(),
                want == self.rows(),
                places_set(indices@) == crate::names::gone_at(
                    names(self.bindings@),
                    crate::names::name_set(self.to_eliminate@),
                ),
                out.deep_view() == want.take(i as int),
            decreases self.data.len() - i,
        {
            let ghost prev = out.deep_view();
            let row = eliminate_from_tuple(copy_row(&self.data[i]), &indices);
            let ghost m = row.deep_view();
            out.push(row);
            proof {
                assert(m == want[i as int]);
                assert(out.deep_view() =~= prev.push(m));
                assert(want.take(i + 1) =~= prev.push(m));
            }
            i = i + 1;
        }
        proof {
            assert(want.take(i as int) =~= want);
        }
        out
    }

    /// The join of a stream with these rows.
    pub fn join(
        &self,
        left: TupleStream,
        lp: &Vec<usize>,
        rp: &Vec<usize>,
        eliminate: &Vec<usize>,
    ) -> (r: TupleStream)
        requires
            reached(left.deep_view(), lp@),
            forall|i: int|
                0 <= i < self.rows().len() ==> in_reach(
                    rp@,
                    (#[trigger] self.rows()[i]).len() as int,
                ),
        ensures
            r.deep_view() == fixed_join(
                left.deep_view(),
                self.rows(),
                (JoinShape { lp: lp@, rp: rp@, drop: places_set(eliminate@) }),
            ),
    {
        if self.data.len() == 0 {
            return TupleStream::nothing();
        }
        let rows = self.shed_rows();
        let step = FixedStep { rows, lp, rp, eliminate };
        proof {
            assert(rows.deep_view().len() == rows@.len());
            assert forall|i: int| 0 <= i < rows@.len() implies in_reach(
                rp@,
                (#[trigger] rows@[i])@.len() as int,
            ) by {
                assert(rows.deep_view()[i] == rows@[i].deep_view());
                assert(rows@[i]@.len() == rows@[i].deep_view().len());
            }
            let shape = JoinShape { lp: lp@, rp: rp@, drop: places_set(eliminate@) };
            let all = self.rows();
            lemma_through_ext(
                left.deep_view(),
                |row: Row| step.gives(row),
                |l: Row| paired(l, all, shape),
            );
            lemma_reached(left.deep_view(), lp@, |row: Row| step.takes(row));
        }
        pipe(left, &step)
    }
}

/// The places in the order in which a materialized side keeps its columns.
pub fn store_order(rp: &Vec<usize>, width: usize) -> (r: Vec<usize>)
    ensures
        r@ == store_places(rp@, width as int),
{
    let mut out: Vec<usize> = rp.clone();
    let mut i: usize = 0;
    proof {
        assert(out@ =~= rp@ + rest_places(rp@, 0));
    }
    while i < width
        invariant
            i <= width,
            out@ == rp@ + rest_places(rp@, i as int),
        decreases width - i,
    {
        if !crate::names::has_index(rp, i) {
            out.push(i);
            proof {
                assert(out@ =~= rp@ + rest_places(rp@, i + 1));
            }
        }
        i = i + 1;
    }
    out
}

/// Every column has its place in a materialized side, and every place holds
/// a column.
pub proof fn lemma_store_places(rp: Seq<usize>, width: int)
    requires
        0 <= width <= usize::MAX,
        in_reach(rp, width),
    ensures
        in_reach(store_places(rp, width), width),
        forall|c: usize| c < width ==> #[trigger] store_places(rp, width).contains(c),
        width <= store_places(rp, width).len(),
{
    lemma_rest_places(rp, width);
    let rest = rest_places(rp, width);
    let all = store_places(rp, width);
    assert forall|c: usize| c < width implies #[trigger] all.contains(c) by {
        if rp.contains(c) {
            let i = rp.index_of(c);
            assert(all[i] == c);
        } else {
            assert(rest.contains(c));
            let i = rest.index_of(c);
            assert(all[rp.len() + i] == c);
        }
    }
    assert forall|j: int| 0 <= j < all.len() implies #[trigger] all[j] < width by {
        if j < rp.len() {
            assert(all[j] == rp[j]);
        } else {
            assert(all[j] == rest[j - rp.len()]);
            assert(rest.contains(rest[j - rp.len()]));
        }
    }
    let ints = Seq::new(all.len(), |i: int| all[i] as int);
    let range = vstd::set_lib::set_int_range(0, width);
    vstd::set_lib::lemma_int_range(0, width);
    vstd::seq_lib::seq_to_set_is_finite(ints);
    assert forall|x: int| range.contains(x) implies ints.to_set().contains(x) by {
        assert(all.contains(x as usize));
        let i = all.index_of(x as usize);
        assert(ints[i] == x);
    }
    vstd::set_lib::lemma_len_subset(range, ints.to_set());
    ints.lemma_cardinality_of_set();
}

proof fn lemma_rest_places(rp: Seq<usize>, n: int)
    requires
        0 <= n <= usize::MAX,
    ensures
        forall|c: usize| #[trigger]
            rest_places(rp, n).contains(c) <==> c < n && !rp.contains(c),
    decreases n,
{
    if n > 0 {
        lemma_rest_places(rp, n - 1);
        let before = rest_places(rp, n - 1);
        let now = rest_places(rp, n);
        assert forall|c: usize| #[trigger] now.contains(c) <==> c < n && !rp.contains(c) by {
            if !rp.contains((n - 1) as usize) {
                assert(now == before.push((n - 1) as usize));
                if before.contains(c) {
                    assert(now[before.index_of(c)] == c);
                }
                if c == n - 1 {
                    assert(now[before.len() as int] == c);
                }
                if now.contains(c) && c != n - 1 {
                    assert(before[now.index_of(c)] == c);
                }
            }
        }
    }
}

/// Where each column stands in a materialized side.
pub(crate) fn back_order(store: &Vec<usize>, width: usize, Ghost(rp): Ghost<Seq<usize>>) -> (r: Vec<usize>)
    requires
        store@ == store_places(rp, width as int),
        in_reach(rp, width as int),
    ensures
        r@ == back_places(rp, width as int),
        in_reach(r@, store@.len() as int),
{
    let mut out: Vec<usize> = Vec::new();
    let mut c: usize = 0;
    proof {
        lemma_store_places(rp, width as int);
    }
    while c < width
        invariant
            c <= width,
            store@ == store_places(rp, width as int),
            forall|x: usize| x < width ==> #[trigger] store@.contains(x),
            out@ == back_places(rp, width as int).take(c as int),
            in_reach(out@, store@.len() as int),
        decreases width - c,
    {
        proof {
            assert(store@.contains(c));
        }
        let n: usize = store.len();
        let mut i: usize = 0;
        while store[i] != c
            invariant
                store@.contains(c),
                n == store@.len(),
                i < n,
                forall|j: int| 0 <= j < i ==> store@[j] != c,
            decreases store@.len() - i,
        {
            i = i + 1;
            proof {
                let k = store@.index_of(c);
                assert(store@[k] == c);
            }
        }
        let ghost prev = out@;
        out.push(i);
        proof {
            crate::names::lemma_first_index(store@, c, i as int);
            assert(out@ =~= back_places(rp, width as int).take(c + 1));
        }
        c = c + 1;
    }
    proof {
        assert(out@ =~= back_places(rp, width as int));
    }
    out
}

/// Putting the columns of a row aside and back gives the row.
pub proof fn law_materialized_rows_come_back(row: Row, rp: Seq<usize>)
    requires
        row.len() <= usize::MAX,
        store_places(rp, row.len() as int).len() <= usize::MAX,
        in_reach(rp, row.len() as int),
    ensures
        project(
            project(row, store_places(rp, row.len() as int)),
            back_places(rp, row.len() as int),
        ) == row,
{
    let w = row.len() as int;
    let store = store_places(rp, w);
    let back = back_places(rp, w);
    lemma_store_places(rp, w);
    assert forall|c: int| 0 <= c < w implies project(project(row, store), back)[c] == row[c] by {
        assert(store.contains(c as usize));
        crate::names::lemma_first_found(store, c as usize);
    }
    assert(project(project(row, store), back) =~= row);
}

/// The join with materialized rows.
pub struct MatStep<'a> {
    /// The rows, join columns first, in row order.
    pub mat: Vec<Tuple>,
    pub lp: &'a Vec<usize>,
    /// Where each column stands in a row.
    pub back: Vec<usize>,
    pub eliminate: &'a Vec<usize>,
}

/// What comes of a left row and materialized rows with the columns back in
/// their places.
pub open spec fn mat_step(
    l: Row,
    mat: Seq<Row>,
    lp: Seq<usize>,
    back: Seq<usize>,
    drop: Set<int>,
) -> Stream {
    flow(
        mat,
        |m: Row|
            if starts_with(m, project(l, lp)) {
                Stream::one(without(l + project(m, back), drop))
            } else {
                Stream::nothing()
            },
    )
}

/// The key of a left row, and the place of the first materialized row that
/// is not before it.
pub fn build_mat_range_iter(mat: &Vec<Tuple>, lp: &Vec<usize>, left: &Tuple) -> (r: (Tuple, usize))
    requires
        strictly_sorted::<Tuple>(mat.deep_view()),
        in_reach(lp@, left@.len() as int),
    ensures
        r.0.deep_view() == project(left.deep_view(), lp@),
        is_place::<Tuple>(mat.deep_view(), r.0.deep_view(), r.1 as int),
{
    let prefix = pick(left, lp);
    let (_, at) = place_of(mat, &prefix);
    (prefix, at)
}

/// A row that begins with another is not before it.
pub proof fn lemma_starts_not_before(row: Row, prefix: Row)
    requires
        starts_with(row, prefix),
    ensures
        !row_before(row, prefix),
    decreases prefix.len(),
{
    if prefix.len() > 0 {
        assert(row.take(prefix.len() as int)[0] == prefix[0]);
        assert(row.drop_first().take(prefix.len() - 1) =~= row.take(
            prefix.len() as int,
        ).drop_first());
        lemma_starts_not_before(row.drop_first(), prefix.drop_first());
    }
}

/// In sorted rows those that begin with a prefix stand together, from the
/// prefix's own place on.
pub proof fn lemma_run(mat: Seq<Row>, prefix: Row, at: int, i: int, j: int)
    requires
        strictly_sorted::<Tuple>(mat),
        is_place::<Tuple>(mat, prefix, at),
        0 <= i < mat.len(),
        0 <= j < mat.len(),
    ensures
        i < at ==> !starts_with(mat[i], prefix),
        at <= i <= j && !starts_with(mat[i], prefix) ==> !starts_with(mat[j], prefix),
{
    crate::value::lemma_rows_sorted(mat);
    if i < at {
        assert(<Tuple as crate::order::Total>::before(mat[i], prefix));
        if starts_with(mat[i], prefix) {
            lemma_starts_not_before(mat[i], prefix);
        }
    }
    if at <= i < j && starts_with(mat[j], prefix) {
        assert(!<Tuple as crate::order::Total>::before(mat[i], prefix));
        assert(row_before(mat[i], mat[j]));
        let none = Seq::<Val>::empty();
        let tail = mat[j].skip(prefix.len() as int);
        assert(prefix + none =~= prefix);
        assert(mat[j] =~= prefix + tail);
        crate::probe::lemma_between_prefix(mat[i], prefix, none, tail);
    }
}

impl<'a> RowStep for MatStep<'a> {
    open spec fn takes(&self, row: Row) -> bool {
        &&& strictly_sorted::<Tuple>(self.mat.deep_view())
        &&& in_reach(self.lp@, row.len() as int)
        &&& forall|i: int|
            0 <= i < self.mat@.len() ==> in_reach(
                self.back@,
                (#[trigger] self.mat@[i])@.len() as int,
            )
    }

    open spec fn gives(&self, row: Row) -> Stream {
        mat_step(
            row,
            self.mat.deep_view(),
            self.lp@,
            self.back@,
            places_set(self.eliminate@),
        )
    }

    fn step(&self, row: &Tuple) -> (r: TupleStream) {
        let ghost l = row.deep_view();
        let ghost mat = self.mat.deep_view();
        let ghost g = |m: Row|
            if starts_with(m, project(l, self.lp@)) {
                Stream::one(without(l + project(m, self.back@), places_set(self.eliminate@)))
            } else {
                Stream::nothing()
            };
        proof {
            assert(row@.len() == l.len());
            assert(mat.len() == self.mat@.len());
        }
        let (prefix, start) = build_mat_range_iter(&self.mat, self.lp, row);
        let ghost key = prefix.deep_view();
        let mut out = TupleStream::nothing();
        let mut i: usize = start;
        proof {
            assert forall|j: int| 0 <= j < mat.take(start as int).len() implies #[trigger] g(
                mat.take(start as int)[j],
            ) == Stream::nothing() by {
                lemma_run(mat, key, start as int, j, j);
            }
            crate::table_probe::lemma_flow_nothing(mat.take(start as int), g);
        }
        let mut more = true;
        while more && i < self.mat.len()
            invariant
                start <= i <= self.mat@.len(),
                l == row.deep_view(),
                mat == self.mat.deep_view(),
                mat.len() == self.mat@.len(),
                strictly_sorted::<Tuple>(mat),
                key == prefix.deep_view(),
                key == project(l, self.lp@),
                is_place::<Tuple>(mat, key, start as int),
                g == (|m: Row|
                    if starts_with(m, project(l, self.lp@)) {
                        Stream::one(
                            without(l + project(m, self.back@), places_set(self.eliminate@)),
                        )
                    } else {
                        Stream::nothing()
                    }),
                forall|j: int|
                    0 <= j < self.mat@.len() ==> in_reach(
                        self.back@,
                        (#[trigger] self.mat@[j])@.len() as int,
                    ),
                out.deep_view() == flow(mat.take(i as int), g),
                !more ==> i < mat.len() && !starts_with(mat[i as int], key),
            decreases
                    self.mat.len() - i + (if more {
                        1int
                    } else {
                        0
                    }),
        {
            let found = &self.mat[i];
            proof {
                assert(mat[i as int] == found.deep_view());
                assert(found.deep_view().len() == found@.len());
                assert(key.len() == prefix@.len());
                lemma_flow_step(mat, g, i as int);
            }
            let begins = if prefix.len() <= found.len() {
                let head = row_prefix(found, prefix.len());
                same_row(&head, &prefix)
            } else {
                false
            };
            if begins {
                let right = pick(found, &self.back);
                let full = joined(row, &right);
                let kept = eliminate_from_tuple(full, self.eliminate);
                out.append(TupleStream::one(kept));
                i = i + 1;
            } else {
                more = false;
            }
        }
        proof {
            if i < mat.len() {
                let tail = mat.skip(i as int);
                assert forall|j: int| 0 <= j < tail.len() implies #[trigger] g(tail[j])
                    == Stream::nothing() by {
                    lemma_run(mat, key, start as int, i as int, i + j);
                }
                crate::table_probe::lemma_flow_nothing(tail, g);
                crate::stream::lemma_flow_concat(mat.take(i as int), tail, g);
                assert(mat.take(i as int) + tail =~= mat);
                assert(out.deep_view().followed_by(Stream::nothing()) =~= out.deep_view());
            } else {
                assert(mat.take(i as int) =~= mat);
            }
        }
        out
    }
}

/// Materialize rows: join columns first, sorted, each once.
pub(crate) fn materialize(rows: &Vec<Tuple>, store: &Vec<usize>, Ghost(rp): Ghost<Seq<usize>>, Ghost(
    width,
): Ghost<int>) -> (r: Vec<Tuple>)
    requires
        store@ == store_places(rp, width),
        forall|i: int|
            0 <= i < rows@.len() ==> in_reach(store@, (#[trigger] rows@[i])@.len() as int),
    ensures
        strictly_sorted::<Tuple>(r.deep_view()),
        r.deep_view() == materialized(rows.deep_view(), rp, width),
        forall|i: int| 0 <= i < r@.len() ==> (#[trigger] r@[i])@.len() == store@.len(),
{
    let ghost all = rows.deep_view();
    let mut cache: OrderedSet<Tuple> = OrderedSet::new();
    let mut i: usize = 0;
    proof {
        assert(all.len() == rows@.len());
    }
    while i < rows.len()
        invariant
            i <= rows@.len(),
            all == rows.deep_view(),
            all.len() == rows@.len(),
            forall|i: int|
                0 <= i < rows@.len() ==> in_reach(store@, (#[trigger] rows@[i])@.len() as int),
            cache.wf(),
            forall|m: Row| #[trigger]
                cache.deep_view().contains(m) == exists|j: int|
                    0 <= j < i && m == project(#[trigger] all[j], store@),
        decreases rows.len() - i,
    {
        let ghost before = cache.deep_view();
        let stored = pick(&rows[i], store);
        let ghost new = stored.deep_view();
        cache.insert(stored);
        proof {
            assert(all[i as int] == rows@[i as int].deep_view());
            assert forall|m: Row| #[trigger] cache.deep_view().contains(m) == exists|j: int|
                0 <= j < i + 1 && m == project(#[trigger] all[j], store@) by {
                if before.contains(m) {
                    let j = choose|j: int| 0 <= j < i && m == project(#[trigger] all[j], store@);
                    assert(m == project(all[j], store@));
                }
                if m == new {
                    assert(m == project(all[i as int], store@));
                }
                if exists|j: int| 0 <= j < i + 1 && m == project(#[trigger] all[j], store@) {
                    let j = choose|j: int|
                        0 <= j < i + 1 && m == project(#[trigger] all[j], store@);
                    if j < i {
                        assert(before.contains(m));
                    }
                }
            }
        }
        i = i + 1;
    }
    let ghost set = cache.deep_view();
    let r = cache.items;
    proof {
        let want = Set::new(
            |m: Row|
                exists|j: int|
                    0 <= j < all.len() && m == project(#[trigger] all[j], store_places(rp, width)),
        );
        assert(set =~= want);
        assert(r.deep_view().to_set() =~= set);
        lemma_ordered(r.deep_view());
        assert forall|k: int| 0 <= k < r@.len() implies (#[trigger] r@[k])@.len()
            == store@.len() by {
            assert(r.deep_view()[k] == r@[k].deep_view());
            assert(r.deep_view().contains(r.deep_view()[k]));
            assert(set.contains(r.deep_view()[k]));
            assert(r@[k].deep_view().len() == r@[k]@.len());
        }
    }
    r
}

/// Columns in another order.
pub struct ReorderStep {
    pub places: Vec<usize>,
}

impl RowStep for ReorderStep {
    open spec fn takes(&self, row: Row) -> bool {
        in_reach(self.places@, row.len() as int)
    }

    open spec fn gives(&self, row: Row) -> Stream {
        Stream::one(project(row, self.places@))
    }

    fn step(&self, row: &Tuple) -> (r: TupleStream) {
        proof {
            assert(row@.len() == row.deep_view().len());
        }
        TupleStream::one(pick(row, &self.places))
    }
}

/// Filters, and the columns that are shed.
pub struct FilterStep<'a> {
    pub filters: &'a Vec<Expr>,
    pub eliminate: Vec<usize>,
    pub frame: Ghost<Seq<Name>>,
}

impl<'a> RowStep for FilterStep<'a> {
    open spec fn takes(&self, row: Row) -> bool {
        all_at_place(self.filters@, self.frame@)
    }

    open spec fn gives(&self, row: Row) -> Stream {
        crate::meaning::sift(
            self.filters@,
            self.frame@,
            row,
            without(row, places_set(self.eliminate@)),
        )
    }

    fn step(&self, row: &Tuple) -> (r: TupleStream) {
        let kept = eliminate_from_tuple(copy_row(row), &self.eliminate);
        crate::probe::sift_row(self.filters, row, kept, Ghost(self.frame@))
    }
}

/// A row for each of some values.
fn spread(row: &Tuple, items: &Vec<DataValue>, eliminate: &Vec<usize>) -> (r: Vec<Tuple>)
    ensures
        r.deep_view() == Seq::new(
            items.deep_view().len(),
            |i: int| without(row.deep_view().push(items.deep_view()[i]), places_set(eliminate@)),
        ),
{
    let ghost want = Seq::new(
        items.deep_view().len(),
        |i: int| without(row.deep_view().push(items.deep_view()[i]), places_set(eliminate@)),
    );
    let mut out: Vec<Tuple> = Vec::new();
    let mut i: usize = 0;
    proof {
        assert(items.deep_view().len() == items@.len());
        assert(out.deep_view() =~= want.take(0));
    }
    while i < items.len()
        invariant
            i <= items@.len(),
            items.deep_view().len() == items@.len(),
            want == Seq::new(
                items.deep_view().len(),
                |i: int|
                    without(row.deep_view().push(items.deep_view()[i]), places_set(eliminate@)),
            ),
            out.deep_view() == want.take(i as int),
        decreases items.len() - i,
    {
        let ghost prev = out.deep_view();
        let mut full = copy_row(row);
        let ghost base = full.deep_view();
        let item = items[i].clone();
        let ghost im = item.deep_view();
        full.push(item);
        proof {
            assert(full.deep_view() =~= base.push(im));
            assert(im == items.deep_view()[i as int]);
        }
        let kept = eliminate_from_tuple(full, eliminate);
        let ghost m = kept.deep_view();
        out.push(kept);
        proof {
            assert(out.deep_view() =~= prev.push(m));
            assert(want.take(i + 1) =~= prev.push(m));
        }
        i = i + 1;
    }
    proof {
        assert(want.take(i as int) =~= want);
    }
    out
}

/// What comes of a row and the value computed for it.
pub fn unify_row(
    row: &Tuple,
    value: DataValue,
    is_multi: bool,
    span: SourceSpan,
    eliminate: &Vec<usize>,
) -> (r: TupleStream)
    ensures
        r.deep_view() == unified(
            row.deep_view(),
            Ok(value.deep_view()),
            is_multi,
            span,
            places_set(eliminate@),
        ),
{
    proof {
        broadcast use crate::value::lemma_list_model;

    }
    if is_multi {
        match &value {
            DataValue::List(items) => TupleStream::of(spread(row, items, eliminate)),
            _ => TupleStream::failed(QueryError::BadSpread(span)),
        }
    } else {
        let mut full = copy_row(row);
        let ghost base = full.deep_view();
        let ghost vm = value.deep_view();
        full.push(value);
        proof {
            assert(full.deep_view() =~= base.push(vm));
        }
        TupleStream::one(eliminate_from_tuple(full, eliminate))
    }
}

/// A computed column, or one row per element of a computed list.
pub struct UnifyStep<'a> {
    pub expr: &'a Expr,
    pub is_multi: bool,
    pub span: SourceSpan,
    pub eliminate: Vec<usize>,
    pub frame: Ghost<Seq<Name>>,
}

impl<'a> RowStep for UnifyStep<'a> {
    open spec fn takes(&self, row: Row) -> bool {
        placed(*self.expr, self.frame@)
    }

    open spec fn gives(&self, row: Row) -> Stream {
        unified(
            row,
            eval_named(*self.expr, self.frame@, row),
            self.is_multi,
            self.span,
            places_set(self.eliminate@),
        )
    }

    fn step(&self, row: &Tuple) -> (r: TupleStream) {
        proof {
            lemma_placed(*self.expr, self.frame@, row.deep_view());
        }
        match eval_row(self.expr, row) {
            Err(e) => TupleStream::failed(QueryError::Eval(e)),
            Ok(v) => unify_row(row, v, self.is_multi, self.span, &self.eliminate),
        }
    }
}

impl SearchIndex {
    /// The results for a query.
    pub fn search(&self, q: &DataValue) -> (r: Vec<Tuple>)
        requires
            self.wf(),
        ensures
            r.deep_view() == self.found(q.deep_view()),
    {
        let ghost qs = self.queries.deep_view();
        let mut i: usize = 0;
        proof {
            assert(qs.len() == self.queries@.len());
        }
        while i < self.queries.len()
            invariant
                i <= self.queries@.len(),
                self.wf(),
                qs == self.queries.deep_view(),
                qs.len() == self.queries@.len(),
                forall|j: int| 0 <= j < i ==> qs[j] != q.deep_view(),
            decreases self.queries.len() - i,
        {
            proof {
                assert(qs[i as int] == self.queries@[i as int].deep_view());
            }
            if same_value(&self.queries[i], q) {
                proof {
                    crate::names::lemma_first_index(qs, q.deep_view(), i as int);
                    assert(qs.contains(q.deep_view()));
                    assert(self.results.deep_view()[i as int]
                        == self.results@[i as int].deep_view());
                }
                return copy_rows(&self.results[i]);
            }
            i = i + 1;
        }
        let none: Vec<Tuple> = Vec::new();
        proof {
            assert(none.deep_view() =~= self.found(q.deep_view()));
        }
        none
    }
}

/// Whether an index can be searched for a value.
pub fn can_search(kind: SearchKind, q: &DataValue) -> (r: bool)
    ensures
        r == searchable(kind, q.deep_view()),
        kind is Hnsw ==> r == (q.deep_view() is List),
        kind is Fts ==> r == (q.deep_view() is Str),
        kind is Lsh ==> r,
{
    match kind {
        SearchKind::Hnsw => matches!(q, DataValue::List(_)),
        SearchKind::Fts => matches!(q, DataValue::Str(_)),
        SearchKind::Lsh => true,
    }
}

} // verus!
