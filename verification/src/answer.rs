//! The answer of a plan as a set of rows: what it stands for, whatever the
//! strategy and the order in which it is carried out.

use vstd::prelude::*;
use crate::bounds::{all_true, law_bounds_keep_matches};
use crate::epoch::{ordered, starts_with};
use crate::expr::{EvalFault, Expr, SourceSpan};
use crate::history::snapshot;
use crate::meaning::{
    all_placed, back_places, delta_set, fixed_join, join_meaning, keys_match, mat_join, mat_joined,
    scan_origin, materialized, meaning, neg_join, neg_origin, neg_rows, newest, occurrence_rows,
    paired, passes, probe_columns, probe_join, probed, probed_row, search_filters, Origin,
    searchable, searched, sift, sifted, spans_stream, spared, store_places, unified, unmatched,
    within_bounds, Env, JoinShape,
};
use crate::names::{gone_at, lemma_place_unique, name_set, names, shed, without, Name};
use crate::negate::lemma_spared_wide;
use crate::plan::{places_of, InnerJoin, NegJoin, RelAlgebra, SearchRA, UnificationRA};
use crate::probe::{in_reach, lemma_prefix_fits};
use crate::resolve::{by_name, eval_named};
use crate::run::{
    lemma_delta_enumerable, lemma_fits_steady, lemma_keys_placed, lemma_neg_readable,
    lemma_sheds_nothing, lemma_wide_readable, lemma_width, neg_fits, wide,
};
use crate::steps::law_materialized_rows_come_back;
use crate::stream::{
    flow, lemma_failed, lemma_failure, lemma_followed, lemma_of_rows, lemma_one_row, lemma_row_set,
    lemma_sound_rows, lemma_through_of, on_items, through, QueryFault, Stream,
};
use crate::table_probe::lemma_met_wide;
use crate::temp_store::project;
use crate::value::{Row, Val};

verus! {

/// An expression that is true on a row of a frame.
pub open spec fn true_on(e: Expr, frame: Seq<Name>, row: Row) -> bool {
    eval_named(e, frame, row) == Ok::<Val, EvalFault>(Val::Bool(true))
}

/// Filters that are all true on a row of a frame.
pub open spec fn holds(filters: Seq<Expr>, frame: Seq<Name>, row: Row) -> bool {
    forall|i: int| 0 <= i < filters.len() ==> true_on(#[trigger] filters[i], frame, row)
}

pub proof fn lemma_passes_holds(filters: Seq<Expr>, frame: Seq<Name>, row: Row)
    ensures
        passes(filters, frame, row) == Ok::<bool, EvalFault>(true) <==> holds(filters, frame, row),
    decreases filters.len(),
{
    if filters.len() > 0 {
        let rest = filters.drop_last();
        lemma_passes_holds(rest, frame, row);
        if holds(filters, frame, row) {
            assert forall|i: int| 0 <= i < rest.len() implies true_on(
                #[trigger] rest[i],
                frame,
                row,
            ) by {
                assert(true_on(filters[i], frame, row));
            }
            assert(true_on(filters[filters.len() - 1], frame, row));
        }
        if passes(filters, frame, row) == Ok::<bool, EvalFault>(true) {
            assert forall|i: int| 0 <= i < filters.len() implies true_on(
                #[trigger] filters[i],
                frame,
                row,
            ) by {
                if i < rest.len() {
                    assert(true_on(rest[i], frame, row));
                }
            }
        }
    }
}

/// The members of what comes of items, where nothing fails.
pub proof fn lemma_flow_members<A>(items: Seq<A>, f: spec_fn(A) -> Stream)
    requires
        flow(items, f).sound(),
    ensures
        forall|i: int| 0 <= i < items.len() ==> (#[trigger] f(items[i])).sound(),
        forall|x: Row| #[trigger]
            flow(items, f).rows().contains(x) <==> exists|i: int|
                0 <= i < items.len() && (#[trigger] f(items[i])).rows().contains(x),
    decreases items.len(),
{
    if items.len() > 0 {
        let rest = items.drop_last();
        let last = items.len() - 1;
        let front = flow(rest, f);
        let tail = f(items.last());
        lemma_followed(front, tail);
        lemma_flow_members(rest, f);
        let whole = flow(items, f).rows();
        assert(whole == front.rows() + tail.rows());
        assert forall|i: int| 0 <= i < items.len() implies (#[trigger] f(items[i])).sound() by {
            if i < last {
                assert(f(rest[i]).sound());
            }
        }
        assert forall|x: Row| #[trigger] whole.contains(x) <==> exists|i: int|
            0 <= i < items.len() && (#[trigger] f(items[i])).rows().contains(x) by {
            if whole.contains(x) {
                let k = whole.index_of(x);
                if k < front.rows().len() {
                    assert(front.rows()[k] == x);
                    assert(front.rows().contains(x));
                    let i = choose|i: int|
                        0 <= i < rest.len() && (#[trigger] f(rest[i])).rows().contains(x);
                    assert(f(items[i]).rows().contains(x));
                } else {
                    assert(tail.rows()[k - front.rows().len()] == x);
                    assert(f(items[last]).rows().contains(x));
                }
            }
            if exists|i: int| 0 <= i < items.len() && (#[trigger] f(items[i])).rows().contains(x) {
                let i = choose|i: int|
                    0 <= i < items.len() && (#[trigger] f(items[i])).rows().contains(x);
                if i < last {
                    assert(f(rest[i]).rows().contains(x));
                    assert(front.rows().contains(x));
                    let k = front.rows().index_of(x);
                    assert(whole[k] == x);
                } else {
                    let k = f(items[i]).rows().index_of(x);
                    assert(whole[front.rows().len() + k] == x);
                }
            }
        }
    }
}

/// A stream of which nothing fails to come has no failure itself, and what
/// comes of it is what comes of its rows.
pub proof fn lemma_through_sound(s: Stream, f: spec_fn(Row) -> Stream)
    requires
        through(s, f).sound(),
    ensures
        s.sound(),
        through(s, f) == flow(s.rows(), f),
{
    let g = on_items(f);
    lemma_flow_members(s.items, g);
    assert forall|i: int| 0 <= i < s.items.len() implies (#[trigger] s.items[i]) is Ok by {
        assert(g(s.items[i]).sound());
        if s.items[i] is Err {
            lemma_failed(s.items[i]->Err_0);
        }
    }
    lemma_sound_rows(s);
    lemma_through_of(s.rows(), f);
}

/// The rows that come of a set of rows, each turned into a set.
pub open spec fn each(rows: Set<Row>, f: spec_fn(Row) -> Set<Row>) -> Set<Row> {
    Set::new(|x: Row| exists|r: Row| #[trigger] rows.contains(r) && f(r).contains(x))
}

/// A stream that does not fail, turned row by row into sets.
pub proof fn lemma_through_each(s: Stream, f: spec_fn(Row) -> Stream, g: spec_fn(Row) -> Set<Row>)
    requires
        through(s, f).sound(),
        forall|i: int|
            0 <= i < s.rows().len() && (#[trigger] f(s.rows()[i])).sound() ==> f(
                s.rows()[i],
            ).rows().to_set() == g(s.rows()[i]),
    ensures
        s.sound(),
        through(s, f).rows().to_set() == each(s.rows().to_set(), g),
{
    lemma_through_sound(s, f);
    lemma_flow_members(s.rows(), f);
    let out = through(s, f).rows();
    assert forall|x: Row| out.to_set().contains(x) == each(s.rows().to_set(), g).contains(x) by {
        if out.contains(x) {
            let i = choose|i: int|
                0 <= i < s.rows().len() && (#[trigger] f(s.rows()[i])).rows().contains(x);
            assert(f(s.rows()[i]).rows().to_set().contains(x));
            assert(s.rows().to_set().contains(s.rows()[i]));
        }
        if each(s.rows().to_set(), g).contains(x) {
            let r = choose|r: Row| #[trigger] s.rows().to_set().contains(r) && g(r).contains(x);
            let i = s.rows().index_of(r);
            assert(f(s.rows()[i]).sound());
            assert(f(s.rows()[i]).rows().to_set().contains(x));
            assert(f(s.rows()[i]).rows().contains(x));
        }
    }
    assert(out.to_set() =~= each(s.rows().to_set(), g));
}

/// A set with one row, if something is the case.
pub open spec fn just(b: bool, row: Row) -> Set<Row> {
    if b {
        Set::empty().insert(row)
    } else {
        Set::empty()
    }
}

pub proof fn lemma_one_set(row: Row)
    ensures
        Stream::one(row).rows().to_set() == just(true, row),
        Stream::nothing().rows().to_set() == just(false, row),
{
    lemma_one_row(row);
    assert(seq![row][0] == row);
    assert(Stream::one(row).rows().to_set() =~= just(true, row));
    assert(Stream::nothing().rows().to_set() =~= just(false, row));
}

pub proof fn lemma_sift_set(filters: Seq<Expr>, frame: Seq<Name>, row: Row, out: Row)
    requires
        sift(filters, frame, row, out).sound(),
    ensures
        sift(filters, frame, row, out).rows().to_set() == just(holds(filters, frame, row), out),
{
    lemma_passes_holds(filters, frame, row);
    lemma_one_set(out);
    if passes(filters, frame, row) is Err {
        lemma_failed(QueryFault::Eval(passes(filters, frame, row)->Err_0));
    }
}

/// The rows a unification makes of a row.
pub open spec fn unified_set(u: UnificationRA, frame: Seq<Name>, row: Row) -> Set<Row> {
    let drop = gone_at(frame.push(u.binding@), name_set(u.to_eliminate@));
    let v = eval_named(u.expr, frame, row);
    Set::new(
        |x: Row|
            v is Ok && (if u.is_multi {
                v->Ok_0 is List && exists|i: int|
                    0 <= i < (v->Ok_0->List_0).len() && x == without(
                        row.push(#[trigger] (v->Ok_0->List_0)[i]),
                        drop,
                    )
            } else {
                x == without(row.push(v->Ok_0), drop)
            }),
    )
}

/// The rows a search makes of a row.
pub open spec fn searched_set(s: SearchRA, env: Env, row: Row) -> Set<Row> {
    let pframe = s.parent.out_frame();
    let q = eval_named(s.query, pframe, row);
    Set::new(
        |x: Row|
            q is Ok && searchable(s.kind, q->Ok_0) && exists|i: int|
                0 <= i < env.indexes@[s.index as int].found(q->Ok_0).len() && x == row + (
                #[trigger] env.indexes@[s.index as int].found(q->Ok_0)[i]) && holds(
                    search_filters(s.filter),
                    pframe + names(s.own_bindings@),
                    x,
                ),
    )
}

/// The rows of one left row and a set of right rows.
pub open spec fn joined_set(l: Row, right: Set<Row>, shape: JoinShape) -> Set<Row> {
    Set::new(
        |x: Row|
            exists|r: Row| #[trigger]
                right.contains(r) && keys_match(l, shape.lp, r, shape.rp) && x == without(
                    l + r,
                    shape.drop,
                ),
    )
}

pub open spec fn neg_shape(n: NegJoin) -> JoinShape {
    JoinShape {
        lp: n.joiner.left_places(n.left.out_frame()),
        rp: n.joiner.right_places(n.right.frame()),
        drop: gone_at(n.left.out_frame(), name_set(n.to_eliminate@)),
    }
}

/// The answer of a plan: the set of rows it stands for where nothing fails. A
/// filter that fails is taken not to hold.
pub open spec fn answer(plan: RelAlgebra, env: Env, delta: Option<usize>) -> Set<Row>
    decreases plan,
{
    match plan {
        RelAlgebra::Fixed(r) => r.rows().to_set(),
        RelAlgebra::TempStore(r) => if env.stores@.contains_key(r.storage_key@) {
            occurrence_rows(r, env, delta).to_set().filter(
                |row: Row| holds(r.filters@, names(r.bindings@), row),
            )
        } else {
            Set::empty()
        },
        RelAlgebra::Stored(r) => snapshot(
            env.tables@[r.storage.id as int].model(),
            newest(),
        ).to_set().filter(|row: Row| holds(r.filters@, names(r.bindings@), row)),
        RelAlgebra::StoredWithValidity(r) => snapshot(
            env.tables@[r.storage.id as int].model(),
            r.as_of,
        ).to_set().filter(|row: Row| holds(r.filters@, names(r.bindings@), row)),
        RelAlgebra::Spans(r) => spans_stream(
            env.tables@[r.storage.id as int].model(),
            r.sys as int,
        ).row_set(),
        RelAlgebra::Delta(r) => delta_set(
            env.tables@[r.storage.id as int].model(),
            r.from,
            r.to,
        ),
        RelAlgebra::Reorder(r) => {
            let places = places_of(
                names(r.new_order@),
                r.relation.out_frame(),
                r.new_order@.len() as int,
            );
            each(
                answer(*r.relation, env, delta),
                |row: Row|
                    just(
                        all_placed(names(r.new_order@), r.relation.out_frame()),
                        project(row, places),
                    ),
            )
        },
        RelAlgebra::Filter(r) => {
            let frame = r.parent.out_frame();
            each(
                answer(*r.parent, env, delta),
                |row: Row|
                    just(
                        holds(r.filters@, frame, row),
                        shed(row, frame, name_set(r.to_eliminate@)),
                    ),
            )
        },
        RelAlgebra::Unification(u) => {
            let frame = u.parent.out_frame();
            each(answer(*u.parent, env, delta), |row: Row| unified_set(u, frame, row))
        },
        RelAlgebra::Search(s) => each(
            answer(*s.parent, env, delta),
            |row: Row| searched_set(*s, env, row),
        ),
        RelAlgebra::NegJoin(n) => {
            let shape = neg_shape(*n);
            each(
                answer(n.left, env, delta),
                |l: Row|
                    just(
                        n.joiner.fault(n.left.out_frame(), n.right.frame()) is None && neg_rows(
                            n.right,
                            env,
                        ) is Ok && unmatched(l, neg_rows(n.right, env)->Ok_0, shape),
                        without(l, shape.drop),
                    ),
            )
        },
        RelAlgebra::Join(j) => {
            let right = answer(j.right, env, delta);
            let shape = j.shape();
            if j.fault() is None && !(j.right is Reorder) && !(j.right is NegJoin) {
                each(answer(j.left, env, delta), |l: Row| joined_set(l, right, shape))
            } else {
                Set::empty()
            }
        },
    }
}

pub proof fn lemma_sifted_set(rows: Seq<Row>, filters: Seq<Expr>, frame: Seq<Name>)
    requires
        sifted(rows, filters, frame).sound(),
    ensures
        sifted(rows, filters, frame).rows().to_set() == rows.to_set().filter(
            |row: Row| holds(filters, frame, row),
        ),
{
    let f = |r: Row| sift(filters, frame, r, r);
    lemma_flow_members(rows, f);
    let out = sifted(rows, filters, frame).rows();
    let want = rows.to_set().filter(|row: Row| holds(filters, frame, row));
    assert forall|x: Row| out.to_set().contains(x) == want.contains(x) by {
        if out.contains(x) {
            let i = choose|i: int| 0 <= i < rows.len() && (#[trigger] f(rows[i])).rows().contains(x);
            lemma_sift_set(filters, frame, rows[i], rows[i]);
            assert(f(rows[i]).rows().to_set().contains(x));
            assert(rows.to_set().contains(rows[i]));
        }
        if want.contains(x) {
            let i = rows.index_of(x);
            assert(f(rows[i]).sound());
            lemma_sift_set(filters, frame, rows[i], rows[i]);
            assert(f(rows[i]).rows().to_set().contains(x));
            assert(f(rows[i]).rows().contains(x));
        }
    }
    assert(out.to_set() =~= want);
}

/// The frames of a plan's scans name each column once.
pub open spec fn distinct(plan: RelAlgebra) -> bool
    decreases plan,
{
    match plan {
        RelAlgebra::TempStore(r) => names(r.bindings@).no_duplicates(),
        RelAlgebra::Stored(r) => names(r.bindings@).no_duplicates(),
        RelAlgebra::StoredWithValidity(r) => names(r.bindings@).no_duplicates(),
        RelAlgebra::Reorder(r) => distinct(*r.relation),
        RelAlgebra::Filter(r) => distinct(*r.parent),
        RelAlgebra::Unification(u) => distinct(*u.parent),
        RelAlgebra::Search(s) => distinct(*s.parent),
        RelAlgebra::NegJoin(n) => distinct(n.left),
        RelAlgebra::Join(j) => distinct(j.left) && distinct(j.right),
        _ => true,
    }
}

/// Filters that hold on a row put it within the bounds of a probe.
pub proof fn lemma_holds_within(
    r: Row,
    joined: int,
    filters: Seq<Expr>,
    frame: Seq<Name>,
    key_len: Option<int>,
)
    requires
        frame.no_duplicates(),
        r.len() == frame.len(),
        0 <= joined <= frame.len(),
        holds(filters, frame, r),
    ensures
        within_bounds(r, joined, filters, probe_columns(frame, joined, key_len)),
{
    let columns = probe_columns(frame, joined, key_len);
    let n = columns.len() as int;
    let look = by_name(frame, r);
    let prefix = r.take(joined);
    let rest = if n == 0 {
        Seq::<Val>::empty()
    } else {
        r.subrange(joined, joined + n)
    };
    assert(all_true(filters, look)) by {
        assert forall|i: int| 0 <= i < filters.len() implies crate::resolve::eval_by(
            #[trigger] filters[i],
            look,
        ) == Ok::<Val, EvalFault>(Val::Bool(true)) by {
            assert(true_on(filters[i], frame, r));
        }
    }
    assert forall|i: int, s: SourceSpan| 0 <= i < columns.len() implies #[trigger] look(
        columns[i],
        s,
    ) == Ok::<Val, EvalFault>(rest[i]) by {
        assert(columns[i] == frame[joined + i]);
        lemma_place_unique(frame, joined + i);
    }
    law_bounds_keep_matches(filters, prefix, columns, rest, look);
    assert(r.take(joined + n) =~= prefix + rest);
}

proof fn lemma_probed_set(
    l: Row,
    rows: Seq<Row>,
    shape: JoinShape,
    filters: Seq<Expr>,
    frame: Seq<Name>,
    key_len: Option<int>,
    origin: Option<Origin>,
)
    requires
        frame.no_duplicates(),
        shape.lp.len() == shape.rp.len(),
        shape.rp.len() <= frame.len(),
        in_reach(shape.rp, frame.len() as int),
        forall|i: int| 0 <= i < rows.len() ==> (#[trigger] rows[i]).len() == frame.len(),
        probed(
            l,
            rows,
            shape,
            filters,
            frame,
            probe_columns(frame, shape.rp.len() as int, key_len),
            origin,
        ).sound(),
    ensures
        probed(
            l,
            rows,
            shape,
            filters,
            frame,
            probe_columns(frame, shape.rp.len() as int, key_len),
            origin,
        ).rows().to_set() == joined_set(
            l,
            rows.to_set().filter(|row: Row| holds(filters, frame, row)),
            shape,
        ),
{
    let columns = probe_columns(frame, shape.rp.len() as int, key_len);
    let h = |r: Row| probed_row(l, r, shape, filters, frame, columns, origin);
    let out = flow(rows, h);
    assert(probed(l, rows, shape, filters, frame, columns, origin) == out);
    let kept = rows.to_set().filter(|row: Row| holds(filters, frame, row));
    let want = joined_set(l, kept, shape);
    lemma_flow_members(rows, h);
    assert forall|x: Row| out.rows().to_set().contains(x) == want.contains(x) by {
        if out.rows().contains(x) {
            let i = choose|i: int| 0 <= i < rows.len() && (#[trigger] h(rows[i])).rows().contains(x);
            let r = rows[i];
            lemma_met_wide(l, r, shape, origin);
            lemma_sift_set(filters, frame, r, without(l + r, shape.drop));
            assert(sift(filters, frame, r, without(l + r, shape.drop)).rows().to_set().contains(x));
            assert(rows.to_set().contains(r));
            assert(kept.contains(r));
        }
        if want.contains(x) {
            let r = choose|r: Row| #[trigger]
                kept.contains(r) && keys_match(l, shape.lp, r, shape.rp) && x == without(
                    l + r,
                    shape.drop,
                );
            let i = rows.index_of(r);
            assert(rows[i] == r);
            assert(r.len() == frame.len());
            lemma_met_wide(l, r, shape, origin);
            lemma_holds_within(r, shape.rp.len() as int, filters, frame, key_len);
            assert(h(rows[i]).sound());
            lemma_sift_set(filters, frame, r, x);
            assert(h(rows[i]).rows().to_set().contains(x));
            assert(h(rows[i]).rows().contains(x));
        }
    }
    assert(out.rows().to_set() =~= want);
}

proof fn lemma_paired_set(l: Row, rows: Seq<Row>, shape: JoinShape)
    ensures
        paired(l, rows, shape).sound(),
        paired(l, rows, shape).rows().to_set() == joined_set(l, rows.to_set(), shape),
{
    let h = |r: Row|
        if keys_match(l, shape.lp, r, shape.rp) {
            Stream::one(without(l + r, shape.drop))
        } else {
            Stream::nothing()
        };
    lemma_never_fails(rows, h);
    lemma_flow_members(rows, h);
    let out = flow(rows, h).rows();
    let want = joined_set(l, rows.to_set(), shape);
    assert forall|x: Row| out.to_set().contains(x) == want.contains(x) by {
        if out.contains(x) {
            let i = choose|i: int| 0 <= i < rows.len() && (#[trigger] h(rows[i])).rows().contains(x);
            assert(rows.to_set().contains(rows[i]));
        }
        if want.contains(x) {
            let r = choose|r: Row| #[trigger]
                rows.to_set().contains(r) && keys_match(l, shape.lp, r, shape.rp) && x == without(
                    l + r,
                    shape.drop,
                );
            let i = rows.index_of(r);
            assert(h(rows[i]).rows()[0] == x);
            assert(h(rows[i]).rows().contains(x));
        }
    }
    assert(out.to_set() =~= want);
}

pub proof fn lemma_never_fails<A>(items: Seq<A>, f: spec_fn(A) -> Stream)
    requires
        forall|i: int| 0 <= i < items.len() ==> (#[trigger] f(items[i])).sound(),
    ensures
        flow(items, f).sound(),
    decreases items.len(),
{
    if items.len() > 0 {
        let rest = items.drop_last();
        assert forall|i: int| 0 <= i < rest.len() implies (#[trigger] f(rest[i])).sound() by {
            assert(f(items[i]).sound());
        }
        lemma_never_fails(rest, f);
        assert(f(items[items.len() - 1]).sound());
        lemma_followed(flow(rest, f), f(items.last()));
    }
}

proof fn lemma_mat_set(l: Row, rows: Seq<Row>, shape: JoinShape, width: int)
    requires
        0 <= width <= usize::MAX,
        store_places(shape.rp, width).len() <= usize::MAX,
        in_reach(shape.rp, width),
        shape.lp.len() == shape.rp.len(),
        forall|i: int| 0 <= i < rows.len() ==> (#[trigger] rows[i]).len() == width,
    ensures
        mat_joined(l, materialized(rows, shape.rp, width), shape, width).sound(),
        mat_joined(l, materialized(rows, shape.rp, width), shape, width).rows().to_set()
            == joined_set(l, rows.to_set(), shape),
{
    let store = store_places(shape.rp, width);
    let back = back_places(shape.rp, width);
    let set = Set::new(
        |m: Row| exists|i: int| 0 <= i < rows.len() && m == project(#[trigger] rows[i], store),
    );
    let f = |r: Row| project(r, store);
    vstd::seq_lib::seq_to_set_is_finite(rows);
    rows.to_set().lemma_map_finite(f);
    assert(set =~= rows.to_set().map(f)) by {
        assert forall|m: Row| set.contains(m) == rows.to_set().map(f).contains(m) by {
            if set.contains(m) {
                let i = choose|i: int|
                    0 <= i < rows.len() && m == project(#[trigger] rows[i], store);
                assert(rows.to_set().contains(rows[i]));
                assert(rows.to_set().map(f).contains(f(rows[i])));
            }
            if rows.to_set().map(f).contains(m) {
                let r = choose|r: Row| rows.to_set().contains(r) && m == f(r);
                let i = rows.index_of(r);
                assert(m == project(rows[i], store));
            }
        }
    }
    crate::epoch::lemma_enumerable(set);
    let mat = materialized(rows, shape.rp, width);
    assert(mat == ordered(set));
    let h = |m: Row|
        if starts_with(m, project(l, shape.lp)) {
            Stream::one(without(l + project(m, back), shape.drop))
        } else {
            Stream::nothing()
        };
    lemma_never_fails(mat, h);
    lemma_flow_members(mat, h);
    let out = flow(mat, h).rows();
    let want = joined_set(l, rows.to_set(), shape);
    assert forall|r: Row| rows.contains(r) implies starts_with(
        project(r, store),
        project(l, shape.lp),
    ) == keys_match(l, shape.lp, r, shape.rp) by {
        let k = shape.rp.len() as int;
        assert(project(r, store).take(k) =~= project(r, shape.rp));
    }
    assert forall|x: Row| out.to_set().contains(x) == want.contains(x) by {
        if out.contains(x) {
            let k = choose|k: int| 0 <= k < mat.len() && (#[trigger] h(mat[k])).rows().contains(x);
            assert(mat.to_set().contains(mat[k]));
            assert(set.contains(mat[k]));
            let i = choose|i: int|
                0 <= i < rows.len() && mat[k] == project(#[trigger] rows[i], store);
            law_materialized_rows_come_back(rows[i], shape.rp);
            assert(rows.contains(rows[i]));
            assert(rows.to_set().contains(rows[i]));
        }
        if want.contains(x) {
            let r = choose|r: Row| #[trigger]
                rows.to_set().contains(r) && keys_match(l, shape.lp, r, shape.rp) && x == without(
                    l + r,
                    shape.drop,
                );
            let i = rows.index_of(r);
            assert(rows[i] == r);
            law_materialized_rows_come_back(r, shape.rp);
            let m = project(rows[i], store);
            assert(set.contains(m));
            assert(mat.to_set().contains(m));
            let k = mat.index_of(m);
            assert(h(mat[k]).rows()[0] == x);
            assert(h(mat[k]).rows().contains(x));
        }
    }
    assert(out.to_set() =~= want);
}

/// The columns on both sides of every join can be counted.
pub open spec fn sized(plan: RelAlgebra) -> bool
    decreases plan,
{
    match plan {
        RelAlgebra::Reorder(r) => sized(*r.relation),
        RelAlgebra::Filter(r) => sized(*r.parent),
        RelAlgebra::Unification(u) => sized(*u.parent),
        RelAlgebra::Search(s) => sized(*s.parent),
        RelAlgebra::NegJoin(n) => sized(n.left),
        RelAlgebra::Join(j) => {
            &&& sized(j.left)
            &&& sized(j.right)
            &&& j.left.out_frame().len() <= usize::MAX
            &&& j.right.out_frame().len() <= usize::MAX
            &&& store_places(j.shape().rp, j.right.out_frame().len() as int).len() <= usize::MAX
        },
        _ => true,
    }
}

pub proof fn lemma_unified_set(u: UnificationRA, frame: Seq<Name>, row: Row)
    requires
        unified(
            row,
            eval_named(u.expr, frame, row),
            u.is_multi,
            u.span,
            gone_at(frame.push(u.binding@), name_set(u.to_eliminate@)),
        ).sound(),
    ensures
        unified(
            row,
            eval_named(u.expr, frame, row),
            u.is_multi,
            u.span,
            gone_at(frame.push(u.binding@), name_set(u.to_eliminate@)),
        ).rows().to_set() == unified_set(u, frame, row),
{
    let drop = gone_at(frame.push(u.binding@), name_set(u.to_eliminate@));
    let v = eval_named(u.expr, frame, row)->Ok_0;
    let out = unified(row, eval_named(u.expr, frame, row), u.is_multi, u.span, drop);
    if eval_named(u.expr, frame, row) is Err {
        lemma_failed(QueryFault::Eval(eval_named(u.expr, frame, row)->Err_0));
    }
    if u.is_multi {
        let items = v->List_0;
        lemma_failed(QueryFault::BadSpread(u.span));
        lemma_of_rows(Seq::new(items.len(), |i: int| without(row.push(items[i]), drop)));
        assert forall|x: Row| out.rows().to_set().contains(x) == unified_set(
            u,
            frame,
            row,
        ).contains(x) by {
            if out.rows().contains(x) {
                let i = out.rows().index_of(x);
                assert(x == without(row.push(items[i]), drop));
            }
            if unified_set(u, frame, row).contains(x) {
                let i = choose|i: int|
                    0 <= i < items.len() && x == without(row.push(#[trigger] items[i]), drop);
                assert(out.rows()[i] == x);
            }
        }
    } else {
        lemma_one_set(without(row.push(v), drop));
    }
    assert(out.rows().to_set() =~= unified_set(u, frame, row));
}

pub proof fn lemma_searched_set(s: SearchRA, env: Env, row: Row)
    requires
        searched(row, s, env).sound(),
    ensures
        searched(row, s, env).rows().to_set() == searched_set(s, env, row),
{
    let pframe = s.parent.out_frame();
    let frame = pframe + names(s.own_bindings@);
    let filters = search_filters(s.filter);
    let q = eval_named(s.query, pframe, row)->Ok_0;
    if eval_named(s.query, pframe, row) is Err {
        lemma_failed(QueryFault::Eval(eval_named(s.query, pframe, row)->Err_0));
    }
    lemma_failed(QueryFault::SearchQueryType { value: q, span: s.span });
    let found = env.indexes@[s.index as int].found(q);
    let f = |t: Row| sift(filters, frame, row + t, row + t);
    lemma_flow_members(found, f);
    let out = searched(row, s, env).rows();
    assert(out == flow(found, f).rows());
    let want = searched_set(s, env, row);
    assert forall|x: Row| out.to_set().contains(x) == want.contains(x) by {
        if out.contains(x) {
            let i = choose|i: int|
                0 <= i < found.len() && (#[trigger] f(found[i])).rows().contains(x);
            lemma_sift_set(filters, frame, row + found[i], row + found[i]);
            assert(f(found[i]).rows().to_set().contains(x));
            assert(x == row + found[i]);
        }
        if want.contains(x) {
            let i = choose|i: int|
                0 <= i < found.len() && x == row + (#[trigger] found[i]) && holds(
                    filters,
                    frame,
                    x,
                );
            assert(f(found[i]).sound());
            lemma_sift_set(filters, frame, x, x);
            assert(f(found[i]).rows().to_set().contains(x));
            assert(f(found[i]).rows().contains(x));
        }
    }
    assert(out.to_set() =~= want);
}

proof fn lemma_probe_join_set(
    ls: Stream,
    rows: Seq<Row>,
    shape: JoinShape,
    filters: Seq<Expr>,
    frame: Seq<Name>,
    key_len: Option<int>,
    origin: Option<Origin>,
)
    requires
        frame.no_duplicates(),
        shape.lp.len() == shape.rp.len(),
        shape.rp.len() <= frame.len(),
        in_reach(shape.rp, frame.len() as int),
        forall|i: int| 0 <= i < rows.len() ==> (#[trigger] rows[i]).len() == frame.len(),
        probe_join(ls, rows, shape, filters, frame, key_len, origin).sound(),
    ensures
        ls.sound(),
        probe_join(ls, rows, shape, filters, frame, key_len, origin).rows().to_set() == each(
            ls.rows().to_set(),
            |l: Row|
                joined_set(
                    l,
                    rows.to_set().filter(|row: Row| holds(filters, frame, row)),
                    shape,
                ),
        ),
{
    let columns = probe_columns(frame, shape.rp.len() as int, key_len);
    let kept = rows.to_set().filter(|row: Row| holds(filters, frame, row));
    let f = |l: Row| probed(l, rows, shape, filters, frame, columns, origin);
    let g = |l: Row| joined_set(l, kept, shape);
    assert forall|i: int| 0 <= i < ls.rows().len() && (#[trigger] f(ls.rows()[i])).sound() implies f(
        ls.rows()[i],
    ).rows().to_set() == g(ls.rows()[i]) by {
        lemma_probed_set(ls.rows()[i], rows, shape, filters, frame, key_len, origin);
    }
    lemma_through_each(ls, f, g);
}

proof fn lemma_mat_join_set(
    ls: Stream,
    rs: Stream,
    shape: JoinShape,
    width: int,
    origin: Option<Origin>,
)
    requires
        0 <= width <= usize::MAX,
        store_places(shape.rp, width).len() <= usize::MAX,
        in_reach(shape.rp, width),
        shape.lp.len() == shape.rp.len(),
        wide(rs, width),
        mat_join(Ok(ls), Ok(rs), shape, width, origin) is Ok,
        mat_join(Ok(ls), Ok(rs), shape, width, origin)->Ok_0.sound(),
    ensures
        ls.sound(),
        ls.rows().len() > 0 ==> rs.sound(),
        mat_join(Ok(ls), Ok(rs), shape, width, origin)->Ok_0.rows().to_set() == each(
            ls.rows().to_set(),
            |l: Row| joined_set(l, rs.rows().to_set(), shape),
        ),
{
    let g = |l: Row| joined_set(l, rs.rows().to_set(), shape);
    if ls.rows().len() == 0 {
        assert(ls.rows().to_set() =~= Set::empty());
        assert(Stream::nothing().rows().to_set() =~= each(ls.rows().to_set(), g));
    } else {
        lemma_wide_readable(rs, shape, width, origin);
        lemma_failure(rs);
        let mat = materialized(rs.rows(), shape.rp, width);
        let f = |l: Row| mat_joined(l, mat, shape, width);
        assert forall|i: int|
            0 <= i < ls.rows().len() && (#[trigger] f(ls.rows()[i])).sound() implies f(
            ls.rows()[i],
        ).rows().to_set() == g(ls.rows()[i]) by {
            lemma_mat_set(ls.rows()[i], rs.rows(), shape, width);
        }
        lemma_through_each(ls, f, g);
    }
}

proof fn lemma_fixed_join_set(ls: Stream, rows: Seq<Row>, shape: JoinShape, left: Set<Row>)
    requires
        fixed_join(ls, rows, shape).sound(),
        rows.len() > 0 && ls.sound() ==> ls.rows().to_set() == left,
    ensures
        fixed_join(ls, rows, shape).rows().to_set() == each(
            left,
            |l: Row| joined_set(l, rows.to_set(), shape),
        ),
{
    let g = |l: Row| joined_set(l, rows.to_set(), shape);
    if rows.len() == 0 {
        assert(rows.to_set() =~= Set::empty());
        assert(Stream::nothing().rows().to_set() =~= each(left, g));
    } else {
        let f = |l: Row| paired(l, rows, shape);
        assert forall|i: int|
            0 <= i < ls.rows().len() && (#[trigger] f(ls.rows()[i])).sound() implies f(
            ls.rows()[i],
        ).rows().to_set() == g(ls.rows()[i]) by {
            lemma_paired_set(ls.rows()[i], rows, shape);
        }
        lemma_through_each(ls, f, g);
    }
}

/// The rows of a scan on the right of a join that pass its filters.
pub open spec fn scan_set(right: RelAlgebra, env: Env, delta: Option<usize>) -> Set<Row> {
    match right {
        RelAlgebra::TempStore(r) => occurrence_rows(r, env, delta).to_set().filter(
            |row: Row| holds(r.filters@, names(r.bindings@), row),
        ),
        RelAlgebra::Stored(r) => snapshot(
            env.tables@[r.storage.id as int].model(),
            newest(),
        ).to_set().filter(|row: Row| holds(r.filters@, names(r.bindings@), row)),
        RelAlgebra::StoredWithValidity(r) => snapshot(
            env.tables@[r.storage.id as int].model(),
            r.as_of,
        ).to_set().filter(|row: Row| holds(r.filters@, names(r.bindings@), row)),
        _ => Set::empty(),
    }
}

proof fn lemma_probing_answer(
    j: InnerJoin,
    ls: Stream,
    right: Result<Stream, QueryFault>,
    env: Env,
    delta: Option<usize>,
)
    requires
        env.stores.wf(),
        j.right.fits(env),
        distinct(j.right),
        j.probing(),
        crate::plan::is_prefix(j.shape().rp),
        in_reach(j.shape().rp, j.right.out_frame().len() as int),
        join_meaning(j, Ok(ls), right, env, delta) is Ok,
        join_meaning(j, Ok(ls), right, env, delta)->Ok_0.sound(),
    ensures
        ls.sound(),
        join_meaning(j, Ok(ls), right, env, delta)->Ok_0.rows().to_set() == each(
            ls.rows().to_set(),
            |l: Row| joined_set(l, scan_set(j.right, env, delta), j.shape()),
        ),
        j.right is TempStore ==> env.stores@.contains_key(j.right->TempStore_0.storage_key@),
{
    let shape = j.shape();
    lemma_prefix_fits(shape.rp, j.right.out_frame().len() as int);
    lemma_sheds_nothing(j.right.frame());
    lemma_fits_steady(j.right, env);
    match j.right {
        RelAlgebra::TempStore(r) => {
            crate::run::lemma_occurrence_wide(j.right, env, delta);
            lemma_probe_join_set(
                ls,
                occurrence_rows(r, env, delta),
                shape,
                r.filters@,
                names(r.bindings@),
                None,
                None,
            );
        },
        RelAlgebra::Stored(r) => {
            let table = env.tables@[r.storage.id as int];
            lemma_probe_join_set(
                ls,
                snapshot(table.model(), newest()),
                shape,
                r.filters@,
                names(r.bindings@),
                Some(table.key_len as int),
                Some(
                    Origin { relation: r.storage.name, key_len: table.key_len, span: r.span },
                ),
            );
        },
        RelAlgebra::StoredWithValidity(r) => {
            let table = env.tables@[r.storage.id as int];
            lemma_probe_join_set(
                ls,
                snapshot(table.model(), r.as_of),
                shape,
                r.filters@,
                names(r.bindings@),
                Some(table.key_len as int),
                None,
            );
        },
        _ => {},
    }
}

proof fn lemma_each_joined(left: Set<Row>, a: Set<Row>, b: Set<Row>, shape: JoinShape)
    requires
        a == b,
    ensures
        each(left, |l: Row| joined_set(l, a, shape)) == each(
            left,
            |l: Row| joined_set(l, b, shape),
        ),
{
}

proof fn lemma_mat_answer(
    left: Result<Stream, QueryFault>,
    right: Result<Stream, QueryFault>,
    shape: JoinShape,
    width: int,
    origin: Option<Origin>,
    la: Set<Row>,
    ra: Set<Row>,
)
    requires
        0 <= width <= usize::MAX,
        store_places(shape.rp, width).len() <= usize::MAX,
        in_reach(shape.rp, width),
        shape.lp.len() == shape.rp.len(),
        right is Ok ==> wide(right->Ok_0, width),
        mat_join(left, right, shape, width, origin) is Ok,
        mat_join(left, right, shape, width, origin)->Ok_0.sound(),
        left is Ok && left->Ok_0.sound() ==> left->Ok_0.rows().to_set() == la,
        right is Ok && right->Ok_0.sound() ==> right->Ok_0.rows().to_set() == ra,
    ensures
        mat_join(left, right, shape, width, origin)->Ok_0.rows().to_set() == each(
            la,
            |l: Row| joined_set(l, ra, shape),
        ),
{
    let ls = left->Ok_0;
    let rs = right->Ok_0;
    let want = each(la, |l: Row| joined_set(l, ra, shape));
    if ls.rows().len() == 0 {
        assert(ls.rows().to_set() =~= Set::empty());
        assert(want =~= Set::empty());
        assert(mat_join(left, right, shape, width, origin)->Ok_0.rows().to_set() =~= Set::empty());
    } else {
        lemma_mat_join_set(ls, rs, shape, width, origin);
        lemma_each_joined(la, rs.rows().to_set(), ra, shape);
    }
}

pub proof fn lemma_join_answer(
    j: InnerJoin,
    left: Result<Stream, QueryFault>,
    right: Result<Stream, QueryFault>,
    la: Set<Row>,
    ra: Set<Row>,
    env: Env,
    delta: Option<usize>,
)
    requires
        env.stores.wf(),
        j.right.fits(env),
        distinct(j.right),
        j.left.out_frame().len() <= usize::MAX,
        j.right.out_frame().len() <= usize::MAX,
        store_places(j.shape().rp, j.right.out_frame().len() as int).len() <= usize::MAX,
        right is Ok ==> wide(right->Ok_0, j.right.out_frame().len() as int),
        join_meaning(j, left, right, env, delta) is Ok,
        join_meaning(j, left, right, env, delta)->Ok_0.sound(),
        left is Ok && left->Ok_0.sound() ==> left->Ok_0.rows().to_set() == la,
        right is Ok && right->Ok_0.sound() ==> right->Ok_0.rows().to_set() == ra,
        j.right is Fixed ==> ra == j.right->Fixed_0.rows().to_set(),
        j.probing() && (j.right is TempStore ==> env.stores@.contains_key(
            j.right->TempStore_0.storage_key@,
        )) ==> ra == scan_set(j.right, env, delta),
    ensures
        join_meaning(j, left, right, env, delta)->Ok_0.rows().to_set() == each(
            la,
            |l: Row| joined_set(l, ra, j.shape()),
        ),
{
    let shape = j.shape();
    let width = j.right.out_frame().len() as int;
    lemma_keys_placed(
        names(j.joiner.left_keys@),
        names(j.joiner.right_keys@),
        j.left.out_frame(),
        j.right.out_frame(),
        j.joiner.arity(),
    );
    if j.right is Fixed {
        let rows = j.right->Fixed_0.rows();
        lemma_fixed_join_set(left->Ok_0, rows, shape, la);
        lemma_each_joined(la, rows.to_set(), ra, shape);
    } else if !crate::plan::is_prefix(shape.rp) || !j.probing() {
        let origin = scan_origin(j.right, env);
        assert(join_meaning(j, left, right, env, delta) == mat_join(
            left,
            right,
            shape,
            width,
            origin,
        ));
        lemma_mat_answer(left, right, shape, width, origin, la, ra);
    } else {
        lemma_probing_answer(j, left->Ok_0, right, env, delta);
        lemma_each_joined(la, scan_set(j.right, env, delta), ra, shape);
    }
}

/// Where nothing fails, a negation keeps the left rows that no right row agrees
/// with.
pub proof fn lemma_neg_answer(n: NegJoin, ls: Stream, env: Env)
    requires
        env.stores.wf(),
        neg_fits(n.right, env),
        n.joiner.fault(n.left.out_frame(), n.right.frame()) is None,
        neg_rows(n.right, env) is Ok,
        ({
            let rows = neg_rows(n.right, env)->Ok_0;
            let out = neg_join(ls, rows, neg_shape(n), neg_origin(n.right, env));
            out is Ok ==> out->Ok_0.sound()
        }),
    ensures
        ls.sound(),
        ({
            let rows = neg_rows(n.right, env)->Ok_0;
            let shape = neg_shape(n);
            let out = neg_join(ls, rows, shape, neg_origin(n.right, env));
            &&& out is Ok
            &&& out->Ok_0.rows().to_set() == each(
                ls.rows().to_set(),
                |l: Row|
                    just(
                        n.joiner.fault(n.left.out_frame(), n.right.frame()) is None && neg_rows(
                            n.right,
                            env,
                        ) is Ok && unmatched(l, neg_rows(n.right, env)->Ok_0, shape),
                        without(l, shape.drop),
                    ),
            )
        }),
{
    let rows = neg_rows(n.right, env)->Ok_0;
    let shape = neg_shape(n);
    let origin = neg_origin(n.right, env);
    let f = |l: Row| spared(l, rows, shape, origin);
    let g = |l: Row|
        just(
            n.joiner.fault(n.left.out_frame(), n.right.frame()) is None && neg_rows(
                n.right,
                env,
            ) is Ok && unmatched(l, neg_rows(n.right, env)->Ok_0, shape),
            without(l, shape.drop),
        );
    lemma_neg_readable(n, env);
    assert forall|i: int| 0 <= i < ls.rows().len() && (#[trigger] f(ls.rows()[i])).sound() implies f(
        ls.rows()[i],
    ).rows().to_set() == g(ls.rows()[i]) by {
        lemma_spared_wide(ls.rows()[i], rows, shape, origin);
        lemma_one_set(without(ls.rows()[i], shape.drop));
    }
    lemma_through_each(ls, f, g);
}

/// Where nothing fails, the rows of a plan are its answer: neither the order
/// in which rows come nor the way a join is carried out matters to it.
pub proof fn law_rows_are_the_answer(plan: RelAlgebra, env: Env, delta: Option<usize>)
    requires
        env.stores.wf(),
        plan.fits(env),
        distinct(plan),
        sized(plan),
        meaning(plan, env, delta) is Ok,
        meaning(plan, env, delta)->Ok_0.sound(),
    ensures
        meaning(plan, env, delta)->Ok_0.rows().to_set() == answer(plan, env, delta),
    decreases plan,
{
    match plan {
        RelAlgebra::Fixed(r) => {
            lemma_of_rows(r.rows());
        },
        RelAlgebra::TempStore(r) => {
            lemma_sifted_set(occurrence_rows(r, env, delta), r.filters@, names(r.bindings@));
        },
        RelAlgebra::Stored(r) => {
            lemma_sifted_set(
                snapshot(env.tables@[r.storage.id as int].model(), newest()),
                r.filters@,
                names(r.bindings@),
            );
        },
        RelAlgebra::StoredWithValidity(r) => {
            lemma_sifted_set(
                snapshot(env.tables@[r.storage.id as int].model(), r.as_of),
                r.filters@,
                names(r.bindings@),
            );
        },
        RelAlgebra::Spans(r) => {
            lemma_row_set(meaning(plan, env, delta)->Ok_0);
        },
        RelAlgebra::Delta(r) => {
            lemma_delta_enumerable(env.tables@[r.storage.id as int], r.from, r.to);
            lemma_of_rows(
                ordered(delta_set(env.tables@[r.storage.id as int].model(), r.from, r.to)),
            );
        },
        RelAlgebra::Reorder(r) => {
            let s = meaning(*r.relation, env, delta)->Ok_0;
            let places = places_of(
                names(r.new_order@),
                r.relation.out_frame(),
                r.new_order@.len() as int,
            );
            let f = |row: Row| Stream::one(project(row, places));
            let g = |row: Row|
                just(
                    all_placed(names(r.new_order@), r.relation.out_frame()),
                    project(row, places),
                );
            assert forall|i: int|
                0 <= i < s.rows().len() && (#[trigger] f(s.rows()[i])).sound() implies f(
                s.rows()[i],
            ).rows().to_set() == g(s.rows()[i]) by {
                lemma_one_set(project(s.rows()[i], places));
            }
            lemma_through_each(s, f, g);
            law_rows_are_the_answer(*r.relation, env, delta);
        },
        RelAlgebra::Filter(r) => {
            let s = meaning(*r.parent, env, delta)->Ok_0;
            let frame = r.parent.out_frame();
            let gone = name_set(r.to_eliminate@);
            let f = |row: Row| sift(r.filters@, frame, row, shed(row, frame, gone));
            let g = |row: Row| just(holds(r.filters@, frame, row), shed(row, frame, gone));
            assert forall|i: int|
                0 <= i < s.rows().len() && (#[trigger] f(s.rows()[i])).sound() implies f(
                s.rows()[i],
            ).rows().to_set() == g(s.rows()[i]) by {
                lemma_sift_set(r.filters@, frame, s.rows()[i], shed(s.rows()[i], frame, gone));
            }
            lemma_through_each(s, f, g);
            law_rows_are_the_answer(*r.parent, env, delta);
        },
        RelAlgebra::Unification(u) => {
            let s = meaning(*u.parent, env, delta)->Ok_0;
            let frame = u.parent.out_frame();
            let f = |row: Row|
                unified(
                    row,
                    eval_named(u.expr, frame, row),
                    u.is_multi,
                    u.span,
                    gone_at(frame.push(u.binding@), name_set(u.to_eliminate@)),
                );
            let g = |row: Row| unified_set(u, frame, row);
            assert forall|i: int|
                0 <= i < s.rows().len() && (#[trigger] f(s.rows()[i])).sound() implies f(
                s.rows()[i],
            ).rows().to_set() == g(s.rows()[i]) by {
                lemma_unified_set(u, frame, s.rows()[i]);
            }
            lemma_through_each(s, f, g);
            law_rows_are_the_answer(*u.parent, env, delta);
        },
        RelAlgebra::Search(x) => {
            let s = meaning(*x.parent, env, delta)->Ok_0;
            let f = |row: Row| searched(row, *x, env);
            let g = |row: Row| searched_set(*x, env, row);
            assert forall|i: int|
                0 <= i < s.rows().len() && (#[trigger] f(s.rows()[i])).sound() implies f(
                s.rows()[i],
            ).rows().to_set() == g(s.rows()[i]) by {
                lemma_searched_set(*x, env, s.rows()[i]);
            }
            lemma_through_each(s, f, g);
            law_rows_are_the_answer(*x.parent, env, delta);
        },
        RelAlgebra::NegJoin(n) => {
            lemma_neg_answer(*n, meaning(n.left, env, delta)->Ok_0, env);
            law_rows_are_the_answer(n.left, env, delta);
        },
        RelAlgebra::Join(j) => {
            let left = meaning(j.left, env, delta);
            let right = meaning(j.right, env, delta);
            if left is Ok && left->Ok_0.sound() {
                law_rows_are_the_answer(j.left, env, delta);
            }
            if right is Ok && right->Ok_0.sound() {
                law_rows_are_the_answer(j.right, env, delta);
            }
            if right is Ok {
                lemma_fits_steady(j.right, env);
                lemma_width(j.right, env, delta);
            }
            lemma_join_answer(
                *j,
                left,
                right,
                answer(j.left, env, delta),
                answer(j.right, env, delta),
                env,
                delta,
            );
        },
    }
}

/// The rows of an answer are as wide as the frame the plan hands on.
pub proof fn lemma_answer_width(plan: RelAlgebra, env: Env, delta: Option<usize>)
    requires
        env.stores.wf(),
        plan.fits(env),
    ensures
        crate::probe::all_wide(answer(plan, env, delta), plan.out_frame().len() as int),
    decreases plan,
{
    let w = plan.out_frame().len() as int;
    let all = answer(plan, env, delta);
    match plan {
        RelAlgebra::Fixed(r) => {
            lemma_fits_steady(plan, env);
            lemma_width(plan, env, delta);
            let s = meaning(plan, env, delta)->Ok_0;
            assert forall|x: Row| #[trigger] all.contains(x) implies x.len() == w by {
                assert(s.items[r.rows().index_of(x)] is Ok);
            }
        },
        RelAlgebra::TempStore(r) => {
            lemma_sheds_nothing(plan.frame());
            if env.stores@.contains_key(r.storage_key@) {
                lemma_fits_steady(plan, env);
                crate::run::lemma_occurrence_wide(plan, env, delta);
                let rows = occurrence_rows(r, env, delta);
                assert forall|x: Row| #[trigger] all.contains(x) implies x.len() == w by {
                    assert(rows[rows.index_of(x)].len() == w);
                }
            }
        },
        RelAlgebra::Stored(r) => {
            lemma_sheds_nothing(plan.frame());
            let rows = snapshot(env.tables@[r.storage.id as int].model(), newest());
            assert forall|x: Row| #[trigger] all.contains(x) implies x.len() == w by {
                assert(rows[rows.index_of(x)].len() == w);
            }
        },
        RelAlgebra::StoredWithValidity(r) => {
            lemma_sheds_nothing(plan.frame());
            let rows = snapshot(env.tables@[r.storage.id as int].model(), r.as_of);
            assert forall|x: Row| #[trigger] all.contains(x) implies x.len() == w by {
                assert(rows[rows.index_of(x)].len() == w);
            }
        },
        RelAlgebra::Spans(r) => {
            lemma_sheds_nothing(plan.frame());
            let s = spans_stream(env.tables@[r.storage.id as int].model(), r.sys as int);
            assert forall|x: Row| #[trigger] all.contains(x) implies x.len() == w by {
                let i = choose|i: int|
                    0 <= i < s.items.len() && (#[trigger] s.items[i]) == Ok::<Row, QueryFault>(x);
                assert(s.items[i] is Ok);
            }
        },
        RelAlgebra::Delta(r) => {
            lemma_sheds_nothing(plan.frame());
        },
        RelAlgebra::Reorder(r) => {
            lemma_sheds_nothing(plan.frame());
        },
        RelAlgebra::Filter(r) => {
            lemma_answer_width(*r.parent, env, delta);
            let frame = r.parent.out_frame();
            let at = gone_at(frame, name_set(r.to_eliminate@));
            assert forall|x: Row| #[trigger] all.contains(x) implies x.len() == w by {
                let row = choose|row: Row| #[trigger]
                    answer(*r.parent, env, delta).contains(row) && just(
                        holds(r.filters@, frame, row),
                        shed(row, frame, name_set(r.to_eliminate@)),
                    ).contains(x);
                crate::names::lemma_without_len(row, frame, at);
            }
        },
        RelAlgebra::Unification(u) => {
            lemma_answer_width(*u.parent, env, delta);
            let frame = u.parent.out_frame();
            let all_names = frame.push(u.binding@);
            let drop = gone_at(all_names, name_set(u.to_eliminate@));
            assert forall|x: Row| #[trigger] all.contains(x) implies x.len() == w by {
                let row = choose|row: Row| #[trigger]
                    answer(*u.parent, env, delta).contains(row) && unified_set(
                        u,
                        frame,
                        row,
                    ).contains(x);
                let v = eval_named(u.expr, frame, row)->Ok_0;
                crate::names::lemma_without_len(row.push(v), all_names, drop);
                if u.is_multi {
                    let i = choose|i: int|
                        0 <= i < (v->List_0).len() && x == without(
                            row.push(#[trigger] (v->List_0)[i]),
                            drop,
                        );
                    crate::names::lemma_without_len(row.push((v->List_0)[i]), all_names, drop);
                }
            }
        },
        RelAlgebra::Search(s) => {
            lemma_answer_width(*s.parent, env, delta);
            lemma_sheds_nothing(plan.frame());
        },
        RelAlgebra::NegJoin(n) => {
            lemma_answer_width(n.left, env, delta);
            let frame = n.left.out_frame();
            let shape = neg_shape(*n);
            assert forall|x: Row| #[trigger] all.contains(x) implies x.len() == w by {
                let l = choose|l: Row| #[trigger]
                    answer(n.left, env, delta).contains(l) && x == without(l, shape.drop);
                crate::names::lemma_without_len(l, frame, shape.drop);
            }
        },
        RelAlgebra::Join(j) => {
            lemma_answer_width(j.left, env, delta);
            lemma_answer_width(j.right, env, delta);
            let shape = j.shape();
            assert forall|x: Row| #[trigger] all.contains(x) implies x.len() == w by {
                let l = choose|l: Row| #[trigger]
                    answer(j.left, env, delta).contains(l) && joined_set(
                        l,
                        answer(j.right, env, delta),
                        shape,
                    ).contains(x);
                let r = choose|r: Row| #[trigger]
                    answer(j.right, env, delta).contains(r) && keys_match(
                        l,
                        shape.lp,
                        r,
                        shape.rp,
                    ) && x == without(l + r, shape.drop);
                crate::names::lemma_without_len(l + r, j.columns(), shape.drop);
            }
        },
    }
}

} // verus!
