//! Running a plan: every operator over the streams of its parents.

use vstd::prelude::*;
use crate::answer::neg_shape;
use crate::delta::{
    diff, earlier, filed_rows, first_misfit, in_window, later, law_posting_agrees_with_snapshots,
    lemma_table_keyed, patch_naive, patch_via_posting, posting_covers, signed_row, signed_rows,
    CorruptPosting, Signed,
};
use crate::epoch::{lemma_ordered, ordered};
use crate::expr::{eval_row, EvalError, EvalFault, Expr};
use crate::history::{joined, snapshot, AsOf, FactModel, FactTable};
use crate::meaning::{
    all_placed, delta_set, fixed_join, join_meaning, mat_failure, mat_join, mat_joined,
    materialized, meaning, meeting, met, neg_join, neg_origin, neg_rows, newest, occurrence_rows,
    paired, passes, probe_columns, probe_join, probed, probed_row, read_failure, scan_origin,
    searched, search_filters, sift, sifted, spans_stream, spared, store_places, unified, Env,
    JoinShape, Origin,
};
use crate::names::{
    gone_at, get_eliminate_indices, kept, last_place, lemma_last_place, lemma_without_len,
    lemma_without_nothing, name_set, names, place_in, places_set, shed, without, Name,
};
use crate::negate::{
    findable, lemma_none_missing, lemma_readable, missing_place, neg_join_rows, neg_join_scan,
};
use crate::order::{strictly_sorted, OrderedSet};
use crate::plan::{
    is_prefix, join_is_prefix, key_fault, places_of, DeltaRA, FilteredRA, InnerJoin, NegJoin,
    NegRight, RelAlgebra, RelationHandle, ReorderRA, SearchRA, SpansRA, UnificationRA,
};
use crate::probe::{
    all_at_place, all_wide, epoch_store_of, in_reach, lemma_delta_within, lemma_prefix_fits,
    lemma_reached, lemma_store_enumerated, reached,
};
use crate::resolve::{eval_named, lemma_placed, placed};
use crate::spans::{derivation, derive_group, law_derivation_unique};
use crate::steps::{
    back_order, can_search, materialize, store_order, FilterStep, MatStep, ReorderStep, UnifyStep,
};
use crate::stream::{
    flow, item_model, lemma_failed, lemma_failure, lemma_flow_ext, lemma_flow_step, lemma_followed,
    lemma_of_rows, lemma_through_ext, lemma_through_of, on_items, pipe, through, Item,
    PlanInvariant, QueryError, QueryFault, RowStep, Stream, TupleStream,
};
use crate::table_probe::{lemma_row_of_key, lemma_snapshot_sorted, report_short, table_wide};
use crate::temp_store::project;
use crate::value::{copy_row, Row, Tuple, Val};

verus! {

/// The rows of a stream have one width.
pub open spec fn wide(s: Stream, w: int) -> bool {
    forall|i: int|
        0 <= i < s.items.len() && (#[trigger] s.items[i]) is Ok ==> s.items[i]->Ok_0.len() == w
}

/// Two streams of one width, one after the other.
pub proof fn lemma_followed_wide(a: Stream, b: Stream, w: int)
    requires
        wide(a, w),
        wide(b, w),
    ensures
        wide(a.followed_by(b), w),
{
    let c = a.followed_by(b);
    assert forall|i: int| 0 <= i < c.items.len() && (#[trigger] c.items[i]) is Ok implies (
    c.items[i]->Ok_0).len() == w by {
        if i < a.items.len() {
            assert(c.items[i] == a.items[i]);
        } else {
            assert(c.items[i] == b.items[i - a.items.len()]);
        }
    }
}

/// Rows of one width have every place below it.
pub proof fn lemma_wide_reached(s: Stream, w: int, places: Seq<usize>)
    requires
        wide(s, w),
        in_reach(places, w),
    ensures
        reached(s, places),
{
}

/// The rows on the right of a negation are as wide as its columns.
pub open spec fn neg_fits(right: NegRight, env: Env) -> bool {
    match right {
        NegRight::TempStore(r) => env.stores@.contains_key(r.storage_key@) ==> all_wide(
            env.stores@[r.storage_key@].rows(),
            r.bindings@.len() as int,
        ),
        NegRight::Stored(r) => {
            &&& r.storage.id < env.tables@.len()
            &&& env.tables@[r.storage.id as int].wf()
            &&& table_wide(env.tables@[r.storage.id as int], newest(), r.bindings@.len() as int)
        },
        NegRight::StoredWithValidity(r) => {
            &&& r.storage.id < env.tables@.len()
            &&& env.tables@[r.storage.id as int].wf()
            &&& table_wide(env.tables@[r.storage.id as int], r.as_of, r.bindings@.len() as int)
        },
        NegRight::Spans(r) => spans_fit(r, env),
        NegRight::Delta(r) => delta_fits(r, env),
    }
}

pub open spec fn spans_fit(r: SpansRA, env: Env) -> bool {
    &&& r.storage.id < env.tables@.len()
    &&& env.tables@[r.storage.id as int].wf()
    &&& wide(
        spans_stream(env.tables@[r.storage.id as int].model(), r.sys as int),
        r.bindings@.len() as int,
    )
}

pub open spec fn delta_fits(r: DeltaRA, env: Env) -> bool {
    &&& r.storage.id < env.tables@.len()
    &&& env.tables@[r.storage.id as int].wf()
    &&& all_wide(
        delta_set(env.tables@[r.storage.id as int].model(), r.from, r.to),
        r.bindings@.len() as int,
    )
}

/// The index that is searched is there, and its rows are as wide as the columns
/// they are bound to.
pub open spec fn search_fits(s: SearchRA, env: Env) -> bool {
    &&& s.index < env.indexes@.len()
    &&& env.indexes@[s.index as int].wf()
    &&& forall|q: Val, i: int|
        0 <= i < env.indexes@[s.index as int].found(q).len() ==> (
        #[trigger] env.indexes@[s.index as int].found(q)[i]).len() == s.own_bindings@.len()
}

/// A stored relation is there.
pub open spec fn table_there(storage: RelationHandle, env: Env) -> bool {
    &&& storage.id < env.tables@.len()
    &&& env.tables@[storage.id as int].wf()
}

/// The rows on the right of a negation can be read. Stored rows may have any
/// width.
pub open spec fn neg_runs(right: NegRight, env: Env) -> bool {
    match right {
        NegRight::Stored(r) => table_there(r.storage, env),
        NegRight::StoredWithValidity(r) => table_there(r.storage, env),
        _ => neg_fits(right, env),
    }
}

/// The rows of a relation that have the given columns are as wide as a frame.
pub open spec fn wide_where_read(table: FactTable, at: AsOf, rp: Seq<usize>, w: int) -> bool {
    forall|i: int|
        0 <= i < snapshot(table.model(), at).len() && in_reach(
            rp,
            (#[trigger] snapshot(table.model(), at)[i]).len() as int,
        ) ==> snapshot(table.model(), at)[i].len() == w
}

/// A stored relation that a join reads is there. Where it is probed, its rows
/// that have the join columns are as wide as its own columns; where it is
/// materialized, every column is read.
pub open spec fn probe_steady(j: InnerJoin, env: Env) -> bool {
    match j.right {
        RelAlgebra::Stored(r) => {
            &&& table_there(r.storage, env)
            &&& is_prefix(j.shape().rp) ==> wide_where_read(
                env.tables@[r.storage.id as int],
                newest(),
                j.shape().rp,
                r.bindings@.len() as int,
            )
        },
        RelAlgebra::StoredWithValidity(r) => {
            &&& table_there(r.storage, env)
            &&& is_prefix(j.shape().rp) ==> wide_where_read(
                env.tables@[r.storage.id as int],
                r.as_of,
                j.shape().rp,
                r.bindings@.len() as int,
            )
        },
        _ => false,
    }
}

/// A plan whose rows all have the width of their columns is steady.
pub proof fn lemma_fits_steady(plan: RelAlgebra, env: Env)
    requires
        plan.fits(env),
    ensures
        plan.steady(env),
        plan.runs(env),
    decreases plan,
{
    match plan {
        RelAlgebra::Reorder(r) => {
            lemma_fits_steady(*r.relation, env);
        },
        RelAlgebra::Filter(r) => {
            lemma_fits_steady(*r.parent, env);
        },
        RelAlgebra::Unification(u) => {
            lemma_fits_steady(*u.parent, env);
        },
        RelAlgebra::Search(s) => {
            lemma_fits_steady(*s.parent, env);
        },
        RelAlgebra::NegJoin(n) => {
            lemma_fits_steady(n.left, env);
        },
        RelAlgebra::Join(j) => {
            lemma_fits_steady(j.left, env);
            lemma_fits_steady(j.right, env);
        },
        _ => {},
    }
}

/// A steady plan can be run.
pub proof fn lemma_steady_runs(plan: RelAlgebra, env: Env)
    requires
        plan.steady(env),
    ensures
        plan.runs(env),
    decreases plan,
{
    match plan {
        RelAlgebra::Filter(r) => {
            lemma_steady_runs(*r.parent, env);
        },
        RelAlgebra::Search(s) => {
            lemma_steady_runs(*s.parent, env);
        },
        RelAlgebra::Join(j) => {
            reveal_with_fuel(RelAlgebra::runs, 2);
            reveal_with_fuel(RelAlgebra::steady, 2);
        },
        _ => {},
    }
}

/// A steady join reads a stored relation as it can be read.
proof fn lemma_steady_join(j: InnerJoin, env: Env)
    requires
        RelAlgebra::Join(Box::new(j)).steady(env),
    ensures
        j.left.steady(env),
        j.joins_table() ==> probe_steady(j, env),
        !j.joins_table() || j.left.unit_like() ==> j.right.steady(env),
{
    reveal_with_fuel(RelAlgebra::steady, 2);
}

impl RelAlgebra {
    /// What the plan scans is there, and its rows are as wide as the columns
    /// they are bound to.
    pub open spec fn fits(self, env: Env) -> bool
        decreases self,
    {
        match self {
            RelAlgebra::Fixed(r) => forall|i: int|
                0 <= i < r.data@.len() ==> (#[trigger] r.data@[i])@.len() == r.bindings@.len(),
            RelAlgebra::TempStore(r) => env.stores@.contains_key(r.storage_key@) ==> all_wide(
                env.stores@[r.storage_key@].rows(),
                r.bindings@.len() as int,
            ),
            RelAlgebra::Stored(r) => {
                &&& r.storage.id < env.tables@.len()
                &&& env.tables@[r.storage.id as int].wf()
                &&& table_wide(
                    env.tables@[r.storage.id as int],
                    newest(),
                    r.bindings@.len() as int,
                )
            },
            RelAlgebra::StoredWithValidity(r) => {
                &&& r.storage.id < env.tables@.len()
                &&& env.tables@[r.storage.id as int].wf()
                &&& table_wide(env.tables@[r.storage.id as int], r.as_of, r.bindings@.len() as int)
            },
            RelAlgebra::Spans(r) => spans_fit(r, env),
            RelAlgebra::Delta(r) => delta_fits(r, env),
            RelAlgebra::Reorder(r) => r.relation.fits(env),
            RelAlgebra::Filter(r) => r.parent.fits(env),
            RelAlgebra::Unification(u) => u.parent.fits(env),
            RelAlgebra::Search(s) => s.parent.fits(env) && search_fits(*s, env),
            RelAlgebra::NegJoin(n) => n.left.fits(env) && neg_fits(n.right, env),
            RelAlgebra::Join(j) => j.left.fits(env) && j.right.fits(env),
        }
    }

    /// What the plan scans is there, and every row that comes out is as wide as
    /// the frame the plan hands on. A stored relation on the right of a join may
    /// hold rows that end before a column that the join reads: no joined row comes
    /// of them.
    pub open spec fn steady(self, env: Env) -> bool
        decreases self,
    {
        match self {
            RelAlgebra::Reorder(r) => r.relation.steady(env),
            RelAlgebra::Filter(r) => r.parent.steady(env),
            RelAlgebra::Unification(u) => u.parent.steady(env),
            RelAlgebra::Search(s) => s.parent.steady(env) && search_fits(*s, env),
            RelAlgebra::NegJoin(n) => n.left.steady(env) && neg_runs(n.right, env),
            RelAlgebra::Join(j) => j.left.steady(env) && if j.joins_table()
                && !j.left.unit_like() {
                probe_steady(*j, env)
            } else {
                j.right.steady(env)
            },
            _ => self.fits(env),
        }
    }

    /// What the plan scans is there, and no operator that places columns reads a
    /// row narrower than its frame.
    pub open spec fn runs(self, env: Env) -> bool
        decreases self,
    {
        match self {
            RelAlgebra::Stored(r) => table_there(r.storage, env),
            RelAlgebra::StoredWithValidity(r) => table_there(r.storage, env),
            RelAlgebra::Reorder(r) => r.relation.steady(env),
            RelAlgebra::Filter(r) => r.parent.runs(env),
            RelAlgebra::Unification(u) => u.parent.steady(env),
            RelAlgebra::Search(s) => s.parent.runs(env) && search_fits(*s, env),
            RelAlgebra::NegJoin(n) => n.left.steady(env) && neg_runs(n.right, env),
            RelAlgebra::Join(j) => j.left.steady(env) && if j.joins_table() {
                j.right.runs(env)
            } else {
                j.right.steady(env)
            },
            _ => self.fits(env),
        }
    }

    /// Every name in the plan's expressions has its place.
    pub open spec fn compiled(self) -> bool
        decreases self,
    {
        match self {
            RelAlgebra::TempStore(r) => all_at_place(r.filters@, names(r.bindings@)),
            RelAlgebra::Stored(r) => all_at_place(r.filters@, names(r.bindings@)),
            RelAlgebra::StoredWithValidity(r) => all_at_place(r.filters@, names(r.bindings@)),
            RelAlgebra::Reorder(r) => r.relation.compiled(),
            RelAlgebra::Filter(r) => r.parent.compiled() && all_at_place(
                r.filters@,
                r.parent.out_frame(),
            ),
            RelAlgebra::Unification(u) => u.parent.compiled() && placed(
                u.expr,
                u.parent.out_frame(),
            ),
            RelAlgebra::Search(s) => {
                &&& s.parent.compiled()
                &&& placed(s.query, s.parent.out_frame())
                &&& all_at_place(
                    search_filters(s.filter),
                    s.parent.out_frame() + names(s.own_bindings@),
                )
            },
            RelAlgebra::NegJoin(n) => n.left.compiled(),
            RelAlgebra::Join(j) => j.left.compiled() && j.right.compiled(),
            _ => true,
        }
    }
}

pub proof fn lemma_flow_wide<A>(items: Seq<A>, f: spec_fn(A) -> Stream, w: int)
    requires
        forall|i: int| 0 <= i < items.len() ==> wide(#[trigger] f(items[i]), w),
    ensures
        wide(flow(items, f), w),
    decreases items.len(),
{
    if items.len() > 0 {
        let rest = items.drop_last();
        assert forall|i: int| 0 <= i < rest.len() implies wide(#[trigger] f(rest[i]), w) by {
            assert(wide(f(items[i]), w));
        }
        lemma_flow_wide(rest, f, w);
        assert(wide(f(items[items.len() - 1]), w));
        lemma_followed_wide(flow(rest, f), f(items.last()), w);
    }
}

pub proof fn lemma_through_wide(s: Stream, f: spec_fn(Row) -> Stream, w: int)
    requires
        forall|i: int|
            0 <= i < s.items.len() && (#[trigger] s.items[i]) is Ok ==> wide(
                f(s.items[i]->Ok_0),
                w,
            ),
    ensures
        wide(through(s, f), w),
{
    let g = on_items(f);
    assert forall|i: int| 0 <= i < s.items.len() implies wide(#[trigger] g(s.items[i]), w) by {
        let item = s.items[i];
        assert(item is Ok || item is Err);
    }
    lemma_flow_wide(s.items, g, w);
}

/// An operator that sheds nothing hands its whole frame on.
pub proof fn lemma_sheds_nothing(frame: Seq<Name>)
    ensures
        kept(frame, Set::<Name>::empty()) == frame,
{
    lemma_without_nothing(frame, gone_at(frame, Set::<Name>::empty()));
}

pub proof fn lemma_sifted_wide(rows: Seq<Row>, filters: Seq<Expr>, frame: Seq<Name>, w: int)
    requires
        forall|i: int| 0 <= i < rows.len() ==> (#[trigger] rows[i]).len() == w,
    ensures
        wide(sifted(rows, filters, frame), w),
{
    let f = |r: Row| sift(filters, frame, r, r);
    assert forall|i: int| 0 <= i < rows.len() implies wide(#[trigger] f(rows[i]), w) by {}
    lemma_flow_wide(rows, f, w);
}

proof fn lemma_probed_wide(
    l: Row,
    rows: Seq<Row>,
    shape: JoinShape,
    filters: Seq<Expr>,
    rframe: Seq<Name>,
    columns: Seq<Name>,
    origin: Option<Origin>,
    frame: Seq<Name>,
)
    requires
        shape.lp.len() == shape.rp.len(),
        forall|i: int|
            0 <= i < rows.len() && in_reach(shape.rp, (#[trigger] rows[i]).len() as int)
                ==> l.len() + rows[i].len() == frame.len(),
    ensures
        wide(
            probed(l, rows, shape, filters, rframe, columns, origin),
            without(frame, shape.drop).len() as int,
        ),
{
    let w = without(frame, shape.drop).len() as int;
    let h = |r: Row| probed_row(l, r, shape, filters, rframe, columns, origin);
    assert forall|i: int| 0 <= i < rows.len() implies wide(#[trigger] h(rows[i]), w) by {
        if met(l, rows[i], shape, origin) is Agree {
            lemma_met_reach(l, rows[i], shape, origin);
            lemma_without_len(l + rows[i], frame, shape.drop);
        }
    }
    lemma_flow_wide(rows, h, w);
}

pub proof fn lemma_fixed_wide(plan: RelAlgebra, env: Env)
    requires
        plan is Fixed,
        plan.steady(env),
    ensures
        wide(Stream::of(plan->Fixed_0.rows()), plan.out_frame().len() as int),
{
    let r = plan->Fixed_0;
    let w = plan.out_frame().len() as int;
    assert forall|i: int| 0 <= i < r.rows().len() implies (#[trigger] r.rows()[i]).len() == w by {
        lemma_without_len(
            r.data@[i].deep_view(),
            names(r.bindings@),
            gone_at(names(r.bindings@), name_set(r.to_eliminate@)),
        );
        assert(r.data@[i].deep_view().len() == r.data@[i]@.len());
    }
}

pub proof fn lemma_unified_wide(u: UnificationRA, row: Row)
    requires
        row.len() == u.parent.out_frame().len(),
    ensures
        wide(
            unified(
                row,
                eval_named(u.expr, u.parent.out_frame(), row),
                u.is_multi,
                u.span,
                gone_at(u.parent.out_frame().push(u.binding@), name_set(u.to_eliminate@)),
            ),
            RelAlgebra::Unification(u).out_frame().len() as int,
        ),
{
    let frame = u.parent.out_frame();
    let w = RelAlgebra::Unification(u).out_frame().len() as int;
    let drop = gone_at(frame.push(u.binding@), name_set(u.to_eliminate@));
    let out = unified(row, eval_named(u.expr, frame, row), u.is_multi, u.span, drop);
    assert forall|j: int| 0 <= j < out.items.len() && (#[trigger] out.items[j]) is Ok implies (
    out.items[j]->Ok_0).len() == w by {
        match eval_named(u.expr, frame, row) {
            Ok(v) => {
                if u.is_multi {
                    match v {
                        Val::List(items) => {
                            lemma_without_len(row.push(items[j]), frame.push(u.binding@), drop);
                        },
                        _ => {},
                    }
                } else {
                    lemma_without_len(row.push(v), frame.push(u.binding@), drop);
                }
            },
            Err(_) => {},
        }
    }
}

pub proof fn lemma_searched_wide(s: SearchRA, row: Row, env: Env)
    requires
        search_fits(s, env),
        row.len() == s.parent.out_frame().len(),
    ensures
        wide(searched(row, s, env), RelAlgebra::Search(Box::new(s)).out_frame().len() as int),
{
    let plan = RelAlgebra::Search(Box::new(s));
    let w = plan.out_frame().len() as int;
    let pframe = s.parent.out_frame();
    lemma_sheds_nothing(plan.frame());
    match eval_named(s.query, pframe, row) {
        Ok(q) => {
            let found = env.indexes@[s.index as int].found(q);
            let g = |t: Row|
                sift(
                    search_filters(s.filter),
                    pframe + names(s.own_bindings@),
                    row + t,
                    row + t,
                );
            assert forall|k: int| 0 <= k < found.len() implies wide(#[trigger] g(found[k]), w) by {
                assert(env.indexes@[s.index as int].found(q)[k].len() == s.own_bindings@.len());
            }
            lemma_flow_wide(found, g, w);
        },
        Err(_) => {},
    }
}

/// The rows that a negation spares are as wide as the frame it hands on.
pub proof fn lemma_neg_wide(n: NegJoin, ls: Stream, env: Env)
    requires
        wide(ls, n.left.out_frame().len() as int),
    ensures
        ({
            let rows = neg_rows(n.right, env)->Ok_0;
            let out = neg_join(ls, rows, neg_shape(n), neg_origin(n.right, env));
            out is Ok ==> wide(
                out->Ok_0,
                RelAlgebra::NegJoin(Box::new(n)).out_frame().len() as int,
            )
        }),
{
    let w = RelAlgebra::NegJoin(Box::new(n)).out_frame().len() as int;
    let rows = neg_rows(n.right, env)->Ok_0;
    let shape = neg_shape(n);
    let origin = neg_origin(n.right, env);
    let f = |l: Row| spared(l, rows, shape, origin);
    assert forall|i: int| 0 <= i < ls.items.len() && (#[trigger] ls.items[i]) is Ok implies wide(
        f(ls.items[i]->Ok_0),
        w,
    ) by {
        lemma_without_len(ls.items[i]->Ok_0, n.left.out_frame(), shape.drop);
    }
    lemma_through_wide(ls, f, w);
}

/// The rows of a plan are as wide as the frame it hands on.
#[verifier::rlimit(40)]
pub proof fn lemma_width(plan: RelAlgebra, env: Env, delta: Option<usize>)
    requires
        env.stores.wf(),
        plan.steady(env),
        meaning(plan, env, delta) is Ok,
    ensures
        wide(meaning(plan, env, delta)->Ok_0, plan.out_frame().len() as int),
    decreases plan,
{
    let w = plan.out_frame().len() as int;
    match plan {
        RelAlgebra::Fixed(r) => {
            lemma_fixed_wide(plan, env);
        },
        RelAlgebra::TempStore(r) => {
            lemma_sheds_nothing(plan.frame());
            lemma_occurrence_wide(plan, env, delta);
            lemma_sifted_wide(
                occurrence_rows(r, env, delta),
                r.filters@,
                names(r.bindings@),
                w,
            );
        },
        RelAlgebra::Stored(r) => {
            lemma_sheds_nothing(plan.frame());
            lemma_sifted_wide(
                snapshot(env.tables@[r.storage.id as int].model(), newest()),
                r.filters@,
                names(r.bindings@),
                w,
            );
        },
        RelAlgebra::StoredWithValidity(r) => {
            lemma_sheds_nothing(plan.frame());
            lemma_sifted_wide(
                snapshot(env.tables@[r.storage.id as int].model(), r.as_of),
                r.filters@,
                names(r.bindings@),
                w,
            );
        },
        RelAlgebra::Spans(r) => {
            lemma_sheds_nothing(plan.frame());
        },
        RelAlgebra::Delta(r) => {
            lemma_sheds_nothing(plan.frame());
            let set = delta_set(env.tables@[r.storage.id as int].model(), r.from, r.to);
            lemma_delta_enumerable(env.tables@[r.storage.id as int], r.from, r.to);
            assert forall|i: int| 0 <= i < ordered(set).len() implies (
            #[trigger] ordered(set)[i]).len() == w by {
                assert(ordered(set).to_set().contains(ordered(set)[i]));
            }
        },
        RelAlgebra::Reorder(r) => {
            lemma_sheds_nothing(plan.frame());
            let s = meaning(*r.relation, env, delta)->Ok_0;
            let places = places_of(
                names(r.new_order@),
                r.relation.out_frame(),
                r.new_order@.len() as int,
            );
            let f = |row: Row| Stream::one(project(row, places));
            assert forall|i: int| 0 <= i < s.items.len() && (#[trigger] s.items[i]) is Ok implies wide(
                f(s.items[i]->Ok_0),
                w,
            ) by {}
            lemma_through_wide(s, f, w);
        },
        RelAlgebra::Filter(r) => {
            lemma_width(*r.parent, env, delta);
            let s = meaning(*r.parent, env, delta)->Ok_0;
            let frame = r.parent.out_frame();
            let gone = name_set(r.to_eliminate@);
            let f = |row: Row| sift(r.filters@, frame, row, shed(row, frame, gone));
            assert forall|i: int| 0 <= i < s.items.len() && (#[trigger] s.items[i]) is Ok implies wide(
                f(s.items[i]->Ok_0),
                w,
            ) by {
                lemma_without_len(s.items[i]->Ok_0, frame, gone_at(frame, gone));
            }
            lemma_through_wide(s, f, w);
        },
        RelAlgebra::Unification(u) => {
            lemma_width(*u.parent, env, delta);
            let s = meaning(*u.parent, env, delta)->Ok_0;
            let frame = u.parent.out_frame();
            let drop = gone_at(frame.push(u.binding@), name_set(u.to_eliminate@));
            let f = |row: Row|
                unified(row, eval_named(u.expr, frame, row), u.is_multi, u.span, drop);
            assert forall|i: int| 0 <= i < s.items.len() && (#[trigger] s.items[i]) is Ok implies wide(
                f(s.items[i]->Ok_0),
                w,
            ) by {
                lemma_unified_wide(u, s.items[i]->Ok_0);
            }
            lemma_through_wide(s, f, w);
        },
        RelAlgebra::Search(s) => {
            lemma_sheds_nothing(plan.frame());
            lemma_width(*s.parent, env, delta);
            let p = meaning(*s.parent, env, delta)->Ok_0;
            let f = |row: Row| searched(row, *s, env);
            assert forall|i: int| 0 <= i < p.items.len() && (#[trigger] p.items[i]) is Ok implies wide(
                f(p.items[i]->Ok_0),
                w,
            ) by {
                lemma_searched_wide(*s, p.items[i]->Ok_0, env);
            }
            lemma_through_wide(p, f, w);
        },
        RelAlgebra::NegJoin(n) => {
            lemma_width(n.left, env, delta);
            lemma_neg_wide(*n, meaning(n.left, env, delta)->Ok_0, env);
        },
        RelAlgebra::Join(j) => {
            let left = meaning(j.left, env, delta);
            let right = meaning(j.right, env, delta);
            lemma_steady_join(*j, env);
            if left is Ok {
                lemma_width(j.left, env, delta);
            }
            if right is Ok && !j.joins_table() {
                lemma_width(j.right, env, delta);
            }
            lemma_join_width(*j, left, right, env, delta);
        },
    }
}

pub proof fn lemma_occurrence_wide(plan: RelAlgebra, env: Env, delta: Option<usize>)
    requires
        env.stores.wf(),
        plan is TempStore,
        plan.steady(env),
        env.stores@.contains_key(plan->TempStore_0.storage_key@),
    ensures
        forall|i: int|
            0 <= i < occurrence_rows(plan->TempStore_0, env, delta).len() ==> (
            #[trigger] occurrence_rows(plan->TempStore_0, env, delta)[i]).len()
                == plan->TempStore_0.bindings@.len(),
        strictly_sorted::<Tuple>(occurrence_rows(plan->TempStore_0, env, delta)),
{
    let r = plan->TempStore_0;
    let store = env.stores@[r.storage_key@];
    lemma_store_wf(env, r.storage_key@);
    lemma_store_enumerated(store);
    lemma_delta_within(store);
    let rows = occurrence_rows(r, env, delta);
    assert forall|i: int| 0 <= i < rows.len() implies (#[trigger] rows[i]).len()
        == r.bindings@.len() by {
        assert(rows.to_set().contains(rows[i]));
        assert(store.rows().contains(rows[i]));
    }
}

pub proof fn lemma_store_wf(env: Env, key: Name)
    requires
        env.stores.wf(),
        env.stores@.contains_key(key),
    ensures
        env.stores@[key].wf(),
{
    let ks = names(env.stores.keys@);
    assert(ks.contains(key));
    let i = ks.index_of(key);
    assert(env.stores.stores@[i].wf());
}

/// A change has its enumeration.
pub proof fn lemma_delta_enumerable(table: FactTable, from: AsOf, to: AsOf)
    ensures
        strictly_sorted::<Tuple>(ordered(delta_set(table.model(), from, to))),
        ordered(delta_set(table.model(), from, to)).to_set() == delta_set(table.model(), from, to),
{
    let a = snapshot(table.model(), from).to_set();
    let b = snapshot(table.model(), to).to_set();
    let set = delta_set(table.model(), from, to);
    vstd::seq_lib::seq_to_set_is_finite(snapshot(table.model(), from));
    vstd::seq_lib::seq_to_set_is_finite(snapshot(table.model(), to));
    let minus = |t: Row| signed_row(Signed::Minus(t));
    let plus = |t: Row| signed_row(Signed::Plus(t));
    a.lemma_map_finite(minus);
    b.lemma_map_finite(plus);
    let all = a.map(minus).union(b.map(plus));
    assert(set.subset_of(all)) by {
        assert forall|t: Row| set.contains(t) implies all.contains(t) by {
            let s = choose|s: Signed| #[trigger]
                diff(a, b).contains(s) && t == signed_row(s);
            match s {
                Signed::Minus(x) => {
                    assert(a.contains(x));
                    assert(a.map(minus).contains(minus(x)));
                },
                Signed::Plus(x) => {
                    assert(b.contains(x));
                    assert(b.map(plus).contains(plus(x)));
                },
            }
        }
    }
    vstd::set_lib::lemma_len_subset(set, all);
    crate::epoch::lemma_enumerable(set);
}

proof fn lemma_mat_join_wide(
    left: Result<Stream, QueryFault>,
    right: Result<Stream, QueryFault>,
    shape: JoinShape,
    rw: int,
    origin: Option<Origin>,
    frame: Seq<Name>,
)
    requires
        left is Ok ==> wide(left->Ok_0, frame.len() - rw),
        mat_join(left, right, shape, rw, origin) is Ok,
        0 <= rw,
    ensures
        wide(
            mat_join(left, right, shape, rw, origin)->Ok_0,
            without(frame, shape.drop).len() as int,
        ),
{
    let w = without(frame, shape.drop).len() as int;
    let ls = left->Ok_0;
    let mat = materialized(right->Ok_0.rows(), shape.rp, rw);
    let f = |l: Row| mat_joined(l, mat, shape, rw);
    assert forall|i: int| 0 <= i < ls.items.len() && (#[trigger] ls.items[i]) is Ok implies wide(
        f(ls.items[i]->Ok_0),
        w,
    ) by {
        let l = ls.items[i]->Ok_0;
        let back = crate::meaning::back_places(shape.rp, rw);
        let g = |m: Row|
            if crate::epoch::starts_with(m, project(l, shape.lp)) {
                Stream::one(without(l + project(m, back), shape.drop))
            } else {
                Stream::nothing()
            };
        assert forall|k: int| 0 <= k < mat.len() implies wide(#[trigger] g(mat[k]), w) by {
            lemma_without_len(l + project(mat[k], back), frame, shape.drop);
        }
        lemma_flow_wide(mat, g, w);
    }
    lemma_through_wide(ls, f, w);
}

proof fn lemma_fixed_join_wide(ls: Stream, rows: Seq<Row>, shape: JoinShape, frame: Seq<Name>)
    requires
        forall|i: int, k: int|
            0 <= i < ls.items.len() && (#[trigger] ls.items[i]) is Ok && 0 <= k < rows.len()
                ==> ls.items[i]->Ok_0.len() + (#[trigger] rows[k]).len() == frame.len(),
    ensures
        wide(fixed_join(ls, rows, shape), without(frame, shape.drop).len() as int),
{
    let w = without(frame, shape.drop).len() as int;
    let h = |l: Row| paired(l, rows, shape);
    assert forall|i: int| 0 <= i < ls.items.len() && (#[trigger] ls.items[i]) is Ok implies wide(
        h(ls.items[i]->Ok_0),
        w,
    ) by {
        let l = ls.items[i]->Ok_0;
        let g = |r: Row|
            if crate::meaning::keys_match(l, shape.lp, r, shape.rp) {
                Stream::one(without(l + r, shape.drop))
            } else {
                Stream::nothing()
            };
        assert forall|k: int| 0 <= k < rows.len() implies wide(#[trigger] g(rows[k]), w) by {
            lemma_without_len(l + rows[k], frame, shape.drop);
        }
        lemma_flow_wide(rows, g, w);
    }
    lemma_through_wide(ls, h, w);
}

proof fn lemma_probes_wide(
    ls: Stream,
    rows: Seq<Row>,
    shape: JoinShape,
    filters: Seq<Expr>,
    rframe: Seq<Name>,
    key_len: Option<int>,
    origin: Option<Origin>,
    frame: Seq<Name>,
)
    requires
        shape.lp.len() == shape.rp.len(),
        forall|i: int, k: int|
            0 <= i < ls.items.len() && (#[trigger] ls.items[i]) is Ok && 0 <= k < rows.len()
                && in_reach(shape.rp, (#[trigger] rows[k]).len() as int)
                ==> ls.items[i]->Ok_0.len() + rows[k].len() == frame.len(),
    ensures
        wide(
            probe_join(ls, rows, shape, filters, rframe, key_len, origin),
            without(frame, shape.drop).len() as int,
        ),
{
    let w = without(frame, shape.drop).len() as int;
    let columns = probe_columns(rframe, shape.rp.len() as int, key_len);
    let h = |l: Row| probed(l, rows, shape, filters, rframe, columns, origin);
    assert forall|i: int| 0 <= i < ls.items.len() && (#[trigger] ls.items[i]) is Ok implies wide(
        h(ls.items[i]->Ok_0),
        w,
    ) by {
        lemma_probed_wide(ls.items[i]->Ok_0, rows, shape, filters, rframe, columns, origin, frame);
    }
    lemma_through_wide(ls, h, w);
}

/// A row that is met has the join columns.
pub proof fn lemma_met_reach(l: Row, r: Row, shape: JoinShape, origin: Option<Origin>)
    requires
        met(l, r, shape, origin) is Agree,
    ensures
        in_reach(shape.rp, r.len() as int),
{
    if origin is Some {
        lemma_agree_reach(l, shape.lp, r, shape.rp, shape.rp.len() as int);
    }
}

proof fn lemma_agree_reach(l: Row, lp: Seq<usize>, r: Row, rp: Seq<usize>, n: int)
    requires
        0 <= n <= rp.len(),
        meeting(l, lp, r, rp, n) is Agree,
    ensures
        forall|j: int| 0 <= j < n ==> #[trigger] rp[j] < r.len(),
    decreases n,
{
    if n > 0 {
        lemma_agree_reach(l, lp, r, rp, n - 1);
    }
}

/// The rows of a relation have its key.
pub proof fn lemma_keys_held(table: &FactTable, at: AsOf)
    requires
        table.wf(),
    ensures
        forall|i: int|
            0 <= i < snapshot(table.model(), at).len() ==> table.key_len <= (#[trigger] snapshot(
                table.model(),
                at,
            )[i]).len(),
{
    let rows = snapshot(table.model(), at);
    assert forall|i: int| 0 <= i < rows.len() implies table.key_len <= (#[trigger] rows[i]).len() by {
        assert(rows.contains(rows[i]));
        lemma_row_of_key(table, at, rows[i]);
    }
}

/// Rows as wide as a frame can all be read.
pub proof fn lemma_wide_readable(
    right: Stream,
    shape: JoinShape,
    width: int,
    origin: Option<Origin>,
)
    requires
        0 <= width <= usize::MAX,
        in_reach(shape.rp, width),
        wide(right, width),
    ensures
        mat_failure(right, shape, width, origin) == right.failure(),
    decreases right.items.len(),
{
    if right.items.len() > 0 {
        let front = Stream { items: right.items.drop_last() };
        assert forall|i: int| 0 <= i < front.items.len() && (
        #[trigger] front.items[i]) is Ok implies (front.items[i]->Ok_0).len() == width by {
            assert(right.items[i] is Ok);
        }
        lemma_wide_readable(front, shape, width, origin);
        crate::steps::lemma_store_places(shape.rp, width);
        let store = store_places(shape.rp, width);
        assert(right.items[right.items.len() - 1] == right.items.last());
        lemma_none_missing(store, width, store.len() as int);
    }
}

pub proof fn lemma_join_width(
    j: InnerJoin,
    left: Result<Stream, QueryFault>,
    right: Result<Stream, QueryFault>,
    env: Env,
    delta: Option<usize>,
)
    requires
        env.stores.wf(),
        j.joins_table() ==> probe_steady(j, env),
        !j.joins_table() ==> j.right.steady(env),
        left is Ok ==> wide(left->Ok_0, j.left.out_frame().len() as int),
        right is Ok && !j.joins_table() ==> wide(
            right->Ok_0,
            j.right.out_frame().len() as int,
        ),
        join_meaning(j, left, right, env, delta) is Ok,
    ensures
        wide(
            join_meaning(j, left, right, env, delta)->Ok_0,
            kept(j.columns(), name_set(j.to_eliminate@)).len() as int,
        ),
{
    let shape = j.shape();
    let frame = j.columns();
    let rw = j.right.out_frame().len() as int;
    let ls = left->Ok_0;
    let origin = scan_origin(j.right, env);
    assert(shape.lp.len() == shape.rp.len());
    if mat_join(left, right, shape, rw, origin) is Ok {
        lemma_mat_join_wide(left, right, shape, rw, origin, frame);
    }
    match j.right {
        RelAlgebra::Fixed(x) => {
            lemma_fixed_wide(j.right, env);
            assert forall|k: int| 0 <= k < x.rows().len() implies (#[trigger] x.rows()[k]).len()
                == rw by {
                assert(Stream::of(x.rows()).items[k] is Ok);
            }
            lemma_fixed_join_wide(ls, x.rows(), shape, frame);
        },
        RelAlgebra::TempStore(r) => {
            lemma_sheds_nothing(j.right.frame());
            if env.stores@.contains_key(r.storage_key@) {
                lemma_occurrence_wide(j.right, env, delta);
                lemma_probes_wide(
                    ls,
                    occurrence_rows(r, env, delta),
                    shape,
                    r.filters@,
                    names(r.bindings@),
                    None,
                    None,
                    frame,
                );
            }
        },
        RelAlgebra::Stored(r) => {
            lemma_sheds_nothing(j.right.frame());
            let table = env.tables@[r.storage.id as int];
            if is_prefix(shape.rp) && left is Ok && j.fault() is None {
                lemma_probes_wide(
                    ls,
                    snapshot(table.model(), newest()),
                    shape,
                    r.filters@,
                    names(r.bindings@),
                    Some(table.key_len as int),
                    Some(
                        Origin { relation: r.storage.name, key_len: table.key_len, span: r.span },
                    ),
                    frame,
                );
            }
        },
        RelAlgebra::StoredWithValidity(r) => {
            lemma_sheds_nothing(j.right.frame());
            let table = env.tables@[r.storage.id as int];
            if is_prefix(shape.rp) && left is Ok && j.fault() is None {
                lemma_probes_wide(
                    ls,
                    snapshot(table.model(), r.as_of),
                    shape,
                    r.filters@,
                    names(r.bindings@),
                    Some(table.key_len as int),
                    None,
                    frame,
                );
            }
        },
        _ => {},
    }
}

/// A derivation that fails is the last one.
proof fn lemma_spans_end(facts: Seq<FactModel>, sys: int, k: int)
    requires
        0 <= k <= facts.len(),
        !spans_stream(facts.take(k), sys).sound(),
    ensures
        spans_stream(facts, sys) == spans_stream(facts.take(k), sys),
    decreases facts.len() - k,
{
    if k == facts.len() {
        assert(facts.take(k) =~= facts);
    } else {
        assert(facts.take(k + 1).drop_last() =~= facts.take(k));
        lemma_spans_end(facts, sys, k + 1);
    }
}

/// The derived intervals of a relation, fact by fact.
pub fn spans_rows(table: &FactTable, sys: i64) -> (r: TupleStream)
    requires
        table.wf(),
    ensures
        r.deep_view() == spans_stream(table.model(), sys as int),
{
    let ghost facts = table.model();
    let mut out = TupleStream::nothing();
    let mut i: usize = 0;
    proof {
        assert(facts.take(0) =~= Seq::<FactModel>::empty());
    }
    while i < table.facts.keys.len()
        invariant
            i <= table.facts.keys@.len(),
            table.wf(),
            facts == table.model(),
            out.deep_view().sound(),
            out.deep_view() == spans_stream(facts.take(i as int), sys as int),
        decreases table.facts.keys.len() - i,
    {
        let ghost fact = facts[i as int];
        let ghost before = out.deep_view();
        proof {
            assert(facts.take(i + 1).drop_last() =~= facts.take(i as int));
            assert(facts.take(i + 1).last() == fact);
        }
        match derive_group(&table.facts.vals[i], &table.facts.keys[i], sys) {
            Ok(rows) => {
                proof {
                    let d = derivation(fact, sys as int);
                    assert(crate::spans::is_derivation(
                        rows.deep_view(),
                        fact.versions,
                        fact.key,
                        sys as int,
                    ));
                    law_derivation_unique(
                        d,
                        rows.deep_view(),
                        fact.versions,
                        fact.key,
                        sys as int,
                    );
                    lemma_of_rows(rows.deep_view());
                    lemma_followed(before, Stream::of(rows.deep_view()));
                }
                out.append(TupleStream::of(rows));
            },
            Err(e) => {
                let broken = QueryError::Interval(e);
                proof {
                    lemma_failed(broken.deep_view());
                    lemma_followed(before, Stream::failed(broken.deep_view()));
                }
                out.append(TupleStream::failed(broken));
                proof {
                    lemma_spans_end(facts, sys as int, i + 1);
                }
                return out;
            },
        }
        i = i + 1;
    }
    proof {
        assert(facts.take(i as int) =~= facts);
    }
    out
}

/// The rows of a change between two coordinates, each with its sign.
pub fn delta_rows(table: &FactTable, from: AsOf, to: AsOf) -> (r: Vec<Tuple>)
    requires
        table.wf(),
    ensures
        r.deep_view() == ordered(delta_set(table.model(), from, to)),
        strictly_sorted::<Tuple>(r.deep_view()),
{
    let patch = patch_naive(table, from, to);
    let rows = signed_rows(&patch);
    proof {
        assert(rows.deep_view().to_set() =~= delta_set(table.model(), from, to));
        lemma_ordered(rows.deep_view());
    }
    rows
}

/// The rows of a change between two coordinates, each with its sign: from the
/// keys that a posting index files between them where there is one, and from
/// the two snapshots where there is none. With an index that covers the window
/// both ways give the same rows.
pub fn delta_rows_by(
    table: &FactTable,
    postings: Option<&OrderedSet<Tuple>>,
    from: AsOf,
    to: AsOf,
) -> (r: Result<Vec<Tuple>, CorruptPosting>)
    requires
        table.wf(),
        postings is Some ==> postings->Some_0.wf(),
        table.key_len + 3 <= usize::MAX,
    ensures
        ({
            let facts = table.model();
            let n = table.key_len as int;
            let lo = earlier(from.valid, to.valid);
            let hi = later(from.valid, to.valid);
            match (postings, r) {
                (None, Ok(rows)) => rows.deep_view() == ordered(delta_set(facts, from, to)),
                (None, Err(_)) => false,
                (Some(p), Ok(rows)) => {
                    &&& strictly_sorted::<Tuple>(rows.deep_view())
                    &&& forall|t: Row| #[trigger]
                        rows.deep_view().contains(t) == exists|s: Signed| #[trigger]
                            diff(
                                filed_rows(facts, p.deep_view(), n, lo, hi, from),
                                filed_rows(facts, p.deep_view(), n, lo, hi, to),
                            ).contains(s) && t == signed_row(s)
                    &&& forall|q: Row| #[trigger]
                        p.deep_view().contains(q) && in_window(q, lo, hi) ==> q.len() == n + 3
                    &&& from.sys == to.sys && posting_covers(facts, p.deep_view(), n, lo, hi)
                        ==> rows.deep_view() == ordered(delta_set(facts, from, to))
                },
                (Some(p), Err(e)) => exists|q: Row| #[trigger]
                    first_misfit(p.deep_view(), n, lo, hi, q) && e == (CorruptPosting {
                        found: q.len() as usize,
                        expected: (n + 3) as usize,
                    }),
            }
        }),
{
    match postings {
        None => Ok(delta_rows(table, from, to)),
        Some(p) => match patch_via_posting(table, p, from, to) {
            Err(e) => Err(e),
            Ok(patch) => {
                let rows = signed_rows(&patch);
                proof {
                    let facts = table.model();
                    let n = table.key_len as int;
                    let lo = earlier(from.valid, to.valid);
                    let hi = later(from.valid, to.valid);
                    if from.sys == to.sys && posting_covers(facts, p.deep_view(), n, lo, hi) {
                        lemma_table_keyed(table);
                        law_posting_agrees_with_snapshots(facts, p.deep_view(), n, from, to);
                        assert(rows.deep_view().to_set() =~= delta_set(facts, from, to));
                        lemma_ordered(rows.deep_view());
                    }
                }
                Ok(rows)
            },
        },
    }
}

/// The rows on which filters hold.
pub(crate) fn sift_rows(rows: Vec<Tuple>, filters: &Vec<Expr>, Ghost(frame): Ghost<Seq<Name>>) -> (r:
    TupleStream)
    requires
        all_at_place(filters@, frame),
    ensures
        r.deep_view() == sifted(rows.deep_view(), filters@, frame),
{
    let ghost all = rows.deep_view();
    let s = TupleStream::of(rows);
    let step = FilterStep { filters, eliminate: Vec::new(), frame: Ghost(frame) };
    proof {
        let f = |row: Row| step.gives(row);
        let g = |row: Row| sift(filters@, frame, row, row);
        assert forall|i: int| 0 <= i < all.len() implies #[trigger] f(all[i]) == g(all[i]) by {
            lemma_without_nothing(all[i], places_set(step.eliminate@));
        }
        lemma_flow_ext(all, f, g);
        lemma_through_of(all, f);
    }
    pipe(s, &step)
}

/// A search for each row of the parent.
struct SearchStep<'a> {
    ra: &'a SearchRA,
    env: &'a Env,
}

impl<'a> RowStep for SearchStep<'a> {
    closed spec fn takes(&self, row: Row) -> bool {
        &&& self.ra.index < self.env.indexes@.len()
        &&& self.env.indexes@[self.ra.index as int].wf()
        &&& placed(self.ra.query, self.ra.parent.out_frame())
        &&& all_at_place(
            search_filters(self.ra.filter),
            self.ra.parent.out_frame() + names(self.ra.own_bindings@),
        )
    }

    closed spec fn gives(&self, row: Row) -> Stream {
        searched(row, *self.ra, *self.env)
    }

    fn step(&self, row: &Tuple) -> (r: TupleStream) {
        let ghost m = row.deep_view();
        let ghost pframe = self.ra.parent.out_frame();
        let ghost frame = pframe + names(self.ra.own_bindings@);
        proof {
            lemma_placed(self.ra.query, pframe, m);
        }
        let q = match eval_row(&self.ra.query, row) {
            Ok(q) => q,
            Err(e) => {
                return TupleStream::failed(QueryError::Eval(e));
            },
        };
        if !can_search(self.ra.kind, &q) {
            return TupleStream::failed(
                QueryError::SearchQueryType { value: q, span: self.ra.span },
            );
        }
        let found = self.env.indexes[self.ra.index].search(&q);
        extend_found(row, &found, &self.ra.filter, Ghost(frame))
    }
}

/// A row extended by each result of a search, where the search's filter holds.
fn extend_found(
    row: &Tuple,
    found: &Vec<Tuple>,
    filter: &Option<Expr>,
    Ghost(frame): Ghost<Seq<Name>>,
) -> (r: TupleStream)
    requires
        all_at_place(search_filters(*filter), frame),
    ensures
        r.deep_view() == flow(
            found.deep_view(),
            |t: Row|
                sift(
                    search_filters(*filter),
                    frame,
                    row.deep_view() + t,
                    row.deep_view() + t,
                ),
        ),
{
    let ghost m = row.deep_view();
    let ghost all = found.deep_view();
    let ghost g = |t: Row| sift(search_filters(*filter), frame, m + t, m + t);
    let mut out = TupleStream::nothing();
    let mut i: usize = 0;
    proof {
        assert(all.len() == found@.len());
        assert(all.take(0) =~= Seq::<Row>::empty());
    }
    while i < found.len()
        invariant
            i <= found@.len(),
            all == found.deep_view(),
            all.len() == found@.len(),
            m == row.deep_view(),
            g == (|t: Row| sift(search_filters(*filter), frame, m + t, m + t)),
            all_at_place(search_filters(*filter), frame),
            out.deep_view() == flow(all.take(i as int), g),
        decreases found.len() - i,
    {
        proof {
            lemma_flow_step(all, g, i as int);
            assert(all[i as int] == found@[i as int].deep_view());
        }
        let full = joined(row, &found[i]);
        let next = match filter {
            None => {
                proof {
                    assert(passes(search_filters(*filter), frame, full.deep_view()) == Ok::<
                        bool,
                        EvalFault,
                    >(true));
                }
                TupleStream::one(full)
            },
            Some(f) => {
                proof {
                    assert(search_filters(*filter)[0] == *f);
                    assert(placed(*f, frame));
                }
                sift_one(f, full, Ghost(frame))
            },
        };
        out.append(next);
        i = i + 1;
    }
    proof {
        assert(all.take(i as int) =~= all);
    }
    out
}

/// A row, if one filter holds on it.
fn sift_one(f: &Expr, row: Tuple, Ghost(frame): Ghost<Seq<Name>>) -> (r: TupleStream)
    requires
        placed(*f, frame),
    ensures
        r.deep_view() == sift(seq![*f], frame, row.deep_view(), row.deep_view()),
{
    let ghost m = row.deep_view();
    proof {
        lemma_placed(*f, frame, m);
        assert(seq![*f].drop_last() =~= Seq::<Expr>::empty());
        assert(seq![*f].last() == *f);
        assert(passes(seq![*f].drop_last(), frame, m) == Ok::<bool, EvalFault>(true));
    }
    match eval_row(f, &row) {
        Err(e) => TupleStream::failed(QueryError::Eval(e)),
        Ok(v) => match v {
            crate::value::DataValue::Bool(b) => if b {
                TupleStream::one(row)
            } else {
                TupleStream::nothing()
            },
            _ => TupleStream::failed(
                QueryError::Eval(EvalError::PredicateType { value: v, span: f.span() }),
            ),
        },
    }
}

/// The places of names in a frame, if all of them are in it.
pub(crate) fn reorder_places(order: &Vec<String>, frame: &Vec<String>) -> (r: Option<Vec<usize>>)
    ensures
        match r {
            Some(p) => {
                &&& all_placed(names(order@), names(frame@))
                &&& p@ == places_of(names(order@), names(frame@), order@.len() as int)
                &&& in_reach(p@, frame@.len() as int)
            },
            None => !all_placed(names(order@), names(frame@)),
        },
{
    let ghost on = names(order@);
    let ghost fr = names(frame@);
    let mut out: Vec<usize> = Vec::new();
    let mut i: usize = 0;
    while i < order.len()
        invariant
            i <= order@.len(),
            on == names(order@),
            fr == names(frame@),
            forall|j: int| 0 <= j < i ==> last_place(fr, #[trigger] on[j]) is Some,
            out@ == places_of(on, fr, i as int),
            in_reach(out@, frame@.len() as int),
        decreases order.len() - i,
    {
        match place_in(frame, &order[i]) {
            Some(p) => {
                proof {
                    lemma_last_place(fr, on[i as int]);
                }
                out.push(p);
                proof {
                    assert(out@ =~= places_of(on, fr, i + 1));
                }
            },
            None => {
                proof {
                    assert(last_place(fr, on[i as int]) is None);
                }
                return None;
            },
        }
        i = i + 1;
    }
    Some(out)
}

/// Join columns that are in their frames have places there.
pub proof fn lemma_keys_placed(
    lk: Seq<Name>,
    rk: Seq<Name>,
    lf: Seq<Name>,
    rf: Seq<Name>,
    n: int,
)
    requires
        0 <= n <= lk.len(),
        n <= rk.len(),
        key_fault(lk, rk, lf, rf, n) is None,
    ensures
        lf.len() <= usize::MAX ==> in_reach(places_of(lk, lf, n), lf.len() as int),
        rf.len() <= usize::MAX ==> in_reach(places_of(rk, rf, n), rf.len() as int),
    decreases n,
{
    if n > 0 {
        lemma_keys_placed(lk, rk, lf, rf, n - 1);
        lemma_last_place(lf, lk[n - 1]);
        lemma_last_place(rf, rk[n - 1]);
        let a = places_of(lk, lf, n);
        let b = places_of(rk, rf, n);
        let a0 = places_of(lk, lf, n - 1);
        let b0 = places_of(rk, rf, n - 1);
        assert forall|j: int| 0 <= j < n && lf.len() <= usize::MAX implies #[trigger] a[j]
            < lf.len() by {
            if j < n - 1 {
                assert(a[j] == a0[j]);
            }
        }
        assert forall|j: int| 0 <= j < n && rf.len() <= usize::MAX implies #[trigger] b[j]
            < rf.len() by {
            if j < n - 1 {
                assert(b[j] == b0[j]);
            }
        }
    }
}

/// A result and its model agree.
pub open spec fn yields(
    r: Result<TupleStream, QueryError>,
    m: Result<Stream, QueryFault>,
) -> bool {
    match r {
        Ok(s) => m == Ok::<Stream, QueryFault>(s.deep_view()),
        Err(e) => m == Err::<Stream, QueryFault>(e.deep_view()),
    }
}

/// The rows on the right of a negation.
fn neg_right_rows(right: &NegRight, env: &Env) -> (r: Result<Vec<Tuple>, QueryError>)
    requires
        env.stores.wf(),
        neg_runs(*right, *env),
    ensures
        match r {
            Ok(rows) => {
                &&& neg_rows(*right, *env) == Ok::<Seq<Row>, QueryFault>(rows.deep_view())
                &&& !(right is Spans) ==> strictly_sorted::<Tuple>(rows.deep_view())
                &&& forall|i: int|
                    0 <= i < rows.deep_view().len() ==> match neg_origin(*right, *env) {
                        Some(o) => o.key_len <= (#[trigger] rows.deep_view()[i]).len(),
                        None => rows.deep_view()[i].len() == right.frame().len(),
                    }
            },
            Err(e) => neg_rows(*right, *env) == Err::<Seq<Row>, QueryFault>(e.deep_view()),
        },
{
    match right {
        NegRight::TempStore(t) => {
            let storage = epoch_store_of(&env.stores, &t.storage_key)?;
            let views = storage.all_iter();
            let rows = crate::probe::own_rows(&views);
            proof {
                assert forall|i: int| 0 <= i < rows.deep_view().len() implies (
                #[trigger] rows.deep_view()[i]).len() == right.frame().len() by {
                    assert(rows.deep_view().to_set().contains(rows.deep_view()[i]));
                }
            }
            Ok(rows)
        },
        NegRight::Stored(t) => {
            let table = &env.tables[t.storage.id];
            let rows = table.skip_scan_all(AsOf { valid: i64::MAX, sys: i64::MAX });
            proof {
                lemma_snapshot_sorted(table, newest());
                lemma_keys_held(table, newest());
            }
            Ok(rows)
        },
        NegRight::StoredWithValidity(t) => {
            let table = &env.tables[t.storage.id];
            let rows = table.skip_scan_all(t.as_of);
            proof {
                lemma_snapshot_sorted(table, t.as_of);
                lemma_keys_held(table, t.as_of);
            }
            Ok(rows)
        },
        NegRight::Spans(t) => {
            let s = spans_rows(&env.tables[t.storage.id], t.sys);
            let ghost m = s.deep_view();
            let r = s.collect();
            proof {
                lemma_failure(m);
                if r is Ok {
                    let rows = r->Ok_0.deep_view();
                    assert forall|i: int| 0 <= i < rows.len() implies (#[trigger] rows[i]).len()
                        == right.frame().len() by {
                        assert(m.items[i] is Ok);
                    }
                }
            }
            r
        },
        NegRight::Delta(t) => {
            let table = &env.tables[t.storage.id];
            let rows = delta_rows(table, t.from, t.to);
            proof {
                lemma_delta_enumerable(*table, t.from, t.to);
                assert forall|i: int| 0 <= i < rows.deep_view().len() implies (
                #[trigger] rows.deep_view()[i]).len() == right.frame().len() by {
                    assert(rows.deep_view().to_set().contains(rows.deep_view()[i]));
                }
            }
            Ok(rows)
        },
    }
}

/// The rows on the right of a negation that are as wide as its columns can all
/// be read.
pub proof fn lemma_neg_readable(n: NegJoin, env: Env)
    requires
        env.stores.wf(),
        neg_fits(n.right, env),
        n.joiner.fault(n.left.out_frame(), n.right.frame()) is None,
        neg_rows(n.right, env) is Ok,
    ensures
        neg_shape(n).lp.len() == neg_shape(n).rp.len(),
        forall|i: int|
            0 <= i < neg_rows(n.right, env)->Ok_0.len() ==> in_reach(
                neg_shape(n).rp,
                (#[trigger] neg_rows(n.right, env)->Ok_0[i]).len() as int,
            ),
        neg_origin(n.right, env) matches Some(o) ==> read_failure(
            neg_rows(n.right, env)->Ok_0,
            neg_shape(n).rp,
            o,
        ) is None,
{
    let rows = neg_rows(n.right, env)->Ok_0;
    let rp = neg_shape(n).rp;
    let w = n.right.frame().len() as int;
    match n.right {
        NegRight::TempStore(r) => assert(r.bindings.len() <= usize::MAX),
        NegRight::Stored(r) => assert(r.bindings.len() <= usize::MAX),
        NegRight::StoredWithValidity(r) => assert(r.bindings.len() <= usize::MAX),
        NegRight::Spans(r) => assert(r.bindings.len() <= usize::MAX),
        NegRight::Delta(r) => assert(r.bindings.len() <= usize::MAX),
    }
    lemma_keys_placed(
        names(n.joiner.left_keys@),
        names(n.joiner.right_keys@),
        n.left.out_frame(),
        n.right.frame(),
        n.joiner.arity(),
    );
    match n.right {
        NegRight::TempStore(r) => {
            lemma_store_wf(env, r.storage_key@);
            lemma_store_enumerated(env.stores@[r.storage_key@]);
        },
        NegRight::Delta(r) => {
            lemma_delta_enumerable(env.tables@[r.storage.id as int], r.from, r.to);
        },
        NegRight::Spans(r) => {
            lemma_failure(
                spans_stream(env.tables@[r.storage.id as int].model(), r.sys as int),
            );
        },
        _ => {},
    }
    assert forall|i: int| 0 <= i < rows.len() implies in_reach(
        rp,
        (#[trigger] rows[i]).len() as int,
    ) by {
        assert(rows.to_set().contains(rows[i]));
        if let NegRight::Spans(r) = n.right {
            let s = spans_stream(env.tables@[r.storage.id as int].model(), r.sys as int);
            assert(s.items[i] is Ok);
        }
        assert(rows[i].len() == w);
    }
    if neg_origin(n.right, env) is Some {
        lemma_readable(rows, rp, neg_origin(n.right, env)->Some_0);
    }
}

/// Where the rows on the right of a negation come from.
fn origin_of(right: &NegRight, env: &Env) -> (r: Option<Origin>)
    requires
        neg_runs(*right, *env),
    ensures
        r == neg_origin(*right, *env),
{
    match right {
        NegRight::Stored(t) => Some(
            Origin {
                relation: t.storage.name.clone(),
                key_len: env.tables[t.storage.id].key_len,
                span: t.span,
            },
        ),
        NegRight::StoredWithValidity(t) => Some(
            Origin {
                relation: t.storage.name.clone(),
                key_len: env.tables[t.storage.id].key_len,
                span: t.span,
            },
        ),
        _ => None,
    }
}

impl NegJoin {
    /// The left rows that no right row agrees with.
    pub(crate) fn spare(
        &self,
        left: TupleStream,
        bindings: &Vec<String>,
        lp: &Vec<usize>,
        rp: &Vec<usize>,
        env: &Env,
    ) -> (r: Result<TupleStream, QueryError>)
        requires
            env.stores.wf(),
            neg_runs(self.right, *env),
            self.joiner.fault(self.left.out_frame(), self.right.frame()) is None,
            names(bindings@) == self.left.out_frame(),
            lp@ == self.joiner.left_places(self.left.out_frame()),
            rp@ == self.joiner.right_places(self.right.frame()),
            wide(left.deep_view(), bindings@.len() as int),
        ensures
            yields(
                r,
                match neg_rows(self.right, *env) {
                    Err(e) => Err(e),
                    Ok(rows) => neg_join(
                        left.deep_view(),
                        rows,
                        neg_shape(*self),
                        neg_origin(self.right, *env),
                    ),
                },
            ),
    {
        let rows = neg_right_rows(&self.right, env)?;
        let origin = origin_of(&self.right, env);
        let eliminate = get_eliminate_indices(bindings, &self.to_eliminate);
        let left_len: usize = bindings.len();
        let right_len: usize = self.right.bindings().len();
        proof {
            assert(left_len == self.left.out_frame().len());
            assert(right_len == self.right.frame().len());
            lemma_keys_placed(
                names(self.joiner.left_keys@),
                names(self.joiner.right_keys@),
                self.left.out_frame(),
                self.right.frame(),
                self.joiner.arity(),
            );
            lemma_wide_reached(left.deep_view(), bindings@.len() as int, lp@);
            assert forall|i: int| 0 <= i < rows.deep_view().len() implies findable(
                #[trigger] rows.deep_view()[i],
                rp@,
                origin,
            ) by {}
        }
        match &self.right {
            NegRight::Spans(_) => {
                proof {
                    assert forall|i: int| 0 <= i < rows.deep_view().len() implies in_reach(
                        rp@,
                        (#[trigger] rows.deep_view()[i]).len() as int,
                    ) by {
                        assert(findable(rows.deep_view()[i], rp@, origin));
                    }
                }
                neg_join_rows(left, &rows, lp, rp, &eliminate, &origin)
            },
            _ => neg_join_scan(left, &rows, lp, rp, &eliminate, &origin),
        }
    }
}

/// What fails first while a right side is materialized fails all of it.
proof fn lemma_mat_failure_stays(
    s: Stream,
    shape: JoinShape,
    width: int,
    origin: Option<Origin>,
    k: int,
)
    requires
        0 <= k <= s.items.len(),
        mat_failure(Stream { items: s.items.take(k) }, shape, width, origin) is Some,
    ensures
        mat_failure(s, shape, width, origin) == mat_failure(
            Stream { items: s.items.take(k) },
            shape,
            width,
            origin,
        ),
    decreases s.items.len() - k,
{
    if k == s.items.len() {
        assert(s.items.take(k) =~= s.items);
    } else {
        assert(s.items.take(k + 1).drop_last() =~= s.items.take(k));
        lemma_mat_failure_stays(s, shape, width, origin, k + 1);
    }
}

/// The rows of a right side that is to be materialized, or what fails first:
/// one of its items, or a stored row that ends before one of its columns.
fn rows_to_store(
    right: TupleStream,
    store: &Vec<usize>,
    origin: &Option<Origin>,
    Ghost(shape): Ghost<JoinShape>,
    Ghost(width): Ghost<int>,
) -> (r: Result<Vec<Tuple>, QueryError>)
    requires
        store@ == store_places(shape.rp, width),
    ensures
        match r {
            Ok(rows) => {
                &&& mat_failure(right.deep_view(), shape, width, *origin) is None
                &&& right.deep_view().sound()
                &&& rows.deep_view() == right.deep_view().rows()
                &&& origin is Some ==> forall|i: int|
                    0 <= i < rows@.len() ==> in_reach(store@, (#[trigger] rows@[i])@.len() as int)
            },
            Err(e) => mat_failure(right.deep_view(), shape, width, *origin) == Some(e.deep_view()),
        },
{
    let ghost whole = right.deep_view();
    let mut rows: Vec<Tuple> = Vec::new();
    let mut i: usize = 0;
    proof {
        assert(whole.items.take(0) =~= Seq::<Item>::empty());
    }
    while i < right.items.len()
        invariant
            i <= right.items@.len(),
            whole == right.deep_view(),
            store@ == store_places(shape.rp, width),
            mat_failure(Stream { items: whole.items.take(i as int) }, shape, width, *origin)
                is None,
            rows@.len() == i,
            forall|j: int|
                0 <= j < i ==> (#[trigger] whole.items[j]) == Ok::<Row, QueryFault>(
                    rows@[j].deep_view(),
                ),
            origin is Some ==> forall|j: int|
                0 <= j < i ==> in_reach(store@, (#[trigger] rows@[j])@.len() as int),
        decreases right.items.len() - i,
    {
        let ghost part = whole.items.take(i + 1);
        proof {
            assert(whole.items[i as int] == item_model(right.items@[i as int]));
            assert(part.drop_last() =~= whole.items.take(i as int));
            assert(part.last() == whole.items[i as int]);
        }
        match &right.items[i] {
            Err(e) => {
                proof {
                    lemma_mat_failure_stays(whole, shape, width, *origin, i + 1);
                }
                return Err(e.clone());
            },
            Ok(row) => {
                proof {
                    assert(row.deep_view().len() == row@.len());
                }
                if let Some(o) = origin {
                    if let Some(index) = missing_place(store, row.len()) {
                        proof {
                            lemma_mat_failure_stays(whole, shape, width, *origin, i + 1);
                        }
                        return Err(report_short(o, row, index));
                    }
                    proof {
                        lemma_none_missing(store@, row@.len() as int, store@.len() as int);
                    }
                }
                let copy = copy_row(row);
                proof {
                    assert(copy@.len() == copy.deep_view().len());
                }
                rows.push(copy);
            },
        }
        i = i + 1;
    }
    proof {
        assert(whole.items.take(i as int) =~= whole.items);
        assert(rows.deep_view() =~= whole.rows());
    }
    Ok(rows)
}

impl InnerJoin {
    /// Join by a materialized right side.
    pub(crate) fn mat_iter(
        &self,
        left: TupleStream,
        right: TupleStream,
        lp: &Vec<usize>,
        rp: &Vec<usize>,
        eliminate: &Vec<usize>,
        width: usize,
        origin: &Option<Origin>,
    ) -> (r: Result<TupleStream, QueryError>)
        requires
            lp@ == self.shape().lp,
            rp@ == self.shape().rp,
            places_set(eliminate@) == self.shape().drop,
            in_reach(rp@, width as int),
            reached(left.deep_view(), lp@),
            left.deep_view().items.len() > 0,
            left.deep_view().items[0] is Ok,
            origin is None ==> wide(right.deep_view(), width as int),
        ensures
            yields(
                r,
                mat_join(
                    Ok(left.deep_view()),
                    Ok(right.deep_view()),
                    self.shape(),
                    width as int,
                    *origin,
                ),
            ),
    {
        let store = store_order(rp, width);
        let ghost shape = self.shape();
        let ghost all = right.deep_view();
        let rows = rows_to_store(right, &store, origin, Ghost(shape), Ghost(width as int))?;
        proof {
            crate::steps::lemma_store_places(rp@, width as int);
            assert forall|i: int| 0 <= i < rows@.len() implies in_reach(
                store@,
                (#[trigger] rows@[i])@.len() as int,
            ) by {
                assert(rows.deep_view()[i] == rows@[i].deep_view());
                assert(rows@[i]@.len() == rows.deep_view()[i].len());
                assert(all.items[i] is Ok);
            }
        }
        let back = back_order(&store, width, Ghost(rp@));
        let mat = materialize(&rows, &store, Ghost(rp@), Ghost(width as int));
        let step = MatStep { mat, lp, back, eliminate };
        proof {
            let m = materialized(all.rows(), shape.rp, width as int);
            let g = |l: Row| mat_joined(l, m, shape, width as int);
            let f = |row: Row| step.gives(row);
            lemma_through_ext(left.deep_view(), f, g);
            lemma_reached(left.deep_view(), lp@, |row: Row| step.takes(row));
        }
        Ok(pipe(left, &step))
    }

    /// Where the rows on the right come from, if it is a stored relation.
    pub(crate) fn right_origin(&self, env: &Env) -> (r: Option<Origin>)
        requires
            self.joins_table() ==> self.right.runs(*env),
        ensures
            r == scan_origin(self.right, *env),
    {
        match &self.right {
            RelAlgebra::Stored(t) => Some(
                Origin {
                    relation: t.storage.name.clone(),
                    key_len: env.tables[t.storage.id].key_len,
                    span: t.span,
                },
            ),
            RelAlgebra::StoredWithValidity(t) => Some(
                Origin {
                    relation: t.storage.name.clone(),
                    key_len: env.tables[t.storage.id].key_len,
                    span: t.span,
                },
            ),
            _ => None,
        }
    }
}

impl RelAlgebra {
    /// Run the plan. Only the occurrence `delta` reads the delta of its store.
    pub fn iter(&self, env: &Env, delta: Option<usize>) -> (r: Result<TupleStream, QueryError>)
        requires
            env.stores.wf(),
            self.runs(*env),
            self.compiled(),
        ensures
            yields(r, meaning(*self, *env, delta)),
        decreases self,
    {
        match self {
            RelAlgebra::Fixed(f) => Ok(TupleStream::of(f.shed_rows())),
            RelAlgebra::TempStore(t) => {
                let storage = epoch_store_of(&env.stores, &t.storage_key)?;
                let scan_epoch = match delta {
                    Some(occurrence) => occurrence == t.occurrence,
                    None => false,
                };
                let views = if scan_epoch {
                    storage.delta_all_iter()
                } else {
                    storage.all_iter()
                };
                let rows = crate::probe::own_rows(&views);
                Ok(sift_rows(rows, &t.filters, Ghost(names(t.bindings@))))
            },
            RelAlgebra::Stored(t) => {
                let rows = env.tables[t.storage.id].skip_scan_all(
                    AsOf { valid: i64::MAX, sys: i64::MAX },
                );
                Ok(sift_rows(rows, &t.filters, Ghost(names(t.bindings@))))
            },
            RelAlgebra::StoredWithValidity(t) => {
                let rows = env.tables[t.storage.id].skip_scan_all(t.as_of);
                Ok(sift_rows(rows, &t.filters, Ghost(names(t.bindings@))))
            },
            RelAlgebra::Spans(t) => Ok(spans_rows(&env.tables[t.storage.id], t.sys)),
            RelAlgebra::Delta(t) => Ok(
                TupleStream::of(delta_rows(&env.tables[t.storage.id], t.from, t.to)),
            ),
            RelAlgebra::Reorder(t) => t.iter(env, delta),
            RelAlgebra::Filter(t) => t.iter(env, delta),
            RelAlgebra::Unification(t) => t.iter(env, delta),
            RelAlgebra::Search(t) => t.iter(env, delta),
            RelAlgebra::NegJoin(n) => n.iter(env, delta),
            RelAlgebra::Join(j) => j.iter(env, delta),
        }
    }
}

impl ReorderRA {
    /// The rows of the parent, their columns in the new order.
    pub fn iter(&self, env: &Env, delta: Option<usize>) -> (r: Result<TupleStream, QueryError>)
        requires
            env.stores.wf(),
            RelAlgebra::Reorder(*self).runs(*env),
            RelAlgebra::Reorder(*self).compiled(),
        ensures
            yields(r, meaning(RelAlgebra::Reorder(*self), *env, delta)),
        decreases self,
    {
        let old_order = self.relation.bindings_after_eliminate();
        let places = match reorder_places(&self.new_order, &old_order) {
            Some(p) => p,
            None => {
                return Err(QueryError::Plan(PlanInvariant::ReorderColumns));
            },
        };
        proof {
            lemma_steady_runs(*self.relation, *env);
        }
        let rows = self.relation.iter(env, delta)?;
        let step = ReorderStep { places };
        proof {
            lemma_width(*self.relation, *env, delta);
            let want = places_of(
                names(self.new_order@),
                self.relation.out_frame(),
                self.new_order@.len() as int,
            );
            lemma_wide_reached(
                rows.deep_view(),
                self.relation.out_frame().len() as int,
                step.places@,
            );
            lemma_reached(rows.deep_view(), step.places@, |row: Row| step.takes(row));
            lemma_through_ext(
                rows.deep_view(),
                |row: Row| step.gives(row),
                |row: Row| Stream::one(project(row, want)),
            );
        }
        Ok(pipe(rows, &step))
    }
}

impl FilteredRA {
    /// The rows of the parent on which every filter holds.
    pub fn iter(&self, env: &Env, delta: Option<usize>) -> (r: Result<TupleStream, QueryError>)
        requires
            env.stores.wf(),
            RelAlgebra::Filter(*self).runs(*env),
            RelAlgebra::Filter(*self).compiled(),
        ensures
            yields(r, meaning(RelAlgebra::Filter(*self), *env, delta)),
        decreases self,
    {
        let bindings = self.parent.bindings_after_eliminate();
        let eliminate = get_eliminate_indices(&bindings, &self.to_eliminate);
        let rows = self.parent.iter(env, delta)?;
        let ghost frame = self.parent.out_frame();
        let step = FilterStep { filters: &self.filters, eliminate, frame: Ghost(frame) };
        proof {
            lemma_through_ext(
                rows.deep_view(),
                |row: Row| step.gives(row),
                |row: Row|
                    sift(
                        self.filters@,
                        frame,
                        row,
                        shed(row, frame, name_set(self.to_eliminate@)),
                    ),
            );
        }
        Ok(pipe(rows, &step))
    }
}

impl UnificationRA {
    /// The rows of the parent with the computed column.
    pub fn iter(&self, env: &Env, delta: Option<usize>) -> (r: Result<TupleStream, QueryError>)
        requires
            env.stores.wf(),
            RelAlgebra::Unification(*self).runs(*env),
            RelAlgebra::Unification(*self).compiled(),
        ensures
            yields(r, meaning(RelAlgebra::Unification(*self), *env, delta)),
        decreases self,
    {
        let mut bindings = self.parent.bindings_after_eliminate();
        let ghost before = names(bindings@);
        bindings.push(self.binding.clone());
        proof {
            assert(names(bindings@) =~= before.push(self.binding@));
        }
        let eliminate = get_eliminate_indices(&bindings, &self.to_eliminate);
        proof {
            lemma_steady_runs(*self.parent, *env);
        }
        let rows = self.parent.iter(env, delta)?;
        let ghost frame = self.parent.out_frame();
        let step = UnifyStep {
            expr: &self.expr,
            is_multi: self.is_multi,
            span: self.span,
            eliminate,
            frame: Ghost(frame),
        };
        proof {
            lemma_through_ext(
                rows.deep_view(),
                |row: Row| step.gives(row),
                |row: Row|
                    unified(
                        row,
                        eval_named(self.expr, frame, row),
                        self.is_multi,
                        self.span,
                        gone_at(frame.push(self.binding@), name_set(self.to_eliminate@)),
                    ),
            );
        }
        Ok(pipe(rows, &step))
    }
}

impl SearchRA {
    /// The rows of the parent, each extended by the results of its search.
    pub fn iter(&self, env: &Env, delta: Option<usize>) -> (r: Result<TupleStream, QueryError>)
        requires
            env.stores.wf(),
            RelAlgebra::Search(Box::new(*self)).runs(*env),
            RelAlgebra::Search(Box::new(*self)).compiled(),
        ensures
            yields(r, meaning(RelAlgebra::Search(Box::new(*self)), *env, delta)),
        decreases self,
    {
        let rows = self.parent.iter(env, delta)?;
        Ok(self.search_rows(rows, env))
    }

    /// Rows of the parent, each extended by the results of its search.
    pub(crate) fn search_rows(&self, rows: TupleStream, env: &Env) -> (r: TupleStream)
        requires
            RelAlgebra::Search(Box::new(*self)).runs(*env),
            RelAlgebra::Search(Box::new(*self)).compiled(),
        ensures
            r.deep_view() == through(rows.deep_view(), |row: Row| searched(row, *self, *env)),
    {
        let step = SearchStep { ra: self, env };
        proof {
            lemma_through_ext(
                rows.deep_view(),
                |row: Row| step.gives(row),
                |row: Row| searched(row, *self, *env),
            );
        }
        pipe(rows, &step)
    }
}

impl NegJoin {
    /// The left rows that no right row matches.
    pub fn iter(&self, env: &Env, delta: Option<usize>) -> (r: Result<TupleStream, QueryError>)
        requires
            env.stores.wf(),
            RelAlgebra::NegJoin(Box::new(*self)).runs(*env),
            RelAlgebra::NegJoin(Box::new(*self)).compiled(),
        ensures
            yields(r, meaning(RelAlgebra::NegJoin(Box::new(*self)), *env, delta)),
        decreases self,
    {
        let bindings = self.left.bindings_after_eliminate();
        let (lp, rp) = self.joiner.join_indices(&bindings, self.right.bindings())?;
        proof {
            lemma_steady_runs(self.left, *env);
        }
        let left = self.left.iter(env, delta)?;
        proof {
            lemma_width(self.left, *env, delta);
        }
        self.spare(left, &bindings, &lp, &rp, env)
    }
}

impl InnerJoin {
    /// Whether the right side is the scan of a stored relation.
    pub open spec fn joins_table(self) -> bool {
        self.right is Stored || self.right is StoredWithValidity
    }

    /// Whether the right side is a scan that can be probed.
    pub open spec fn probing(self) -> bool {
        self.right is TempStore || self.right is Stored || self.right is StoredWithValidity
    }

    pub(crate) fn probes(&self) -> (r: bool)
        ensures
            r == self.probing(),
    {
        match &self.right {
            RelAlgebra::TempStore(_) => true,
            RelAlgebra::Stored(_) => true,
            RelAlgebra::StoredWithValidity(_) => true,
            _ => false,
        }
    }

    /// Join by probing the scan on the right.
    fn probe_iter(
        &self,
        left: TupleStream,
        lp: &Vec<usize>,
        rp: &Vec<usize>,
        eliminate: &Vec<usize>,
        env: &Env,
        delta: Option<usize>,
    ) -> (r: Result<TupleStream, QueryError>)
        requires
            env.stores.wf(),
            self.right.runs(*env),
            self.right.compiled(),
            self.probing(),
            self.fault() is None,
            lp@ == self.shape().lp,
            rp@ == self.shape().rp,
            places_set(eliminate@) == self.shape().drop,
            is_prefix(rp@),
            in_reach(rp@, self.right.out_frame().len() as int),
            reached(left.deep_view(), lp@),
        ensures
            yields(
                r,
                join_meaning(
                    *self,
                    Ok(left.deep_view()),
                    meaning(self.right, *env, delta),
                    *env,
                    delta,
                ),
            ),
    {
        proof {
            lemma_prefix_fits(rp@, self.right.out_frame().len() as int);
            lemma_sheds_nothing(self.right.frame());
        }
        match &self.right {
            RelAlgebra::TempStore(t) => t.prefix_join(
                left,
                lp,
                rp,
                eliminate,
                delta,
                &env.stores,
            ),
            RelAlgebra::Stored(t) => Ok(
                t.prefix_join(left, lp, rp, eliminate, &env.tables[t.storage.id]),
            ),
            RelAlgebra::StoredWithValidity(t) => Ok(
                t.prefix_join(left, lp, rp, eliminate, &env.tables[t.storage.id]),
            ),
            _ => Err(QueryError::Plan(PlanInvariant::RefusedRight)),
        }
    }

    /// The left rows, each extended by every matching right row.
    pub fn iter(&self, env: &Env, delta: Option<usize>) -> (r: Result<TupleStream, QueryError>)
        requires
            env.stores.wf(),
            RelAlgebra::Join(Box::new(*self)).runs(*env),
            RelAlgebra::Join(Box::new(*self)).compiled(),
        ensures
            yields(r, meaning(RelAlgebra::Join(Box::new(*self)), *env, delta)),
        decreases self,
    {
        match &self.right {
            RelAlgebra::Reorder(_) | RelAlgebra::NegJoin(_) => {
                return Err(QueryError::Plan(PlanInvariant::RefusedRight));
            },
            _ => {},
        }
        let left_bindings = self.left.bindings_after_eliminate();
        let right_bindings = self.right.bindings_after_eliminate();
        let (lp, rp) = self.joiner.join_indices(&left_bindings, &right_bindings)?;
        let bindings = self.bindings();
        let eliminate = get_eliminate_indices(&bindings, &self.to_eliminate);
        proof {
            lemma_steady_runs(self.left, *env);
        }
        let left = self.left.iter(env, delta)?;
        let width: usize = right_bindings.len();
        let left_width: usize = left_bindings.len();
        proof {
            assert(left_width == self.left.out_frame().len());
            assert(width == self.right.out_frame().len());
            lemma_width(self.left, *env, delta);
            lemma_keys_placed(
                names(self.joiner.left_keys@),
                names(self.joiner.right_keys@),
                self.left.out_frame(),
                self.right.out_frame(),
                self.joiner.arity(),
            );
            assert(left_bindings@.len() == self.left.out_frame().len());
            lemma_wide_reached(left.deep_view(), self.left.out_frame().len() as int, lp@);
        }
        match &self.right {
            RelAlgebra::Fixed(f) => {
                proof {
                    lemma_width(self.right, *env, delta);
                    assert forall|i: int| 0 <= i < f.rows().len() implies in_reach(
                        rp@,
                        (#[trigger] f.rows()[i]).len() as int,
                    ) by {
                        assert(Stream::of(f.rows()).items[i] is Ok);
                    }
                }
                return Ok(f.join(left, &lp, &rp, &eliminate));
            },
            _ => {},
        }
        proof {
            if !self.joins_table() {
                lemma_steady_runs(self.right, *env);
            }
        }
        if self.probes() && join_is_prefix(&rp) {
            return self.probe_iter(left, &lp, &rp, &eliminate, env, delta);
        }
        if left.items.len() == 0 {
            return Ok(TupleStream::nothing());
        }
        proof {
            assert(left.deep_view().items[0] == item_model(left.items@[0]));
        }
        if let Err(e) = &left.items[0] {
            return Err(e.clone());
        }
        let right = self.right.iter(env, delta)?;
        let origin = self.right_origin(env);
        proof {
            if !self.joins_table() {
                lemma_width(self.right, *env, delta);
            }
        }
        self.mat_iter(left, right, &lp, &rp, &eliminate, width, &origin)
    }
}

} // verus!
