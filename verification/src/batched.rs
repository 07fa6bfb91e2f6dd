//! Running a plan in batches.

use vstd::prelude::*;
use crate::answer::neg_shape;
use crate::batch_join::PrefixProbeBatchJoin;
use crate::columns::{unified_group, ColumnUnify};
use crate::epoch::ordered;
use crate::groups::{
    chunk_stream, chunked, each_group, first_chunk, group_flow, head_rows, lemma_head_rows,
    pipe_groups, ungrouped, BatchStream, GroupItem, GroupStep, Groups, RowsStep,
};
use crate::history::{snapshot, AsOf, FactTable};
use crate::meaning::{
    all_placed, delta_set, join_meaning, neg_join, neg_origin, neg_rows, newest, occurrence_rows,
    probe_columns, probe_join, probed, searched, sift, sifted, spans_stream, unified, Env,
    JoinShape, Origin,
};
use crate::names::{
    gone_at, get_eliminate_indices, lemma_without_len, name_set, names, places_set, shed, without,
    Name,
};
use crate::plan::{
    is_prefix, join_is_prefix, places_of, FilteredRA, InnerJoin, NegJoin, RelAlgebra, ReorderRA,
    SearchRA, StoredRA, StoredWithValidityRA, TempStoreRA, UnificationRA,
};
use crate::probe::{all_at_place, all_wide, in_reach, lemma_prefix_fits, lemma_reached, reached};
use crate::resolve::eval_named;
use crate::run::{
    lemma_fixed_wide, lemma_flow_wide, lemma_join_width, lemma_keys_placed, lemma_neg_wide,
    lemma_occurrence_wide, lemma_searched_wide, lemma_sheds_nothing, lemma_sifted_wide,
    lemma_steady_runs, lemma_through_wide, lemma_unified_wide, lemma_wide_reached, reorder_places,
    wide,
};
use crate::segment::{Segment, SegmentProbe, Segments};
use crate::steps::{FilterStep, ReorderStep};
use crate::stream::{
    flow, item_model, lemma_failure, lemma_flow_ext, lemma_through_ext, through, PlanInvariant,
    QueryError, QueryFault, RowStep, Stream, TupleStream,
};
use crate::table_probe::{lemma_row_of_key, table_prober};
use crate::temp_store::project;
use crate::value::{Row, Tuple};

verus! {

/// A result in batches without its grouping.
pub open spec fn streamed(r: Result<Groups, QueryFault>) -> Result<Stream, QueryFault> {
    match r {
        Ok(g) => Ok(g.stream()),
        Err(e) => Err(e),
    }
}

/// Rows in batches, from a stream that could be started.
pub open spec fn regrouped(r: Result<Stream, QueryFault>) -> Result<Groups, QueryFault> {
    match r {
        Ok(s) => Ok(chunked(s)),
        Err(e) => Err(e),
    }
}

/// The batches of a plan, or why it cannot be started. A join with the unit
/// relation on its left hands on the batches of its right side.
pub open spec fn batched(plan: RelAlgebra, env: Env, delta: Option<usize>) -> Result<
    Groups,
    QueryFault,
>
    decreases plan,
{
    match plan {
        RelAlgebra::Fixed(r) => Ok(chunked(Stream::of(r.rows()))),
        RelAlgebra::TempStore(r) => if env.stores@.contains_key(r.storage_key@) {
            Ok(chunked(sifted(occurrence_rows(r, env, delta), r.filters@, names(r.bindings@))))
        } else {
            Err(QueryFault::Plan(PlanInvariant::NoStore))
        },
        RelAlgebra::Stored(r) => Ok(
            chunked(
                sifted(
                    snapshot(env.tables@[r.storage.id as int].model(), newest()),
                    r.filters@,
                    names(r.bindings@),
                ),
            ),
        ),
        RelAlgebra::StoredWithValidity(r) => Ok(
            chunked(
                sifted(
                    snapshot(env.tables@[r.storage.id as int].model(), r.as_of),
                    r.filters@,
                    names(r.bindings@),
                ),
            ),
        ),
        RelAlgebra::Spans(r) => Ok(
            chunked(spans_stream(env.tables@[r.storage.id as int].model(), r.sys as int)),
        ),
        RelAlgebra::Delta(r) => Ok(
            chunked(
                Stream::of(
                    ordered(delta_set(env.tables@[r.storage.id as int].model(), r.from, r.to)),
                ),
            ),
        ),
        RelAlgebra::Reorder(r) => if all_placed(names(r.new_order@), r.relation.out_frame()) {
            match batched(*r.relation, env, delta) {
                Err(e) => Err(e),
                Ok(g) => {
                    let places = places_of(
                        names(r.new_order@),
                        r.relation.out_frame(),
                        r.new_order@.len() as int,
                    );
                    Ok(
                        each_group(
                            g,
                            |rows: Seq<Row>|
                                flow(rows, |row: Row| Stream::one(project(row, places))),
                        ),
                    )
                },
            }
        } else {
            Err(QueryFault::Plan(PlanInvariant::ReorderColumns))
        },
        RelAlgebra::Filter(r) => match batched(*r.parent, env, delta) {
            Err(e) => Err(e),
            Ok(g) => {
                let frame = r.parent.out_frame();
                Ok(
                    each_group(
                        g,
                        |rows: Seq<Row>|
                            flow(
                                rows,
                                |row: Row|
                                    sift(
                                        r.filters@,
                                        frame,
                                        row,
                                        shed(row, frame, name_set(r.to_eliminate@)),
                                    ),
                            ),
                    ),
                )
            },
        },
        RelAlgebra::Unification(u) => match batched(*u.parent, env, delta) {
            Err(e) => Err(e),
            Ok(g) => {
                let frame = u.parent.out_frame();
                let drop = gone_at(frame.push(u.binding@), name_set(u.to_eliminate@));
                Ok(
                    each_group(
                        g,
                        |rows: Seq<Row>|
                            unified_group(u.expr, frame, u.is_multi, u.span, drop, rows),
                    ),
                )
            },
        },
        RelAlgebra::Search(s) => match batched(*s.parent, env, delta) {
            Err(e) => Err(e),
            Ok(g) => Ok(chunked(through(g.stream(), |row: Row| searched(row, *s, env)))),
        },
        RelAlgebra::NegJoin(n) => match n.joiner.fault(n.left.out_frame(), n.right.frame()) {
            Some(e) => Err(QueryFault::Plan(e)),
            None => match batched(n.left, env, delta) {
                Err(e) => Err(e),
                Ok(g) => match neg_rows(n.right, env) {
                    Err(e) => Err(e),
                    Ok(rows) => regrouped(
                        neg_join(g.stream(), rows, neg_shape(*n), neg_origin(n.right, env)),
                    ),
                },
            },
        },
        RelAlgebra::Join(j) => if j.left.unit_like() {
            match batched(j.right, env, delta) {
                Err(e) => Err(e),
                Ok(g) => Ok(
                    each_group(
                        g,
                        |rows: Seq<Row>|
                            flow(rows, |row: Row| Stream::one(without(row, j.shape().drop))),
                    ),
                ),
            }
        } else {
            regrouped(
                join_meaning(
                    *j,
                    streamed(batched(j.left, env, delta)),
                    streamed(batched(j.right, env, delta)),
                    env,
                    delta,
                ),
            )
        },
    }
}

/// Rows of one width.
pub open spec fn rows_wide(rows: Seq<Row>, w: int) -> bool {
    forall|j: int| 0 <= j < rows.len() ==> (#[trigger] rows[j]).len() == w
}

/// The rows of all groups have one width.
pub open spec fn groups_wide(g: Groups, w: int) -> bool {
    forall|i: int|
        0 <= i < g.items.len() && (#[trigger] g.items[i]) is Ok ==> rows_wide(
            g.items[i]->Ok_0,
            w,
        )
}

pub proof fn lemma_chunked_wide(s: Stream, w: int)
    requires
        wide(s, w),
    ensures
        groups_wide(chunked(s), w),
    decreases s.items.len(),
{
    if s.items.len() > 0 {
        lemma_head_rows(s.items, 0);
        let n = head_rows(s.items, 0);
        let (first, rest) = first_chunk(s);
        let skipped = s.items.len() - rest.items.len();
        assert forall|i: int| 0 <= i < rest.items.len() && (
        #[trigger] rest.items[i]) is Ok implies (rest.items[i]->Ok_0).len() == w by {
            assert(rest.items[i] == s.items[skipped + i]);
        }
        lemma_chunked_wide(rest, w);
        let all = chunked(s).items;
        let tail = chunked(rest).items;
        assert forall|i: int| 0 <= i < all.len() && (#[trigger] all[i]) is Ok implies rows_wide(
            all[i]->Ok_0,
            w,
        ) by {
            if i == 0 {
                let rows = all[0]->Ok_0;
                assert forall|j: int| 0 <= j < rows.len() implies (#[trigger] rows[j]).len()
                    == w by {
                    assert(s.items[j] is Ok);
                }
            } else {
                assert(all[i] == tail[i - 1]);
            }
        }
    }
}

pub proof fn lemma_flat_wide(g: Groups, w: int)
    requires
        groups_wide(g, w),
    ensures
        wide(g.stream(), w),
{
    let f = ungrouped();
    assert forall|i: int| 0 <= i < g.items.len() implies wide(#[trigger] f(g.items[i]), w) by {
        let item = g.items[i];
        assert(item is Ok || item is Err);
    }
    lemma_flow_wide(g.items, f, w);
}

pub proof fn lemma_group_flow_wide(
    items: Seq<GroupItem>,
    f: spec_fn(Seq<Row>) -> Stream,
    w: int,
)
    requires
        forall|i: int|
            0 <= i < items.len() && (#[trigger] items[i]) is Ok ==> wide(f(items[i]->Ok_0), w),
    ensures
        groups_wide(group_flow(items, f), w),
    decreases items.len(),
{
    if items.len() > 0 {
        let rest = items.drop_last();
        assert forall|i: int| 0 <= i < rest.len() && (#[trigger] rest[i]) is Ok implies wide(
            f(rest[i]->Ok_0),
            w,
        ) by {
            assert(items[i] is Ok);
        }
        lemma_group_flow_wide(rest, f, w);
        assert(items[items.len() - 1] == items.last());
        let before = group_flow(rest, f);
        let all = group_flow(items, f);
        assert forall|i: int| 0 <= i < all.items.len() && (
        #[trigger] all.items[i]) is Ok implies rows_wide(all.items[i]->Ok_0, w) by {
            if i < before.items.len() {
                assert(all.items[i] == before.items[i]);
            } else {
                let s = f(items.last()->Ok_0);
                lemma_failure(s);
                let rows = s.rows();
                assert forall|j: int| 0 <= j < rows.len() implies (#[trigger] rows[j]).len()
                    == w by {
                    assert(s.items[j] is Ok);
                }
            }
        }
    }
}

/// A step on rows, applied to the rows of each group.
proof fn lemma_rows_wide(g: Groups, h: spec_fn(Row) -> Stream, v: int, w: int)
    requires
        groups_wide(g, v),
        forall|row: Row| row.len() == v ==> wide(#[trigger] h(row), w),
    ensures
        groups_wide(each_group(g, |rows: Seq<Row>| flow(rows, h)), w),
{
    let f = |rows: Seq<Row>| flow(rows, h);
    assert forall|i: int| 0 <= i < g.items.len() && (#[trigger] g.items[i]) is Ok implies wide(
        f(g.items[i]->Ok_0),
        w,
    ) by {
        let rows = g.items[i]->Ok_0;
        assert forall|k: int| 0 <= k < rows.len() implies wide(#[trigger] h(rows[k]), w) by {
            assert(rows_wide(rows, v));
        }
        lemma_flow_wide(rows, h, w);
    }
    lemma_group_flow_wide(g.items, f, w);
}

/// The rows in the batches of a plan are as wide as the frame it hands on.
pub proof fn lemma_batched_width(plan: RelAlgebra, env: Env, delta: Option<usize>)
    requires
        env.stores.wf(),
        plan.steady(env),
        batched(plan, env, delta) is Ok,
    ensures
        groups_wide(batched(plan, env, delta)->Ok_0, plan.out_frame().len() as int),
        wide(batched(plan, env, delta)->Ok_0.stream(), plan.out_frame().len() as int),
    decreases plan,
{
    let w = plan.out_frame().len() as int;
    let all = batched(plan, env, delta)->Ok_0;
    match plan {
        RelAlgebra::Fixed(r) => {
            lemma_fixed_wide(plan, env);
            lemma_chunked_wide(Stream::of(r.rows()), w);
        },
        RelAlgebra::TempStore(r) => {
            lemma_sheds_nothing(plan.frame());
            lemma_occurrence_wide(plan, env, delta);
            let rows = occurrence_rows(r, env, delta);
            lemma_sifted_wide(rows, r.filters@, names(r.bindings@), w);
            lemma_chunked_wide(sifted(rows, r.filters@, names(r.bindings@)), w);
        },
        RelAlgebra::Stored(r) => {
            lemma_sheds_nothing(plan.frame());
            let rows = snapshot(env.tables@[r.storage.id as int].model(), newest());
            lemma_sifted_wide(rows, r.filters@, names(r.bindings@), w);
            lemma_chunked_wide(sifted(rows, r.filters@, names(r.bindings@)), w);
        },
        RelAlgebra::StoredWithValidity(r) => {
            lemma_sheds_nothing(plan.frame());
            let rows = snapshot(env.tables@[r.storage.id as int].model(), r.as_of);
            lemma_sifted_wide(rows, r.filters@, names(r.bindings@), w);
            lemma_chunked_wide(sifted(rows, r.filters@, names(r.bindings@)), w);
        },
        RelAlgebra::Spans(r) => {
            lemma_sheds_nothing(plan.frame());
            lemma_chunked_wide(
                spans_stream(env.tables@[r.storage.id as int].model(), r.sys as int),
                w,
            );
        },
        RelAlgebra::Delta(r) => {
            crate::run::lemma_width(plan, env, delta);
            lemma_chunked_wide(crate::meaning::meaning(plan, env, delta)->Ok_0, w);
        },
        RelAlgebra::Reorder(r) => {
            lemma_sheds_nothing(plan.frame());
            lemma_batched_width(*r.relation, env, delta);
            let places = places_of(
                names(r.new_order@),
                r.relation.out_frame(),
                r.new_order@.len() as int,
            );
            lemma_rows_wide(
                batched(*r.relation, env, delta)->Ok_0,
                |row: Row| Stream::one(project(row, places)),
                r.relation.out_frame().len() as int,
                w,
            );
        },
        RelAlgebra::Filter(r) => {
            lemma_batched_width(*r.parent, env, delta);
            let frame = r.parent.out_frame();
            let gone = name_set(r.to_eliminate@);
            let h = |row: Row| sift(r.filters@, frame, row, shed(row, frame, gone));
            assert forall|row: Row| row.len() == frame.len() implies wide(#[trigger] h(row), w) by {
                lemma_without_len(row, frame, gone_at(frame, gone));
            }
            lemma_rows_wide(
                batched(*r.parent, env, delta)->Ok_0,
                h,
                frame.len() as int,
                w,
            );
        },
        RelAlgebra::Unification(u) => {
            lemma_batched_width(*u.parent, env, delta);
            lemma_unify_wide(u, batched(*u.parent, env, delta)->Ok_0);
        },
        RelAlgebra::Search(s) => {
            lemma_batched_width(*s.parent, env, delta);
            let p = batched(*s.parent, env, delta)->Ok_0.stream();
            let f = |row: Row| searched(row, *s, env);
            assert forall|i: int| 0 <= i < p.items.len() && (
            #[trigger] p.items[i]) is Ok implies wide(f(p.items[i]->Ok_0), w) by {
                lemma_searched_wide(*s, p.items[i]->Ok_0, env);
            }
            lemma_through_wide(p, f, w);
            lemma_chunked_wide(through(p, f), w);
        },
        RelAlgebra::NegJoin(n) => {
            lemma_batched_width(n.left, env, delta);
            let p = batched(n.left, env, delta)->Ok_0.stream();
            let rows = neg_rows(n.right, env)->Ok_0;
            lemma_neg_wide(*n, p, env);
            lemma_chunked_wide(
                neg_join(p, rows, neg_shape(*n), neg_origin(n.right, env))->Ok_0,
                w,
            );
        },
        RelAlgebra::Join(j) => {
            let left = batched(j.left, env, delta);
            let right = batched(j.right, env, delta);
            if right is Ok && (!j.joins_table() || j.left.unit_like()) {
                lemma_batched_width(j.right, env, delta);
            }
            if j.left.unit_like() {
                let rf = j.right.out_frame();
                let drop = j.shape().drop;
                let h = |row: Row| Stream::one(without(row, drop));
                lemma_unit_columns(*j);
                assert forall|row: Row| row.len() == rf.len() implies wide(#[trigger] h(row), w) by {
                    lemma_without_len(row, rf, drop);
                }
                lemma_rows_wide(right->Ok_0, h, rf.len() as int, w);
            } else {
                if left is Ok {
                    lemma_batched_width(j.left, env, delta);
                }
                lemma_join_width(*j, streamed(left), streamed(right), env, delta);
                let s = join_meaning(*j, streamed(left), streamed(right), env, delta)->Ok_0;
                lemma_chunked_wide(s, w);
            }
        },
    }
    lemma_flat_wide(all, w);
}

/// The columns of a join with the unit relation are those of its right side.
pub proof fn lemma_unit_columns(j: InnerJoin)
    requires
        j.left.unit_like(),
    ensures
        j.columns() == j.right.out_frame(),
        j.left.out_frame() == Seq::<Name>::empty(),
{
    lemma_without_len(
        j.left.frame(),
        j.left.frame(),
        gone_at(j.left.frame(), j.left.gone()),
    );
    assert(j.left.frame().len() == 0);
    assert(j.left.out_frame().len() == 0) by {
        assert(crate::names::without(
            j.left.frame(),
            gone_at(j.left.frame(), j.left.gone()),
        ).len() == 0);
    }
    assert(j.left.out_frame() =~= Seq::<Name>::empty());
    assert(j.columns() =~= j.right.out_frame());
}

proof fn lemma_unify_wide(u: UnificationRA, g: Groups)
    requires
        groups_wide(g, u.parent.out_frame().len() as int),
    ensures
        ({
            let frame = u.parent.out_frame();
            let drop = gone_at(frame.push(u.binding@), name_set(u.to_eliminate@));
            groups_wide(
                each_group(
                    g,
                    |rows: Seq<Row>|
                        unified_group(u.expr, frame, u.is_multi, u.span, drop, rows),
                ),
                RelAlgebra::Unification(u).out_frame().len() as int,
            )
        }),
{
    let frame = u.parent.out_frame();
    let w = RelAlgebra::Unification(u).out_frame().len() as int;
    let drop = gone_at(frame.push(u.binding@), name_set(u.to_eliminate@));
    let f = |rows: Seq<Row>| unified_group(u.expr, frame, u.is_multi, u.span, drop, rows);
    let h = |row: Row| unified(row, eval_named(u.expr, frame, row), u.is_multi, u.span, drop);
    assert forall|i: int| 0 <= i < g.items.len() && (#[trigger] g.items[i]) is Ok implies wide(
        f(g.items[i]->Ok_0),
        w,
    ) by {
        let rows = g.items[i]->Ok_0;
        assert forall|k: int| 0 <= k < rows.len() implies wide(#[trigger] h(rows[k]), w) by {
            assert(rows_wide(rows, frame.len() as int));
            lemma_unified_wide(u, rows[k]);
        }
        lemma_flow_wide(rows, h, w);
    }
    lemma_group_flow_wide(g.items, f, w);
}

/// A result in batches and its model agree.
pub open spec fn deals(
    r: Result<BatchStream, QueryError>,
    m: Result<Groups, QueryFault>,
) -> bool {
    match r {
        Ok(b) => b.wf() && m == Ok::<Groups, QueryFault>(b.deep_view()),
        Err(e) => m == Err::<Groups, QueryFault>(e.deep_view()),
    }
}

/// A join by probes, in batches.
fn probe_batches<S: RowStep>(
    left: BatchStream,
    probe: &S,
    Ghost(rows): Ghost<Seq<Row>>,
    Ghost(shape): Ghost<JoinShape>,
    Ghost(filters): Ghost<Seq<crate::expr::Expr>>,
    Ghost(frame): Ghost<Seq<Name>>,
    Ghost(key_len): Ghost<Option<int>>,
    Ghost(origin): Ghost<Option<Origin>>,
) -> (r: BatchStream)
    requires
        left.wf(),
        reached(left.deep_view().stream(), shape.lp),
        forall|l: Row| in_reach(shape.lp, l.len() as int) ==> #[trigger] probe.takes(l),
        forall|l: Row| #[trigger]
            probe.gives(l) == probed(
                l,
                rows,
                shape,
                filters,
                frame,
                probe_columns(frame, shape.rp.len() as int, key_len),
                origin,
            ),
    ensures
        r.wf(),
        r.deep_view() == chunked(
            probe_join(left.deep_view().stream(), rows, shape, filters, frame, key_len, origin),
        ),
{
    proof {
        lemma_reached(left.deep_view().stream(), shape.lp, |row: Row| probe.takes(row));
    }
    let join = PrefixProbeBatchJoin::new(left, probe);
    proof {
        let f = |row: Row| probe.gives(row);
        let g = |l: Row|
            probed(
                l,
                rows,
                shape,
                filters,
                frame,
                probe_columns(frame, shape.rp.len() as int, key_len),
                origin,
            );
        lemma_through_ext(left.deep_view().stream(), f, g);
    }
    join.collect()
}

impl TempStoreRA {
    /// Prefix join in batches: each left row probes the store by the join
    /// columns.
    pub fn prefix_join_batched(
        &self,
        left: BatchStream,
        lp: &Vec<usize>,
        rp: &Vec<usize>,
        eliminate: &Vec<usize>,
        delta: Option<usize>,
        env: &Env,
    ) -> (r: Result<BatchStream, QueryError>)
        requires
            env.stores.wf(),
            left.wf(),
            lp@.len() == rp@.len(),
            is_prefix(rp@),
            rp@.len() <= self.bindings@.len(),
            reached(left.deep_view().stream(), lp@),
            all_at_place(self.filters@, names(self.bindings@)),
            env.stores@.contains_key(self.storage_key@) ==> all_wide(
                env.stores@[self.storage_key@].rows(),
                self.bindings@.len() as int,
            ),
        ensures
            match r {
                Err(e) => !env.stores@.contains_key(self.storage_key@) && e == QueryError::Plan(
                    PlanInvariant::NoStore,
                ),
                Ok(b) => {
                    &&& env.stores@.contains_key(self.storage_key@)
                    &&& b.wf()
                    &&& b.deep_view() == chunked(
                        probe_join(
                            left.deep_view().stream(),
                            occurrence_rows(*self, *env, delta),
                            (JoinShape { lp: lp@, rp: rp@, drop: places_set(eliminate@) }),
                            self.filters@,
                            names(self.bindings@),
                            None,
                            None,
                        ),
                    )
                },
            },
    {
        let probe = self.prober(lp, rp, eliminate, delta, &env.stores)?;
        Ok(
            probe_batches(
                left,
                &probe,
                Ghost(occurrence_rows(*self, *env, delta)),
                Ghost(JoinShape { lp: lp@, rp: rp@, drop: places_set(eliminate@) }),
                Ghost(self.filters@),
                Ghost(names(self.bindings@)),
                Ghost(None),
                Ghost(None),
            ),
        )
    }
}

impl StoredRA {
    /// Prefix join in batches with the relation as it is now. Where a segment
    /// is at hand and no bounds narrow the probe, the segment is searched
    /// instead of the relation; the rows are the same.
    pub fn prefix_join_batched(
        &self,
        left: BatchStream,
        lp: &Vec<usize>,
        rp: &Vec<usize>,
        eliminate: &Vec<usize>,
        table: &FactTable,
        segment: Option<&Segment>,
    ) -> (r: BatchStream)
        requires
            table.wf(),
            left.wf(),
            lp@.len() == rp@.len(),
            is_prefix(rp@),
            rp@.len() <= self.bindings@.len(),
            reached(left.deep_view().stream(), lp@),
            all_at_place(self.filters@, names(self.bindings@)),
            segment matches Some(s) ==> s.wf() && s.deep_view() == snapshot(
                table.model(),
                newest(),
            ),
        ensures
            r.wf(),
            r.deep_view() == chunked(
                probe_join(
                    left.deep_view().stream(),
                    snapshot(table.model(), newest()),
                    (JoinShape { lp: lp@, rp: rp@, drop: places_set(eliminate@) }),
                    self.filters@,
                    names(self.bindings@),
                    Some(table.key_len as int),
                    Some(
                        Origin {
                            relation: self.storage.name,
                            key_len: table.key_len,
                            span: self.span,
                        },
                    ),
                ),
            ),
    {
        let origin = Origin {
            relation: self.storage.name.clone(),
            key_len: table.key_len,
            span: self.span,
        };
        let ghost rows = snapshot(table.model(), newest());
        let ghost shape = JoinShape { lp: lp@, rp: rp@, drop: places_set(eliminate@) };
        let ghost frame = names(self.bindings@);
        let ghost key_len = Some(table.key_len as int);
        let probe = table_prober(
            table,
            AsOf { valid: i64::MAX, sys: i64::MAX },
            &self.bindings,
            &self.filters,
            lp,
            rp,
            eliminate,
            Some(origin.clone()),
        );
        if probe.bounds.is_none() {
            if let Some(segment) = segment {
                let search = SegmentProbe {
                    segment,
                    bindings: &self.bindings,
                    filters: &self.filters,
                    key_len: table.key_len,
                    lp,
                    rp,
                    order: probe.order,
                    eliminate,
                    origin,
                };
                proof {
                    assert forall|i: int| 0 <= i < rows.len() implies table.key_len <= (
                    #[trigger] rows[i]).len() by {
                        assert(rows.contains(rows[i]));
                        lemma_row_of_key(table, newest(), rows[i]);
                    }
                }
                return probe_batches(
                    left,
                    &search,
                    Ghost(rows),
                    Ghost(shape),
                    Ghost(self.filters@),
                    Ghost(frame),
                    Ghost(key_len),
                    Ghost(Some(origin)),
                );
            }
        }
        probe_batches(
            left,
            &probe,
            Ghost(rows),
            Ghost(shape),
            Ghost(self.filters@),
            Ghost(frame),
            Ghost(key_len),
            Ghost(Some(origin)),
        )
    }
}

impl StoredWithValidityRA {
    /// Prefix join in batches with the relation as of the coordinate.
    pub fn prefix_join_batched(
        &self,
        left: BatchStream,
        lp: &Vec<usize>,
        rp: &Vec<usize>,
        eliminate: &Vec<usize>,
        table: &FactTable,
    ) -> (r: BatchStream)
        requires
            table.wf(),
            left.wf(),
            lp@.len() == rp@.len(),
            is_prefix(rp@),
            rp@.len() <= self.bindings@.len(),
            reached(left.deep_view().stream(), lp@),
            all_at_place(self.filters@, names(self.bindings@)),
        ensures
            r.wf(),
            r.deep_view() == chunked(
                probe_join(
                    left.deep_view().stream(),
                    snapshot(table.model(), self.as_of),
                    (JoinShape { lp: lp@, rp: rp@, drop: places_set(eliminate@) }),
                    self.filters@,
                    names(self.bindings@),
                    Some(table.key_len as int),
                    None,
                ),
            ),
    {
        let probe = table_prober(
            table,
            self.as_of,
            &self.bindings,
            &self.filters,
            lp,
            rp,
            eliminate,
            None,
        );
        probe_batches(
            left,
            &probe,
            Ghost(snapshot(table.model(), self.as_of)),
            Ghost(JoinShape { lp: lp@, rp: rp@, drop: places_set(eliminate@) }),
            Ghost(self.filters@),
            Ghost(names(self.bindings@)),
            Ghost(Some(table.key_len as int)),
            Ghost(None),
        )
    }
}

/// Rows without the columns that are shed.
pub struct ShedStep {
    pub eliminate: Vec<usize>,
}

impl RowStep for ShedStep {
    open spec fn takes(&self, row: Row) -> bool {
        true
    }

    open spec fn gives(&self, row: Row) -> Stream {
        Stream::one(without(row, places_set(self.eliminate@)))
    }

    fn step(&self, row: &Tuple) -> (r: TupleStream) {
        TupleStream::one(
            crate::names::eliminate_from_tuple(crate::value::copy_row(row), &self.eliminate),
        )
    }
}

proof fn lemma_group_flow_ext(
    items: Seq<GroupItem>,
    f: spec_fn(Seq<Row>) -> Stream,
    g: spec_fn(Seq<Row>) -> Stream,
)
    requires
        forall|i: int|
            0 <= i < items.len() && (#[trigger] items[i]) is Ok ==> f(items[i]->Ok_0) == g(
                items[i]->Ok_0,
            ),
    ensures
        group_flow(items, f) == group_flow(items, g),
    decreases items.len(),
{
    if items.len() > 0 {
        let rest = items.drop_last();
        assert forall|i: int| 0 <= i < rest.len() && (#[trigger] rest[i]) is Ok implies f(
            rest[i]->Ok_0,
        ) == g(rest[i]->Ok_0) by {
            assert(items[i] is Ok);
        }
        lemma_group_flow_ext(rest, f, g);
        assert(items[items.len() - 1] == items.last());
    }
}

/// An operator takes rows, and makes of each what is asked for.
spec fn takes_rows<S: RowStep>(op: S, rows: Seq<Row>, h: spec_fn(Row) -> Stream) -> bool {
    forall|j: int|
        0 <= j < rows.len() ==> op.takes(#[trigger] rows[j]) && op.gives(rows[j]) == h(rows[j])
}

/// An operator on rows over batches.
fn pipe_rows<S: RowStep>(
    s: BatchStream,
    op: S,
    Ghost(h): Ghost<spec_fn(Row) -> Stream>,
) -> (r: BatchStream)
    requires
        s.wf(),
        forall|i: int|
            0 <= i < s.deep_view().items.len() && (#[trigger] s.deep_view().items[i]) is Ok
                ==> takes_rows(op, s.deep_view().items[i]->Ok_0, h),
    ensures
        r.wf(),
        r.deep_view() == each_group(s.deep_view(), |rows: Seq<Row>| flow(rows, h)),
{
    let step = RowsStep { op };
    proof {
        let items = s.deep_view().items;
        let f = |rows: Seq<Row>| step.gives(rows);
        let g = |rows: Seq<Row>| flow(rows, h);
        let one = |row: Row| op.gives(row);
        assert forall|i: int| 0 <= i < items.len() && (#[trigger] items[i]) is Ok implies f(
            items[i]->Ok_0,
        ) == g(items[i]->Ok_0) by {
            let rows = items[i]->Ok_0;
            assert(takes_rows(op, rows, h));
            assert forall|j: int| 0 <= j < rows.len() implies #[trigger] one(rows[j]) == h(
                rows[j],
            ) by {
                assert(op.gives(rows[j]) == h(rows[j]));
            }
            lemma_flow_ext(rows, one, h);
        }
        lemma_group_flow_ext(items, f, g);
        assert forall|i: int| 0 <= i < items.len() && (#[trigger] items[i]) is Ok implies step.takes(
            items[i]->Ok_0,
        ) by {
            assert(takes_rows(op, items[i]->Ok_0, h));
        }
    }
    pipe_groups(s, &step)
}

impl RelAlgebra {
    /// Run the plan in batches. Only the occurrence `delta` reads the delta of
    /// its store. Segments may serve the scans of stored relations.
    pub fn iter_batched(
        &self,
        env: &Env,
        delta: Option<usize>,
        segments: &Segments,
    ) -> (r: Result<BatchStream, QueryError>)
        requires
            env.stores.wf(),
            self.runs(*env),
            self.compiled(),
            segments.current(env.tables@),
        ensures
            deals(r, batched(*self, *env, delta)),
        decreases self, 1nat,
    {
        match self {
            RelAlgebra::Stored(t) => {
                let rows = match segments.serving(&t.storage) {
                    Some(segment) => segment.all_rows(),
                    None => env.tables[t.storage.id].skip_scan_all(
                        AsOf { valid: i64::MAX, sys: i64::MAX },
                    ),
                };
                Ok(
                    chunk_stream(
                        crate::run::sift_rows(rows, &t.filters, Ghost(names(t.bindings@))),
                    ),
                )
            },
            RelAlgebra::Reorder(t) => t.iter_batched(env, delta, segments),
            RelAlgebra::Filter(t) => t.iter_batched(env, delta, segments),
            RelAlgebra::Unification(t) => t.iter_batched(env, delta, segments),
            RelAlgebra::Search(t) => t.iter_batched(env, delta, segments),
            RelAlgebra::NegJoin(n) => n.iter_batched(env, delta, segments),
            RelAlgebra::Join(j) => j.iter_batched(env, delta, segments),
            _ => match self.iter(env, delta) {
                Ok(s) => Ok(chunk_stream(s)),
                Err(e) => Err(e),
            },
        }
    }
}

impl ReorderRA {
    /// The batches of the parent, their columns in the new order.
    pub fn iter_batched(
        &self,
        env: &Env,
        delta: Option<usize>,
        segments: &Segments,
    ) -> (r: Result<BatchStream, QueryError>)
        requires
            env.stores.wf(),
            RelAlgebra::Reorder(*self).runs(*env),
            RelAlgebra::Reorder(*self).compiled(),
            segments.current(env.tables@),
        ensures
            deals(r, batched(RelAlgebra::Reorder(*self), *env, delta)),
        decreases self, 0nat,
    {
        let old_order = self.relation.bindings_after_eliminate();
        let places = match reorder_places(&self.new_order, &old_order) {
            Some(p) => p,
            None => {
                return Err(QueryError::Plan(PlanInvariant::ReorderColumns));
            },
        };
        proof {
            lemma_steady_runs(*self.relation, *env);
        }
        let parent = self.relation.iter_batched(env, delta, segments)?;
        let ghost want = places_of(
            names(self.new_order@),
            self.relation.out_frame(),
            self.new_order@.len() as int,
        );
        let step = ReorderStep { places };
        let ghost h = |row: Row| Stream::one(project(row, want));
        proof {
            lemma_batched_width(*self.relation, *env, delta);
            let items = parent.deep_view().items;
            assert forall|i: int| 0 <= i < items.len() && (
            #[trigger] items[i]) is Ok implies takes_rows(step, items[i]->Ok_0, h) by {
                assert(rows_wide(items[i]->Ok_0, self.relation.out_frame().len() as int));
            }
        }
        Ok(pipe_rows(parent, step, Ghost(h)))
    }
}

impl FilteredRA {
    /// The batches of the parent, with the rows on which every filter holds. A
    /// batch without such a row is left out.
    pub fn iter_batched(
        &self,
        env: &Env,
        delta: Option<usize>,
        segments: &Segments,
    ) -> (r: Result<BatchStream, QueryError>)
        requires
            env.stores.wf(),
            RelAlgebra::Filter(*self).runs(*env),
            RelAlgebra::Filter(*self).compiled(),
            segments.current(env.tables@),
        ensures
            deals(r, batched(RelAlgebra::Filter(*self), *env, delta)),
        decreases self, 0nat,
    {
        let bindings = self.parent.bindings_after_eliminate();
        let eliminate = get_eliminate_indices(&bindings, &self.to_eliminate);
        let parent = self.parent.iter_batched(env, delta, segments)?;
        let ghost frame = self.parent.out_frame();
        Ok(
            pipe_rows(
                parent,
                FilterStep { filters: &self.filters, eliminate, frame: Ghost(frame) },
                Ghost(
                    |row: Row|
                        sift(
                            self.filters@,
                            frame,
                            row,
                            shed(row, frame, name_set(self.to_eliminate@)),
                        ),
                ),
            ),
        )
    }
}

impl UnificationRA {
    /// The batches of the parent with the computed column: the expression is
    /// evaluated over a whole batch at once.
    pub fn iter_batched(
        &self,
        env: &Env,
        delta: Option<usize>,
        segments: &Segments,
    ) -> (r: Result<BatchStream, QueryError>)
        requires
            env.stores.wf(),
            RelAlgebra::Unification(*self).runs(*env),
            RelAlgebra::Unification(*self).compiled(),
            segments.current(env.tables@),
        ensures
            deals(r, batched(RelAlgebra::Unification(*self), *env, delta)),
        decreases self, 0nat,
    {
        let mut bindings = self.parent.bindings_after_eliminate();
        let ghost before = names(bindings@);
        bindings.push(self.binding.clone());
        proof {
            assert(names(bindings@) =~= before.push(self.binding@));
        }
        let eliminate = get_eliminate_indices(&bindings, &self.to_eliminate);
        proof {
            lemma_steady_runs(*self.parent, *env);
        }
        let parent = self.parent.iter_batched(env, delta, segments)?;
        let ghost frame = self.parent.out_frame();
        let step = ColumnUnify {
            expr: &self.expr,
            is_multi: self.is_multi,
            span: self.span,
            eliminate,
            frame: Ghost(frame),
        };
        proof {
            lemma_batched_width(*self.parent, *env, delta);
            let items = parent.deep_view().items;
            let drop = gone_at(frame.push(self.binding@), name_set(self.to_eliminate@));
            assert forall|i: int| 0 <= i < items.len() && (
            #[trigger] items[i]) is Ok implies step.takes(items[i]->Ok_0) by {
                assert(rows_wide(items[i]->Ok_0, frame.len() as int));
            }
            lemma_group_flow_ext(
                items,
                |rows: Seq<Row>| step.gives(rows),
                |rows: Seq<Row>|
                    unified_group(self.expr, frame, self.is_multi, self.span, drop, rows),
            );
        }
        Ok(pipe_groups(parent, &step))
    }
}

impl SearchRA {
    /// The rows of the parent, each extended by the results of its search, in
    /// batches.
    pub fn iter_batched(
        &self,
        env: &Env,
        delta: Option<usize>,
        segments: &Segments,
    ) -> (r: Result<BatchStream, QueryError>)
        requires
            env.stores.wf(),
            RelAlgebra::Search(Box::new(*self)).runs(*env),
            RelAlgebra::Search(Box::new(*self)).compiled(),
            segments.current(env.tables@),
        ensures
            deals(r, batched(RelAlgebra::Search(Box::new(*self)), *env, delta)),
        decreases self, 0nat,
    {
        let parent = self.parent.iter_batched(env, delta, segments)?;
        Ok(chunk_stream(self.search_rows(parent.into_rows(), env)))
    }
}

impl NegJoin {
    /// The left rows that no right row matches, in batches.
    pub fn iter_batched(
        &self,
        env: &Env,
        delta: Option<usize>,
        segments: &Segments,
    ) -> (r: Result<BatchStream, QueryError>)
        requires
            env.stores.wf(),
            RelAlgebra::NegJoin(Box::new(*self)).runs(*env),
            RelAlgebra::NegJoin(Box::new(*self)).compiled(),
            segments.current(env.tables@),
        ensures
            deals(r, batched(RelAlgebra::NegJoin(Box::new(*self)), *env, delta)),
        decreases self, 0nat,
    {
        let bindings = self.left.bindings_after_eliminate();
        let (lp, rp) = self.joiner.join_indices(&bindings, self.right.bindings())?;
        proof {
            lemma_steady_runs(self.left, *env);
        }
        let left = self.left.iter_batched(env, delta, segments)?;
        proof {
            lemma_batched_width(self.left, *env, delta);
        }
        match self.spare(left.into_rows(), &bindings, &lp, &rp, env) {
            Ok(s) => Ok(chunk_stream(s)),
            Err(e) => Err(e),
        }
    }
}

impl InnerJoin {
    /// The join in batches. With the unit relation on the left, the batches of
    /// the right side are handed on as they are, without the columns shed.
    pub fn iter_batched(
        &self,
        env: &Env,
        delta: Option<usize>,
        segments: &Segments,
    ) -> (r: Result<BatchStream, QueryError>)
        requires
            env.stores.wf(),
            RelAlgebra::Join(Box::new(*self)).runs(*env),
            RelAlgebra::Join(Box::new(*self)).compiled(),
            segments.current(env.tables@),
        ensures
            deals(r, batched(RelAlgebra::Join(Box::new(*self)), *env, delta)),
        decreases self, 0nat,
    {
        let bindings = self.bindings();
        let eliminate = get_eliminate_indices(&bindings, &self.to_eliminate);
        proof {
            if !self.joins_table() {
                lemma_steady_runs(self.right, *env);
            }
        }
        if self.left.is_unit() {
            let right = self.right.iter_batched(env, delta, segments)?;
            return Ok(
                pipe_rows(
                    right,
                    ShedStep { eliminate },
                    Ghost(|row: Row| Stream::one(without(row, self.shape().drop))),
                ),
            );
        }
        match &self.right {
            RelAlgebra::Reorder(_) | RelAlgebra::NegJoin(_) => {
                return Err(QueryError::Plan(PlanInvariant::RefusedRight));
            },
            _ => {},
        }
        let left_bindings = self.left.bindings_after_eliminate();
        let right_bindings = self.right.bindings_after_eliminate();
        let (lp, rp) = self.joiner.join_indices(&left_bindings, &right_bindings)?;
        proof {
            lemma_steady_runs(self.left, *env);
        }
        let left = self.left.iter_batched(env, delta, segments)?;
        let width: usize = right_bindings.len();
        let left_width: usize = left_bindings.len();
        proof {
            assert(left_width == self.left.out_frame().len());
            assert(width == self.right.out_frame().len());
            lemma_batched_width(self.left, *env, delta);
            lemma_keys_placed(
                names(self.joiner.left_keys@),
                names(self.joiner.right_keys@),
                self.left.out_frame(),
                self.right.out_frame(),
                self.joiner.arity(),
            );
            lemma_wide_reached(
                left.deep_view().stream(),
                self.left.out_frame().len() as int,
                lp@,
            );
        }
        if self.probes() && join_is_prefix(&rp) {
            return self.probe_batched(left, &lp, &rp, &eliminate, env, delta, segments);
        }
        let left = left.into_rows();
        match &self.right {
            RelAlgebra::Fixed(f) => {
                proof {
                    lemma_fixed_wide(self.right, *env);
                    assert forall|i: int| 0 <= i < f.rows().len() implies in_reach(
                        rp@,
                        (#[trigger] f.rows()[i]).len() as int,
                    ) by {
                        assert(Stream::of(f.rows()).items[i] is Ok);
                    }
                }
                return Ok(chunk_stream(f.join(left, &lp, &rp, &eliminate)));
            },
            _ => {},
        }
        if left.items.len() == 0 {
            return Ok(BatchStream::nothing());
        }
        proof {
            assert(left.deep_view().items[0] == item_model(left.items@[0]));
        }
        if let Err(e) = &left.items[0] {
            return Err(e.clone());
        }
        let right = self.right.iter_batched(env, delta, segments)?;
        let right = right.into_rows();
        let origin = self.right_origin(env);
        proof {
            if !self.joins_table() {
                lemma_batched_width(self.right, *env, delta);
            }
        }
        match self.mat_iter(left, right, &lp, &rp, &eliminate, width, &origin) {
            Ok(s) => Ok(chunk_stream(s)),
            Err(e) => Err(e),
        }
    }

    /// Join by probing the scan on the right, in batches.
    fn probe_batched(
        &self,
        left: BatchStream,
        lp: &Vec<usize>,
        rp: &Vec<usize>,
        eliminate: &Vec<usize>,
        env: &Env,
        delta: Option<usize>,
        segments: &Segments,
    ) -> (r: Result<BatchStream, QueryError>)
        requires
            env.stores.wf(),
            left.wf(),
            self.right.runs(*env),
            self.right.compiled(),
            segments.current(env.tables@),
            self.probing(),
            self.fault() is None,
            lp@ == self.shape().lp,
            rp@ == self.shape().rp,
            places_set(eliminate@) == self.shape().drop,
            is_prefix(rp@),
            in_reach(rp@, self.right.out_frame().len() as int),
            reached(left.deep_view().stream(), lp@),
        ensures
            forall|right: Result<Stream, QueryFault>|
                deals(
                    r,
                    regrouped(
                        #[trigger] join_meaning(
                            *self,
                            Ok(left.deep_view().stream()),
                            right,
                            *env,
                            delta,
                        ),
                    ),
                ),
    {
        proof {
            lemma_prefix_fits(rp@, self.right.out_frame().len() as int);
            lemma_sheds_nothing(self.right.frame());
        }
        match &self.right {
            RelAlgebra::TempStore(t) => t.prefix_join_batched(left, lp, rp, eliminate, delta, env),
            RelAlgebra::Stored(t) => Ok(
                t.prefix_join_batched(
                    left,
                    lp,
                    rp,
                    eliminate,
                    &env.tables[t.storage.id],
                    segments.serving(&t.storage),
                ),
            ),
            RelAlgebra::StoredWithValidity(t) => Ok(
                t.prefix_join_batched(left, lp, rp, eliminate, &env.tables[t.storage.id]),
            ),
            _ => Err(QueryError::Plan(PlanInvariant::RefusedRight)),
        }
    }
}

} // verus!
