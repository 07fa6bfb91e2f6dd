//! The batched path gives the same answer as the plan itself.

use vstd::prelude::*;
use crate::answer::{
    answer, distinct, each, holds, joined_set, just, lemma_join_answer, lemma_one_set,
    lemma_searched_set, lemma_sift_set, lemma_sifted_set, lemma_through_each, lemma_unified_set,
    lemma_neg_answer, neg_shape, searched_set, sized, unified_set,
};
use crate::batched::{batched, lemma_batched_width, lemma_unit_columns, streamed};
use crate::columns::{first_fault, unified_group};
use crate::groups::{each_group, law_chunks_keep_rows, lemma_stream_sound, Groups};
use crate::history::snapshot;
use crate::meaning::{
    all_placed, join_meaning, keys_match, neg_join, neg_origin, neg_rows, newest, occurrence_rows,
    searched, sift, sifted, unified, Env,
};
use crate::names::{gone_at, name_set, names, shed, without, Name};
use crate::plan::{places_of, InnerJoin, RelAlgebra, UnificationRA};
use crate::resolve::eval_named;
use crate::run::{lemma_delta_enumerable, lemma_fits_steady};
use crate::stream::{
    flow, lemma_failed, lemma_failure, lemma_followed, lemma_of_rows, lemma_row_set,
    lemma_sound_rows, lemma_through_followed, lemma_through_of, through, QueryFault, Stream,
};
use crate::temp_store::project;
use crate::value::Row;

verus! {

/// Every join in a plan can be carried out: its join columns are in their
/// frames, and its right side is one a join can have.
pub open spec fn joinable(plan: RelAlgebra) -> bool
    decreases plan,
{
    match plan {
        RelAlgebra::Reorder(r) => joinable(*r.relation),
        RelAlgebra::Filter(r) => joinable(*r.parent),
        RelAlgebra::Unification(u) => joinable(*u.parent),
        RelAlgebra::Search(s) => joinable(*s.parent),
        RelAlgebra::NegJoin(n) => joinable(n.left),
        RelAlgebra::Join(j) => {
            &&& joinable(j.left)
            &&& joinable(j.right)
            &&& j.fault() is None
            &&& !(j.right is Reorder)
            &&& !(j.right is NegJoin)
        },
        _ => true,
    }
}

/// Turning groups row by row is turning their rows.
proof fn lemma_each_group_rows(g: Groups, f: spec_fn(Seq<Row>) -> Stream, h: spec_fn(Row) -> Stream)
    requires
        each_group(g, f).sound(),
        forall|i: int|
            0 <= i < g.items.len() && (#[trigger] g.items[i]) is Ok && f(
                g.items[i]->Ok_0,
            ).sound() ==> f(g.items[i]->Ok_0) == flow(g.items[i]->Ok_0, h),
    ensures
        through(g.stream(), h) == each_group(g, f).stream(),
        through(g.stream(), h).sound(),
        g.sound(),
    decreases g.items.len(),
{
    if g.items.len() > 0 {
        let rest = Groups { items: g.items.drop_last() };
        let last = g.items.last();
        let before = each_group(rest, f);
        let all = each_group(g, f);
        assert(before.sound()) by {
            assert forall|i: int| 0 <= i < before.items.len() implies (
            #[trigger] before.items[i]) is Ok by {
                assert(all.items[i] == before.items[i]);
                assert(all.items[i] is Ok);
            }
        }
        assert forall|i: int| 0 <= i < rest.items.len() && (#[trigger] rest.items[i]) is Ok && f(
            rest.items[i]->Ok_0,
        ).sound() implies f(rest.items[i]->Ok_0) == flow(rest.items[i]->Ok_0, h) by {
            assert(g.items[i] is Ok);
        }
        lemma_each_group_rows(rest, f, h);
        assert(last is Ok) by {
            if last is Err {
                assert(all.items[before.items.len() as int] is Err);
            }
        }
        assert(g.items[g.items.len() - 1] is Ok);
        let rows = last->Ok_0;
        let s = f(rows);
        lemma_failure(s);
        if s.failure() is Some {
            assert(all.items[before.items.len() as int] is Err);
        }
        assert(s == flow(rows, h));
        lemma_through_followed(rest.stream(), Stream::of(rows), h);
        lemma_through_of(rows, h);
        lemma_followed(through(rest.stream(), h), s);
        if s.items.len() == 0 {
            assert(before.stream().followed_by(s).items =~= before.stream().items);
        } else {
            lemma_sound_rows(s);
            assert(all.items.drop_last() =~= before.items);
        }
        assert forall|i: int| 0 <= i < g.items.len() implies (#[trigger] g.items[i]) is Ok by {
            if i < rest.items.len() {
                assert(rest.items[i] is Ok);
            }
        }
    } else {
        assert(g.stream() =~= Stream::nothing());
    }
}

proof fn lemma_unify_rows(u: UnificationRA, g: Groups)
    requires
        ({
            let frame = u.parent.out_frame();
            let drop = gone_at(frame.push(u.binding@), name_set(u.to_eliminate@));
            each_group(
                g,
                |rows: Seq<Row>| unified_group(u.expr, frame, u.is_multi, u.span, drop, rows),
            ).sound()
        }),
    ensures
        ({
            let frame = u.parent.out_frame();
            let drop = gone_at(frame.push(u.binding@), name_set(u.to_eliminate@));
            let out = through(
                g.stream(),
                |row: Row| unified(row, eval_named(u.expr, frame, row), u.is_multi, u.span, drop),
            );
            &&& g.sound()
            &&& out.sound()
            &&& out == each_group(
                g,
                |rows: Seq<Row>| unified_group(u.expr, frame, u.is_multi, u.span, drop, rows),
            ).stream()
        }),
{
    let frame = u.parent.out_frame();
    let drop = gone_at(frame.push(u.binding@), name_set(u.to_eliminate@));
    let f = |rows: Seq<Row>| unified_group(u.expr, frame, u.is_multi, u.span, drop, rows);
    let h = |row: Row| unified(row, eval_named(u.expr, frame, row), u.is_multi, u.span, drop);
    assert forall|i: int| 0 <= i < g.items.len() && (#[trigger] g.items[i]) is Ok && f(
        g.items[i]->Ok_0,
    ).sound() implies f(g.items[i]->Ok_0) == flow(g.items[i]->Ok_0, h) by {
        let rows = g.items[i]->Ok_0;
        if first_fault(u.expr, frame, rows) is Some {
            lemma_failed(QueryFault::Eval(first_fault(u.expr, frame, rows)->Some_0));
        }
    }
    lemma_each_group_rows(g, f, h);
}

/// A join with the unit relation is its right side, without the columns shed.
proof fn lemma_unit_answer(j: InnerJoin, env: Env, delta: Option<usize>)
    requires
        j.left.unit_like(),
        j.left.fits(env),
        j.fault() is None,
        !(j.right is Reorder),
        !(j.right is NegJoin),
    ensures
        answer(RelAlgebra::Join(Box::new(j)), env, delta) == each(
            answer(j.right, env, delta),
            |row: Row| just(true, without(row, j.shape().drop)),
        ),
{
    lemma_unit_columns(j);
    let r = j.left->Fixed_0;
    let shape = j.shape();
    let right = answer(j.right, env, delta);
    let unit = Seq::<crate::value::Val>::empty();
    assert(r.data@[0]@.len() == 0);
    assert(r.data@[0].deep_view() =~= unit);
    crate::names::lemma_without_len(
        unit,
        unit,
        gone_at(names(r.bindings@), name_set(r.to_eliminate@)),
    );
    assert(r.rows() =~= seq![unit]) by {
        let row = r.rows()[0];
        assert(without(unit, gone_at(names(r.bindings@), name_set(r.to_eliminate@))).len() == 0);
        assert(row =~= unit);
    }
    assert(r.rows()[0] == unit);
    assert(j.joiner.arity() == 0) by {
        if j.joiner.arity() > 0 {
            lemma_no_keys(
                names(j.joiner.left_keys@),
                names(j.joiner.right_keys@),
                j.left.out_frame(),
                j.right.out_frame(),
                j.joiner.arity(),
            );
        }
    }
    let g = |row: Row| just(true, without(row, shape.drop));
    let whole = answer(RelAlgebra::Join(Box::new(j)), env, delta);
    let left = answer(j.left, env, delta);
    assert forall|x: Row| whole.contains(x) == each(right, g).contains(x) by {
        assert forall|row: Row| #[trigger] keys_match(unit, shape.lp, row, shape.rp) by {
            assert(project(unit, shape.lp) =~= project(row, shape.rp));
        }
        assert forall|row: Row| #[trigger] (unit + row) == row by {
            assert(unit + row =~= row);
        }
        if whole.contains(x) {
            let l = choose|l: Row| #[trigger]
                left.contains(l) && joined_set(l, right, shape).contains(x);
            assert(l == unit);
            let row = choose|row: Row| #[trigger]
                right.contains(row) && keys_match(l, shape.lp, row, shape.rp) && x == without(
                    l + row,
                    shape.drop,
                );
            assert(g(row).contains(x));
        }
        if each(right, g).contains(x) {
            let row = choose|row: Row| #[trigger] right.contains(row) && g(row).contains(x);
            assert(keys_match(unit, shape.lp, row, shape.rp));
            assert(x == without(unit + row, shape.drop));
            assert(joined_set(unit, right, shape).contains(x));
            assert(r.rows().contains(unit));
            assert(left.contains(unit));
        }
    }
    assert(whole =~= each(right, g));
}

proof fn lemma_no_keys(lk: Seq<Name>, rk: Seq<Name>, lf: Seq<Name>, rf: Seq<Name>, n: int)
    requires
        n > 0,
        lf.len() == 0,
    ensures
        crate::plan::key_fault(lk, rk, lf, rf, n) is Some,
    decreases n,
{
    if n > 1 {
        lemma_no_keys(lk, rk, lf, rf, n - 1);
    } else {
        assert(crate::plan::key_fault(lk, rk, lf, rf, 0) is None);
    }
}

/// Where nothing fails, the rows in the batches of a plan are its answer.
#[verifier::rlimit(60)]
pub proof fn law_batches_are_the_answer(plan: RelAlgebra, env: Env, delta: Option<usize>)
    requires
        env.stores.wf(),
        plan.fits(env),
        distinct(plan),
        sized(plan),
        joinable(plan),
        batched(plan, env, delta) is Ok,
        batched(plan, env, delta)->Ok_0.sound(),
    ensures
        batched(plan, env, delta)->Ok_0.stream().sound(),
        batched(plan, env, delta)->Ok_0.stream().rows().to_set() == answer(plan, env, delta),
    decreases plan,
{
    match plan {
        RelAlgebra::Fixed(r) => {
            law_chunks_keep_rows(Stream::of(r.rows()));
            lemma_of_rows(r.rows());
        },
        RelAlgebra::TempStore(r) => {
            let rows = occurrence_rows(r, env, delta);
            law_chunks_keep_rows(sifted(rows, r.filters@, names(r.bindings@)));
            lemma_sifted_set(rows, r.filters@, names(r.bindings@));
        },
        RelAlgebra::Stored(r) => {
            let rows = snapshot(env.tables@[r.storage.id as int].model(), newest());
            law_chunks_keep_rows(sifted(rows, r.filters@, names(r.bindings@)));
            lemma_sifted_set(rows, r.filters@, names(r.bindings@));
        },
        RelAlgebra::StoredWithValidity(r) => {
            let rows = snapshot(env.tables@[r.storage.id as int].model(), r.as_of);
            law_chunks_keep_rows(sifted(rows, r.filters@, names(r.bindings@)));
            lemma_sifted_set(rows, r.filters@, names(r.bindings@));
        },
        RelAlgebra::Spans(r) => {
            let s = crate::meaning::spans_stream(
                env.tables@[r.storage.id as int].model(),
                r.sys as int,
            );
            law_chunks_keep_rows(s);
            lemma_row_set(s);
        },
        RelAlgebra::Delta(r) => {
            let table = env.tables@[r.storage.id as int];
            lemma_delta_enumerable(table, r.from, r.to);
            let rows = crate::epoch::ordered(
                crate::meaning::delta_set(table.model(), r.from, r.to),
            );
            law_chunks_keep_rows(Stream::of(rows));
            lemma_of_rows(rows);
        },
        RelAlgebra::Reorder(r) => {
            let g = batched(*r.relation, env, delta)->Ok_0;
            let places = places_of(
                names(r.new_order@),
                r.relation.out_frame(),
                r.new_order@.len() as int,
            );
            let h = |row: Row| Stream::one(project(row, places));
            let k = |row: Row|
                just(
                    all_placed(names(r.new_order@), r.relation.out_frame()),
                    project(row, places),
                );
            lemma_each_group_rows(g, |rows: Seq<Row>| flow(rows, h), h);
            let s = g.stream();
            assert forall|i: int|
                0 <= i < s.rows().len() && (#[trigger] h(s.rows()[i])).sound() implies h(
                s.rows()[i],
            ).rows().to_set() == k(s.rows()[i]) by {
                lemma_one_set(project(s.rows()[i], places));
            }
            lemma_through_each(s, h, k);
            law_batches_are_the_answer(*r.relation, env, delta);
        },
        RelAlgebra::Filter(r) => {
            let g = batched(*r.parent, env, delta)->Ok_0;
            let frame = r.parent.out_frame();
            let gone = name_set(r.to_eliminate@);
            let h = |row: Row| sift(r.filters@, frame, row, shed(row, frame, gone));
            let k = |row: Row| just(holds(r.filters@, frame, row), shed(row, frame, gone));
            lemma_each_group_rows(g, |rows: Seq<Row>| flow(rows, h), h);
            let s = g.stream();
            assert forall|i: int|
                0 <= i < s.rows().len() && (#[trigger] h(s.rows()[i])).sound() implies h(
                s.rows()[i],
            ).rows().to_set() == k(s.rows()[i]) by {
                lemma_sift_set(r.filters@, frame, s.rows()[i], shed(s.rows()[i], frame, gone));
            }
            lemma_through_each(s, h, k);
            law_batches_are_the_answer(*r.parent, env, delta);
        },
        RelAlgebra::Unification(u) => {
            let g = batched(*u.parent, env, delta)->Ok_0;
            let frame = u.parent.out_frame();
            let drop = gone_at(frame.push(u.binding@), name_set(u.to_eliminate@));
            let h = |row: Row|
                unified(row, eval_named(u.expr, frame, row), u.is_multi, u.span, drop);
            let k = |row: Row| unified_set(u, frame, row);
            lemma_unify_rows(u, g);
            let s = g.stream();
            assert forall|i: int|
                0 <= i < s.rows().len() && (#[trigger] h(s.rows()[i])).sound() implies h(
                s.rows()[i],
            ).rows().to_set() == k(s.rows()[i]) by {
                lemma_unified_set(u, frame, s.rows()[i]);
            }
            lemma_through_each(s, h, k);
            law_batches_are_the_answer(*u.parent, env, delta);
        },
        RelAlgebra::Search(x) => {
            let g = batched(*x.parent, env, delta)->Ok_0;
            let s = g.stream();
            let h = |row: Row| searched(row, *x, env);
            let k = |row: Row| searched_set(*x, env, row);
            law_chunks_keep_rows(through(s, h));
            assert forall|i: int|
                0 <= i < s.rows().len() && (#[trigger] h(s.rows()[i])).sound() implies h(
                s.rows()[i],
            ).rows().to_set() == k(s.rows()[i]) by {
                lemma_searched_set(*x, env, s.rows()[i]);
            }
            lemma_through_each(s, h, k);
            lemma_stream_sound(g);
            law_batches_are_the_answer(*x.parent, env, delta);
        },
        RelAlgebra::NegJoin(n) => {
            let s = batched(n.left, env, delta)->Ok_0.stream();
            let rows = neg_rows(n.right, env)->Ok_0;
            let out = neg_join(s, rows, neg_shape(*n), neg_origin(n.right, env));
            if out is Ok {
                law_chunks_keep_rows(out->Ok_0);
            }
            lemma_neg_answer(*n, s, env);
            lemma_stream_sound(batched(n.left, env, delta)->Ok_0);
            law_batches_are_the_answer(n.left, env, delta);
        },
        RelAlgebra::Join(j) => {
            let left = batched(j.left, env, delta);
            let right = batched(j.right, env, delta);
            lemma_stream_sound(left->Ok_0);
            lemma_stream_sound(right->Ok_0);
            if right is Ok && right->Ok_0.sound() {
                law_batches_are_the_answer(j.right, env, delta);
            }
            if j.left.unit_like() {
                let g = right->Ok_0;
                let s = g.stream();
                let drop = j.shape().drop;
                let h = |row: Row| Stream::one(without(row, drop));
                let k = |row: Row| just(true, without(row, drop));
                lemma_each_group_rows(g, |rows: Seq<Row>| flow(rows, h), h);
                assert forall|i: int|
                    0 <= i < s.rows().len() && (#[trigger] h(s.rows()[i])).sound() implies h(
                    s.rows()[i],
                ).rows().to_set() == k(s.rows()[i]) by {
                    lemma_one_set(without(s.rows()[i], drop));
                }
                lemma_through_each(s, h, k);
                lemma_unit_answer(*j, env, delta);
            } else {
                if left is Ok && left->Ok_0.sound() {
                    law_batches_are_the_answer(j.left, env, delta);
                }
                if right is Ok {
                    lemma_fits_steady(j.right, env);
                    lemma_batched_width(j.right, env, delta);
                }
                let m = join_meaning(*j, streamed(left), streamed(right), env, delta);
                law_chunks_keep_rows(m->Ok_0);
                lemma_join_answer(
                    *j,
                    streamed(left),
                    streamed(right),
                    answer(j.left, env, delta),
                    answer(j.right, env, delta),
                    env,
                    delta,
                );
            }
        },
    }
}

} // verus!
