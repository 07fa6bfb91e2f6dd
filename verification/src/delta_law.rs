//! Laws of the delta discipline: which rows a plan gives when one of its scans
//! reads what is new instead of everything.

use vstd::prelude::*;
use crate::answer::{answer, each, holds, joined_set, just, neg_shape, searched_set, unified_set};
use crate::meaning::{
    all_placed, join_meaning, keys_match, meaning, neg_rows, occurrence_rows, unmatched, Env,
};
use crate::names::{name_set, names, shed, without};
use crate::plan::{places_of, InnerJoin, RelAlgebra};
use crate::probe::{lemma_delta_within, lemma_store_enumerated};
use crate::run::lemma_store_wf;
use crate::stream::{QueryFault, Stream};
use crate::temp_store::project;
use crate::value::Row;

verus! {

/// Whether a plan has a scan with an occurrence. Negations do not count: they
/// always read totals.
pub open spec fn has_occurrence(plan: RelAlgebra, occ: usize) -> bool
    decreases plan,
{
    match plan {
        RelAlgebra::TempStore(r) => r.occurrence == occ,
        RelAlgebra::Reorder(r) => has_occurrence(*r.relation, occ),
        RelAlgebra::Filter(r) => has_occurrence(*r.parent, occ),
        RelAlgebra::Unification(u) => has_occurrence(*u.parent, occ),
        RelAlgebra::Search(s) => has_occurrence(*s.parent, occ),
        RelAlgebra::NegJoin(n) => has_occurrence(n.left, occ),
        RelAlgebra::Join(j) => has_occurrence(j.left, occ) || has_occurrence(j.right, occ),
        _ => false,
    }
}

/// No occurrence stands twice in a plan.
pub open spec fn occurrences_distinct(plan: RelAlgebra) -> bool
    decreases plan,
{
    match plan {
        RelAlgebra::Reorder(r) => occurrences_distinct(*r.relation),
        RelAlgebra::Filter(r) => occurrences_distinct(*r.parent),
        RelAlgebra::Unification(u) => occurrences_distinct(*u.parent),
        RelAlgebra::Search(s) => occurrences_distinct(*s.parent),
        RelAlgebra::NegJoin(n) => occurrences_distinct(n.left),
        RelAlgebra::Join(j) => {
            &&& occurrences_distinct(j.left)
            &&& occurrences_distinct(j.right)
            &&& forall|occ: usize|
                !(#[trigger] has_occurrence(j.left, occ) && has_occurrence(j.right, occ))
        },
        _ => true,
    }
}

proof fn lemma_join_other(
    j: InnerJoin,
    left: Result<Stream, QueryFault>,
    right: Result<Stream, QueryFault>,
    env: Env,
    occ: usize,
)
    requires
        !has_occurrence(j.right, occ),
    ensures
        join_meaning(j, left, right, env, Some(occ)) == join_meaning(j, left, right, env, None),
{
    match j.right {
        RelAlgebra::TempStore(r) => {
            assert(occurrence_rows(r, env, Some(occ)) == occurrence_rows(r, env, None));
        },
        _ => {},
    }
}

/// Selecting an occurrence that a plan does not have changes nothing: every
/// scan reads its total.
pub proof fn law_delta_reads_one_occurrence(plan: RelAlgebra, env: Env, occ: usize)
    requires
        !has_occurrence(plan, occ),
    ensures
        meaning(plan, env, Some(occ)) == meaning(plan, env, None),
    decreases plan,
{
    match plan {
        RelAlgebra::Reorder(r) => law_delta_reads_one_occurrence(*r.relation, env, occ),
        RelAlgebra::Filter(r) => law_delta_reads_one_occurrence(*r.parent, env, occ),
        RelAlgebra::Unification(u) => law_delta_reads_one_occurrence(*u.parent, env, occ),
        RelAlgebra::Search(s) => law_delta_reads_one_occurrence(*s.parent, env, occ),
        RelAlgebra::NegJoin(n) => law_delta_reads_one_occurrence(n.left, env, occ),
        RelAlgebra::Join(j) => {
            law_delta_reads_one_occurrence(j.left, env, occ);
            law_delta_reads_one_occurrence(j.right, env, occ);
            lemma_join_other(
                *j,
                meaning(j.left, env, None),
                meaning(j.right, env, None),
                env,
                occ,
            );
        },
        _ => {},
    }
}

proof fn lemma_answer_other(plan: RelAlgebra, env: Env, occ: usize)
    requires
        !has_occurrence(plan, occ),
    ensures
        answer(plan, env, Some(occ)) == answer(plan, env, None),
    decreases plan,
{
    match plan {
        RelAlgebra::Reorder(r) => lemma_answer_other(*r.relation, env, occ),
        RelAlgebra::Filter(r) => lemma_answer_other(*r.parent, env, occ),
        RelAlgebra::Unification(u) => lemma_answer_other(*u.parent, env, occ),
        RelAlgebra::Search(s) => lemma_answer_other(*s.parent, env, occ),
        RelAlgebra::NegJoin(n) => lemma_answer_other(n.left, env, occ),
        RelAlgebra::Join(j) => {
            lemma_answer_other(j.left, env, occ);
            lemma_answer_other(j.right, env, occ);
        },
        _ => {},
    }
}

proof fn lemma_each_within(a: Set<Row>, b: Set<Row>, f: spec_fn(Row) -> Set<Row>)
    requires
        a.subset_of(b),
    ensures
        each(a, f).subset_of(each(b, f)),
{
    assert forall|x: Row| each(a, f).contains(x) implies each(b, f).contains(x) by {
        let r = choose|r: Row| #[trigger] a.contains(r) && f(r).contains(x);
        assert(b.contains(r));
    }
}

/// What a plan gives from what is new is among what it gives from everything.
pub proof fn law_delta_within_total(plan: RelAlgebra, env: Env, delta: Option<usize>)
    requires
        env.stores.wf(),
    ensures
        answer(plan, env, delta).subset_of(answer(plan, env, None)),
    decreases plan,
{
    match plan {
        RelAlgebra::TempStore(r) => {
            if env.stores@.contains_key(r.storage_key@) {
                let store = env.stores@[r.storage_key@];
                lemma_store_wf(env, r.storage_key@);
                lemma_delta_within(store);
                lemma_store_enumerated(store);
            }
        },
        RelAlgebra::Reorder(r) => {
            law_delta_within_total(*r.relation, env, delta);
            let places = places_of(
                names(r.new_order@),
                r.relation.out_frame(),
                r.new_order@.len() as int,
            );
            lemma_each_within(
                answer(*r.relation, env, delta),
                answer(*r.relation, env, None),
                |row: Row|
                    just(
                        all_placed(names(r.new_order@), r.relation.out_frame()),
                        project(row, places),
                    ),
            );
        },
        RelAlgebra::Filter(r) => {
            law_delta_within_total(*r.parent, env, delta);
            let frame = r.parent.out_frame();
            lemma_each_within(
                answer(*r.parent, env, delta),
                answer(*r.parent, env, None),
                |row: Row|
                    just(
                        holds(r.filters@, frame, row),
                        shed(row, frame, name_set(r.to_eliminate@)),
                    ),
            );
        },
        RelAlgebra::Unification(u) => {
            law_delta_within_total(*u.parent, env, delta);
            let frame = u.parent.out_frame();
            lemma_each_within(
                answer(*u.parent, env, delta),
                answer(*u.parent, env, None),
                |row: Row| unified_set(u, frame, row),
            );
        },
        RelAlgebra::Search(s) => {
            law_delta_within_total(*s.parent, env, delta);
            lemma_each_within(
                answer(*s.parent, env, delta),
                answer(*s.parent, env, None),
                |row: Row| searched_set(*s, env, row),
            );
        },
        RelAlgebra::NegJoin(n) => {
            law_delta_within_total(n.left, env, delta);
            let shape = neg_shape(*n);
            lemma_each_within(
                answer(n.left, env, delta),
                answer(n.left, env, None),
                |l: Row|
                    just(
                        n.joiner.fault(n.left.out_frame(), n.right.frame()) is None && neg_rows(
                            n.right,
                            env,
                        ) is Ok && unmatched(l, neg_rows(n.right, env)->Ok_0, shape),
                        without(l, shape.drop),
                    ),
            );
        },
        RelAlgebra::Join(j) => {
            law_delta_within_total(j.left, env, delta);
            law_delta_within_total(j.right, env, delta);
            let shape = j.shape();
            let la = answer(j.left, env, delta);
            let ra = answer(j.right, env, delta);
            let lb = answer(j.left, env, None);
            let rb = answer(j.right, env, None);
            assert forall|x: Row| answer(plan, env, delta).contains(x) implies answer(
                plan,
                env,
                None,
            ).contains(x) by {
                let l = choose|l: Row| #[trigger]
                    la.contains(l) && joined_set(l, ra, shape).contains(x);
                let r = choose|r: Row| #[trigger]
                    ra.contains(r) && keys_match(l, shape.lp, r, shape.rp) && x == without(
                        l + r,
                        shape.drop,
                    );
                assert(lb.contains(l) && rb.contains(r));
                assert(joined_set(l, rb, shape).contains(x));
            }
        },
        _ => {},
    }
}

/// An environment from before what is new came in: the scanned stores hold at
/// least what they hold now and is not new; everything else is the same.
pub open spec fn before_delta(plan: RelAlgebra, was: Env, env: Env) -> bool
    decreases plan,
{
    match plan {
        RelAlgebra::TempStore(r) => env.stores@.contains_key(r.storage_key@) ==> {
            &&& was.stores@.contains_key(r.storage_key@)
            &&& forall|row: Row|
                env.stores@[r.storage_key@].rows().contains(row)
                    && !env.stores@[r.storage_key@].delta_rows().contains(row)
                    ==> #[trigger] was.stores@[r.storage_key@].rows().contains(row)
        },
        RelAlgebra::Reorder(r) => before_delta(*r.relation, was, env),
        RelAlgebra::Filter(r) => before_delta(*r.parent, was, env),
        RelAlgebra::Unification(u) => before_delta(*u.parent, was, env),
        RelAlgebra::Search(s) => before_delta(*s.parent, was, env),
        RelAlgebra::NegJoin(n) => before_delta(n.left, was, env) && neg_rows(n.right, was)
            == neg_rows(n.right, env),
        RelAlgebra::Join(j) => before_delta(j.left, was, env) && before_delta(j.right, was, env),
        _ => true,
    }
}

/// A row that is there now came from what was there before, or from what is
/// new at one of the occurrences.
pub open spec fn accounted(plan: RelAlgebra, was: Env, env: Env, x: Row) -> bool {
    ||| answer(plan, was, None).contains(x)
    ||| exists|occ: usize| #[trigger]
        has_occurrence(plan, occ) && answer(plan, env, Some(occ)).contains(x)
}

proof fn lemma_each_accounted(
    plan: RelAlgebra,
    parent: RelAlgebra,
    was: Env,
    env: Env,
    f: spec_fn(Row) -> Set<Row>,
    x: Row,
)
    requires
        answer(plan, env, None) == each(answer(parent, env, None), f),
        answer(plan, was, None) == each(answer(parent, was, None), f),
        forall|occ: usize|
            (#[trigger] answer(plan, env, Some(occ))) == each(answer(parent, env, Some(occ)), f),
        forall|occ: usize| #[trigger] has_occurrence(plan, occ) == has_occurrence(parent, occ),
        forall|r: Row| #[trigger]
            answer(parent, env, None).contains(r) ==> accounted(parent, was, env, r),
        answer(plan, env, None).contains(x),
    ensures
        accounted(plan, was, env, x),
{
    let r = choose|r: Row| #[trigger] answer(parent, env, None).contains(r) && f(r).contains(x);
    assert(accounted(parent, was, env, r));
    if answer(parent, was, None).contains(r) {
    } else {
        let occ = choose|occ: usize| #[trigger]
            has_occurrence(parent, occ) && answer(parent, env, Some(occ)).contains(r);
        assert(has_occurrence(plan, occ));
        assert(answer(plan, env, Some(occ)).contains(x));
    }
}

/// Semi-naive evaluation misses nothing: every row a plan gives from
/// everything was given before, or is given when one of its occurrences reads
/// what is new and the others read everything. This holds for a store that
/// occurs several times in the plan as well.
pub proof fn law_semi_naive(plan: RelAlgebra, was: Env, env: Env)
    requires
        env.stores.wf(),
        was.stores.wf(),
        was.tables == env.tables,
        was.indexes == env.indexes,
        before_delta(plan, was, env),
        occurrences_distinct(plan),
    ensures
        forall|x: Row| #[trigger]
            answer(plan, env, None).contains(x) ==> accounted(plan, was, env, x),
    decreases plan,
{
    assert forall|x: Row| #[trigger] answer(plan, env, None).contains(x) implies accounted(
        plan,
        was,
        env,
        x,
    ) by {
        match plan {
            RelAlgebra::TempStore(r) => {
                let store = env.stores@[r.storage_key@];
                let old_store = was.stores@[r.storage_key@];
                lemma_store_wf(env, r.storage_key@);
                lemma_store_wf(was, r.storage_key@);
                lemma_store_enumerated(store);
                lemma_store_enumerated(old_store);
                if store.delta_rows().contains(x) {
                    assert(has_occurrence(plan, r.occurrence));
                    assert(answer(plan, env, Some(r.occurrence)).contains(x));
                } else {
                    assert(store.rows().contains(x));
                    assert(old_store.rows().contains(x));
                }
            },
            RelAlgebra::Reorder(r) => {
                law_semi_naive(*r.relation, was, env);
                let places = places_of(
                    names(r.new_order@),
                    r.relation.out_frame(),
                    r.new_order@.len() as int,
                );
                lemma_each_accounted(
                    plan,
                    *r.relation,
                    was,
                    env,
                    |row: Row|
                        just(
                            all_placed(names(r.new_order@), r.relation.out_frame()),
                            project(row, places),
                        ),
                    x,
                );
            },
            RelAlgebra::Filter(r) => {
                law_semi_naive(*r.parent, was, env);
                let frame = r.parent.out_frame();
                lemma_each_accounted(
                    plan,
                    *r.parent,
                    was,
                    env,
                    |row: Row|
                        just(
                            holds(r.filters@, frame, row),
                            shed(row, frame, name_set(r.to_eliminate@)),
                        ),
                    x,
                );
            },
            RelAlgebra::Unification(u) => {
                law_semi_naive(*u.parent, was, env);
                let frame = u.parent.out_frame();
                lemma_each_accounted(
                    plan,
                    *u.parent,
                    was,
                    env,
                    |row: Row| unified_set(u, frame, row),
                    x,
                );
            },
            RelAlgebra::Search(s) => {
                law_semi_naive(*s.parent, was, env);
                let f = |row: Row| searched_set(*s, env, row);
                let g = |row: Row| searched_set(*s, was, row);
                assert forall|row: Row| #[trigger] f(row) == g(row) by {
                    assert(searched_set(*s, env, row) =~= searched_set(*s, was, row));
                }
                assert(f =~= g);
                lemma_each_accounted(plan, *s.parent, was, env, f, x);
            },
            RelAlgebra::NegJoin(n) => {
                law_semi_naive(n.left, was, env);
                let shape = neg_shape(*n);
                lemma_each_accounted(
                    plan,
                    n.left,
                    was,
                    env,
                    |l: Row|
                        just(
                            n.joiner.fault(n.left.out_frame(), n.right.frame()) is None
                                && neg_rows(n.right, env) is Ok && unmatched(
                                l,
                                neg_rows(n.right, env)->Ok_0,
                                shape,
                            ),
                            without(l, shape.drop),
                        ),
                    x,
                );
            },
            RelAlgebra::Join(j) => {
                law_semi_naive(j.left, was, env);
                law_semi_naive(j.right, was, env);
                lemma_join_accounted(plan, was, env, x);
            },
            _ => {
                assert(answer(plan, was, None).contains(x));
            },
        }
    }
}

proof fn lemma_join_accounted(plan: RelAlgebra, was: Env, env: Env, x: Row)
    requires
        plan is Join,
        occurrences_distinct(plan),
        answer(plan, env, None).contains(x),
        forall|r: Row| #[trigger]
            answer(plan->Join_0.left, env, None).contains(r) ==> accounted(
                plan->Join_0.left,
                was,
                env,
                r,
            ),
        forall|r: Row| #[trigger]
            answer(plan->Join_0.right, env, None).contains(r) ==> accounted(
                plan->Join_0.right,
                was,
                env,
                r,
            ),
    ensures
        accounted(plan, was, env, x),
{
    let j = plan->Join_0;
    let shape = j.shape();
    let la = answer(j.left, env, None);
    let ra = answer(j.right, env, None);
    let l = choose|l: Row| #[trigger] la.contains(l) && joined_set(l, ra, shape).contains(x);
    let r = choose|r: Row| #[trigger]
        ra.contains(r) && keys_match(l, shape.lp, r, shape.rp) && x == without(l + r, shape.drop);
    if !answer(j.left, was, None).contains(l) {
        let occ = choose|occ: usize| #[trigger]
            has_occurrence(j.left, occ) && answer(j.left, env, Some(occ)).contains(l);
        lemma_answer_other(j.right, env, occ);
        assert(has_occurrence(plan, occ));
        assert(answer(j.right, env, Some(occ)).contains(r));
        assert(joined_set(l, answer(j.right, env, Some(occ)), shape).contains(x));
        assert(answer(plan, env, Some(occ)).contains(x));
    } else if !answer(j.right, was, None).contains(r) {
        let occ = choose|occ: usize| #[trigger]
            has_occurrence(j.right, occ) && answer(j.right, env, Some(occ)).contains(r);
        if has_occurrence(j.left, occ) {
            assert(!(has_occurrence(j.left, occ) && has_occurrence(j.right, occ)));
        }
        lemma_answer_other(j.left, env, occ);
        assert(has_occurrence(plan, occ));
        assert(answer(j.left, env, Some(occ)).contains(l));
        assert(joined_set(l, answer(j.right, env, Some(occ)), shape).contains(x));
        assert(answer(plan, env, Some(occ)).contains(x));
    } else {
        assert(joined_set(l, answer(j.right, was, None), shape).contains(x));
        assert(answer(plan, was, None).contains(x));
    }
}

} // verus!
