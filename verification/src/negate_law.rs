//! Negation keeps the rows that a join would not.

use vstd::prelude::*;
use crate::answer::{answer, joined_set, just, lemma_answer_width, neg_shape};
use crate::meaning::{keys_match, neg_rows, spans_stream, unmatched, Env};
use crate::names::{lemma_without_nothing, name_set, names, without, Name};
use crate::plan::{InnerJoin, NegJoin, NegRight, RelAlgebra};
use crate::probe::lemma_store_enumerated;
use crate::run::{lemma_delta_enumerable, lemma_sheds_nothing, neg_fits};
use crate::stream::{lemma_failure, lemma_row_set};
use crate::value::Row;

verus! {

/// The scan that a negation asks about, without filters.
pub open spec fn scans_alike(neg: NegRight, right: RelAlgebra) -> bool {
    match neg {
        NegRight::TempStore(r) => right == RelAlgebra::TempStore(r) && r.filters@.len() == 0,
        NegRight::Stored(r) => right == RelAlgebra::Stored(r) && r.filters@.len() == 0,
        NegRight::StoredWithValidity(r) => right == RelAlgebra::StoredWithValidity(r)
            && r.filters@.len() == 0,
        NegRight::Spans(r) => right == RelAlgebra::Spans(r),
        NegRight::Delta(r) => right == RelAlgebra::Delta(r),
    }
}

/// The selected occurrence of a rule is not the negated one.
pub open spec fn reads_total(neg: NegRight, delta: Option<usize>) -> bool {
    match neg {
        NegRight::TempStore(r) => delta != Some(r.occurrence),
        _ => true,
    }
}

/// A negation asks about the rows that a scan of the same relation gives.
proof fn lemma_same_rows(neg: NegRight, right: RelAlgebra, env: Env, delta: Option<usize>)
    requires
        env.stores.wf(),
        neg_fits(neg, env),
        scans_alike(neg, right),
        reads_total(neg, delta),
        neg_rows(neg, env) is Ok,
    ensures
        neg_rows(neg, env)->Ok_0.to_set() == answer(right, env, delta),
        right.out_frame() == neg.frame(),
        right.fits(env),
{
    lemma_sheds_nothing(neg.frame());
    let rows = neg_rows(neg, env)->Ok_0.to_set();
    match neg {
        NegRight::TempStore(r) => {
            lemma_store_enumerated(env.stores@[r.storage_key@]);
        },
        NegRight::Delta(r) => {
            lemma_delta_enumerable(env.tables@[r.storage.id as int], r.from, r.to);
        },
        NegRight::Spans(r) => {
            let s = spans_stream(env.tables@[r.storage.id as int].model(), r.sys as int);
            lemma_failure(s);
            lemma_row_set(s);
        },
        _ => {},
    }
    assert(rows =~= answer(right, env, delta));
}

/// A negation keeps exactly the rows of its left side that the join with the
/// same relation on the same columns does not extend.
pub proof fn law_negation_is_the_complement(
    n: NegJoin,
    j: InnerJoin,
    env: Env,
    delta: Option<usize>,
)
    requires
        env.stores.wf(),
        n.left.fits(env),
        neg_fits(n.right, env),
        j.left == n.left,
        j.joiner == n.joiner,
        scans_alike(n.right, j.right),
        reads_total(n.right, delta),
        neg_rows(n.right, env) is Ok,
        n.joiner.fault(n.left.out_frame(), n.right.frame()) is None,
        n.to_eliminate@.len() == 0,
        j.to_eliminate@.len() == 0,
    ensures
        answer(RelAlgebra::NegJoin(Box::new(n)), env, delta) == answer(
            n.left,
            env,
            delta,
        ).filter(
            |l: Row|
                forall|x: Row| #[trigger]
                    answer(RelAlgebra::Join(Box::new(j)), env, delta).contains(x) ==> x.take(
                        n.left.out_frame().len() as int,
                    ) != l,
        ),
{
    let w = n.left.out_frame().len() as int;
    let la = answer(n.left, env, delta);
    let ra = answer(j.right, env, delta);
    let rows = neg_rows(n.right, env)->Ok_0;
    let joined = answer(RelAlgebra::Join(Box::new(j)), env, delta);
    let got = answer(RelAlgebra::NegJoin(Box::new(n)), env, delta);
    let lone = |l: Row| forall|x: Row| #[trigger] joined.contains(x) ==> x.take(w) != l;
    let want = la.filter(lone);
    lemma_same_rows(n.right, j.right, env, delta);
    lemma_answer_width(n.left, env, delta);
    let shape = neg_shape(n);
    assert(names(n.to_eliminate@).len() == 0);
    assert(names(j.to_eliminate@).len() == 0);
    assert forall|m: Name| !(#[trigger] name_set(n.to_eliminate@).contains(m)) by {}
    assert forall|m: Name| !(#[trigger] name_set(j.to_eliminate@).contains(m)) by {}
    assert(shape.lp == j.shape().lp);
    assert(shape.rp == j.shape().rp);
    assert(j.fault() is None);
    assert forall|l: Row| la.contains(l) implies #[trigger] unmatched(l, rows, shape) == lone(
        l,
    ) by {
        if !unmatched(l, rows, shape) {
            let i = choose|i: int|
                0 <= i < rows.len() && keys_match(l, shape.lp, #[trigger] rows[i], shape.rp);
            let r = rows[i];
            assert(rows.to_set().contains(r));
            let x = l + r;
            lemma_without_nothing(x, j.shape().drop);
            assert(joined_set(l, ra, j.shape()).contains(x));
            assert(joined.contains(x));
            assert(x.take(w) =~= l);
        }
        if !lone(l) {
            let x = choose|x: Row| #[trigger] joined.contains(x) && x.take(w) == l;
            let k = choose|k: Row| #[trigger]
                la.contains(k) && joined_set(k, ra, j.shape()).contains(x);
            let r = choose|r: Row| #[trigger]
                ra.contains(r) && keys_match(k, j.shape().lp, r, j.shape().rp) && x == without(
                    k + r,
                    j.shape().drop,
                );
            lemma_without_nothing(k + r, j.shape().drop);
            assert((k + r).take(w) =~= k);
            assert(rows.to_set().contains(r));
            let i = rows.index_of(r);
            assert(keys_match(l, shape.lp, rows[i], shape.rp));
        }
    }
    assert forall|x: Row| got.contains(x) == want.contains(x) by {
        if got.contains(x) {
            let l = choose|l: Row| #[trigger]
                la.contains(l) && just(
                    n.joiner.fault(n.left.out_frame(), n.right.frame()) is None && neg_rows(
                        n.right,
                        env,
                    ) is Ok && unmatched(l, rows, shape),
                    without(l, shape.drop),
                ).contains(x);
            lemma_without_nothing(l, shape.drop);
            assert(unmatched(l, rows, shape) == lone(l));
        }
        if want.contains(x) {
            lemma_without_nothing(x, shape.drop);
            assert(unmatched(x, rows, shape) == lone(x));
            assert(just(
                n.joiner.fault(n.left.out_frame(), n.right.frame()) is None && neg_rows(
                    n.right,
                    env,
                ) is Ok && unmatched(x, rows, shape),
                without(x, shape.drop),
            ).contains(x));
        }
    }
    assert(got =~= want);
}

} // verus!
