//! What the answers of filters, unifications, joins and negations are, in
//! terms of the answers of the plans they stand on.

use vstd::prelude::*;
use crate::answer::{answer, holds, joined_set, just, true_on, unified_set};
use crate::expr::EvalFault;
use crate::meaning::{keys_match, neg_rows, Env};
use crate::names::{gone_at, kept, lemma_without_nothing, name_set, names, Name};
use crate::plan::{
    FilteredRA, InnerJoin, Joiner, NegJoin, RelAlgebra, ReorderRA, SearchRA, UnificationRA,
};
use crate::plan_law::{is_column, law_join_is_by_name};
use crate::resolve::eval_named;
use crate::value::{Row, Val};

verus! {

proof fn lemma_nothing_gone(frame: Seq<Name>, v: Seq<String>)
    ensures
        v.len() == 0 ==> gone_at(frame, name_set(v)) == Set::<int>::empty(),
        v.len() == 0 ==> kept(frame, name_set(v)) == frame,
{
    if v.len() == 0 {
        assert forall|n: Name| !(#[trigger] name_set(v).contains(n)) by {
            if names(v).contains(n) {
                let i = choose|i: int| 0 <= i < names(v).len() && names(v)[i] == n;
            }
        }
        assert(gone_at(frame, name_set(v)) =~= Set::<int>::empty());
        lemma_without_nothing(frame, Set::empty());
    }
}

/// A row is an answer of a filter that sheds nothing exactly where it is one
/// of the filter's parent and every condition is true on it.
pub proof fn law_filter_keeps_true_rows(r: FilteredRA, env: Env, delta: Option<usize>, x: Row)
    requires
        r.to_eliminate@.len() == 0,
    ensures
        answer(RelAlgebra::Filter(r), env, delta).contains(x) <==> answer(
            *r.parent,
            env,
            delta,
        ).contains(x) && forall|i: int|
            0 <= i < r.filters@.len() ==> #[trigger] eval_named(
                r.filters@[i],
                r.parent.out_frame(),
                x,
            ) == Ok::<Val, EvalFault>(Val::Bool(true)),
{
    let frame = r.parent.out_frame();
    lemma_nothing_gone(frame, r.to_eliminate@);
    assert forall|row: Row| #[trigger] crate::names::shed(
        row,
        frame,
        name_set(r.to_eliminate@),
    ) == row by {
        lemma_without_nothing(row, Set::empty());
    }
    if forall|i: int|
        0 <= i < r.filters@.len() ==> #[trigger] eval_named(r.filters@[i], frame, x) == Ok::<
            Val,
            EvalFault,
        >(Val::Bool(true)) {
        assert(holds(r.filters@, frame, x));
    }
    if holds(r.filters@, frame, x) {
        assert forall|i: int| 0 <= i < r.filters@.len() implies #[trigger] eval_named(
            r.filters@[i],
            frame,
            x,
        ) == Ok::<Val, EvalFault>(Val::Bool(true)) by {
            assert(true_on(r.filters@[i], frame, x));
        }
    }
    let f = |row: Row|
        just(
            holds(r.filters@, frame, row),
            crate::names::shed(row, frame, name_set(r.to_eliminate@)),
        );
    if answer(RelAlgebra::Filter(r), env, delta).contains(x) {
        let row = choose|row: Row| #[trigger]
            answer(*r.parent, env, delta).contains(row) && f(row).contains(x);
        assert(x == row);
    }
    if answer(*r.parent, env, delta).contains(x) && holds(r.filters@, frame, x) {
        assert(f(x).contains(x));
    }
}

/// A row is an answer of a unification that sheds nothing and spreads nothing
/// exactly where it is one of the unification's parent with the value of the
/// expression behind it; of one that spreads, where it has one of the values
/// of a list behind it.
pub proof fn law_unification_extends_rows(u: UnificationRA, env: Env, delta: Option<usize>, x: Row)
    requires
        u.to_eliminate@.len() == 0,
    ensures
        !u.is_multi ==> (answer(RelAlgebra::Unification(u), env, delta).contains(x) <==> x.len()
            > 0 && answer(*u.parent, env, delta).contains(x.drop_last()) && eval_named(
            u.expr,
            u.parent.out_frame(),
            x.drop_last(),
        ) == Ok::<Val, EvalFault>(x.last())),
        u.is_multi ==> (answer(RelAlgebra::Unification(u), env, delta).contains(x) <==> x.len() > 0
            && answer(*u.parent, env, delta).contains(x.drop_last()) && (eval_named(
            u.expr,
            u.parent.out_frame(),
            x.drop_last(),
        ) matches Ok(Val::List(items)) && items.contains(x.last()))),
{
    let frame = u.parent.out_frame();
    lemma_nothing_gone(frame.push(u.binding@), u.to_eliminate@);
    let drop = gone_at(frame.push(u.binding@), name_set(u.to_eliminate@));
    assert forall|row: Row, v: Val| #[trigger] crate::names::without(row.push(v), drop) == row.push(
        v,
    ) by {
        lemma_without_nothing(row.push(v), drop);
    }
    let f = |row: Row| unified_set(u, frame, row);
    if answer(RelAlgebra::Unification(u), env, delta).contains(x) {
        let row = choose|row: Row| #[trigger]
            answer(*u.parent, env, delta).contains(row) && f(row).contains(x);
        assert(unified_set(u, frame, row).contains(x));
        let v = eval_named(u.expr, frame, row)->Ok_0;
        if u.is_multi {
            let items = v->List_0;
            let i = choose|i: int|
                0 <= i < (eval_named(u.expr, frame, row)->Ok_0->List_0).len() && x
                    == crate::names::without(
                    row.push(#[trigger] (eval_named(u.expr, frame, row)->Ok_0->List_0)[i]),
                    drop,
                );
            assert(x == row.push(items[i]));
            assert(x.drop_last() =~= row);
        } else {
            assert(x == row.push(v));
            assert(x.drop_last() =~= row);
        }
    }
    if x.len() > 0 && answer(*u.parent, env, delta).contains(x.drop_last()) {
        let row = x.drop_last();
        assert(row.push(x.last()) =~= x);
        assert(crate::names::without(row.push(x.last()), drop) == x);
        if !u.is_multi && eval_named(u.expr, frame, row) == Ok::<Val, EvalFault>(x.last()) {
            assert(f(row).contains(x));
        }
        if u.is_multi && (eval_named(u.expr, frame, row) matches Ok(Val::List(items))
            && items.contains(x.last())) {
            let items = eval_named(u.expr, frame, row)->Ok_0->List_0;
            let i = choose|i: int| 0 <= i < items.len() && items[i] == x.last();
            assert(x == crate::names::without(row.push(items[i]), drop));
            assert(unified_set(u, frame, row).contains(x));
            assert(f(row).contains(x));
        }
    }
}

/// Whether two rows agree on the join names: the columns that each pair of
/// names stands for are equal.
pub open spec fn agree_by_name(j: Joiner, lf: Seq<Name>, rf: Seq<Name>, l: Row, r: Row) -> bool {
    forall|k: int, a: int, b: int|
        0 <= k < j.left_keys@.len() && k < j.right_keys@.len() && #[trigger] is_column(
            lf,
            j.left_keys@[k]@,
            a,
        ) && #[trigger] is_column(rf, j.right_keys@[k]@, b) ==> l[a] == r[b]
}

/// A row is an answer of a join that sheds nothing exactly where it is a row
/// of the left and behind it one of the right that agree on the join names.
pub proof fn law_join_pairs_by_name(j: InnerJoin, env: Env, delta: Option<usize>, x: Row)
    requires
        j.to_eliminate@.len() == 0,
        j.fault() is None,
        !(j.right is Reorder),
        !(j.right is NegJoin),
        j.left.out_frame().len() <= usize::MAX,
        j.right.out_frame().len() <= usize::MAX,
        forall|l: Row| #[trigger]
            answer(j.left, env, delta).contains(l) ==> l.len() == j.left.out_frame().len(),
        forall|r: Row| #[trigger]
            answer(j.right, env, delta).contains(r) ==> r.len() == j.right.out_frame().len(),
    ensures
        answer(RelAlgebra::Join(Box::new(j)), env, delta).contains(x) <==> exists|l: Row, r: Row|
            #[trigger] answer(j.left, env, delta).contains(l) && #[trigger] answer(
                j.right,
                env,
                delta,
            ).contains(r) && agree_by_name(
                j.joiner,
                j.left.out_frame(),
                j.right.out_frame(),
                l,
                r,
            ) && x == l + r,
{
    let lf = j.left.out_frame();
    let rf = j.right.out_frame();
    let left = answer(j.left, env, delta);
    let right = answer(j.right, env, delta);
    let shape = j.shape();
    lemma_nothing_gone(j.columns(), j.to_eliminate@);
    let f = |l: Row| joined_set(l, right, shape);
    if answer(RelAlgebra::Join(Box::new(j)), env, delta).contains(x) {
        let l = choose|l: Row| #[trigger] left.contains(l) && f(l).contains(x);
        assert(joined_set(l, right, shape).contains(x));
        let r = choose|r: Row| #[trigger]
            right.contains(r) && keys_match(l, shape.lp, r, shape.rp) && x == crate::names::without(
                l + r,
                shape.drop,
            );
        lemma_without_nothing(l + r, shape.drop);
        law_join_is_by_name(j.joiner, lf, rf, l, r);
        assert(left.contains(l) && right.contains(r));
    }
    if exists|l: Row, r: Row| #[trigger]
        left.contains(l) && #[trigger] right.contains(r) && agree_by_name(j.joiner, lf, rf, l, r)
            && x == l + r {
        let (l, r) = choose|l: Row, r: Row| #[trigger]
            left.contains(l) && #[trigger] right.contains(r) && agree_by_name(
                j.joiner,
                lf,
                rf,
                l,
                r,
            ) && x == l + r;
        law_join_is_by_name(j.joiner, lf, rf, l, r);
        lemma_without_nothing(l + r, shape.drop);
        assert(joined_set(l, right, shape).contains(x));
        assert(f(l).contains(x));
    }
}

/// A row is an answer of a negation that sheds nothing exactly where it is one
/// of its left and agrees with no row of its right on the join names.
pub proof fn law_negation_spares_by_name(n: NegJoin, env: Env, delta: Option<usize>, x: Row)
    requires
        n.to_eliminate@.len() == 0,
        n.joiner.fault(n.left.out_frame(), n.right.frame()) is None,
        neg_rows(n.right, env) is Ok,
        n.left.out_frame().len() <= usize::MAX,
        n.right.frame().len() <= usize::MAX,
        forall|l: Row| #[trigger]
            answer(n.left, env, delta).contains(l) ==> l.len() == n.left.out_frame().len(),
        forall|i: int|
            0 <= i < neg_rows(n.right, env)->Ok_0.len() ==> (#[trigger] neg_rows(
                n.right,
                env,
            )->Ok_0[i]).len() == n.right.frame().len(),
    ensures
        answer(RelAlgebra::NegJoin(Box::new(n)), env, delta).contains(x) <==> answer(
            n.left,
            env,
            delta,
        ).contains(x) && forall|i: int|
            0 <= i < neg_rows(n.right, env)->Ok_0.len() ==> !agree_by_name(
                n.joiner,
                n.left.out_frame(),
                n.right.frame(),
                x,
                #[trigger] neg_rows(n.right, env)->Ok_0[i],
            ),
{
    let lf = n.left.out_frame();
    let rf = n.right.frame();
    let left = answer(n.left, env, delta);
    let rows = neg_rows(n.right, env)->Ok_0;
    let shape = crate::answer::neg_shape(n);
    lemma_nothing_gone(lf, n.to_eliminate@);
    assert forall|l: Row| #[trigger] crate::names::without(l, shape.drop) == l by {
        lemma_without_nothing(l, shape.drop);
    }
    if left.contains(x) {
        assert forall|i: int| 0 <= i < rows.len() implies keys_match(
            x,
            shape.lp,
            #[trigger] rows[i],
            shape.rp,
        ) == agree_by_name(n.joiner, lf, rf, x, rows[i]) by {
            law_join_is_by_name(n.joiner, lf, rf, x, rows[i]);
        }
    }
    let f = |l: Row|
        just(
            n.joiner.fault(lf, rf) is None && neg_rows(n.right, env) is Ok
                && crate::meaning::unmatched(l, neg_rows(n.right, env)->Ok_0, shape),
            crate::names::without(l, shape.drop),
        );
    if answer(RelAlgebra::NegJoin(Box::new(n)), env, delta).contains(x) {
        let l = choose|l: Row| #[trigger] left.contains(l) && f(l).contains(x);
        assert(x == l);
    }
    if left.contains(x) && crate::meaning::unmatched(x, rows, shape) {
        assert(f(x).contains(x));
    }
}

/// The columns of an operator that sheds nothing: those of its parent, and
/// behind them those that it adds; those of the left and behind them those of
/// the right; or the new order.
pub proof fn law_columns_follow(
    f: FilteredRA,
    u: UnificationRA,
    s: SearchRA,
    j: InnerJoin,
    n: NegJoin,
    r: ReorderRA,
)
    ensures
        f.to_eliminate@.len() == 0 ==> RelAlgebra::Filter(f).out_frame() == f.parent.out_frame(),
        u.to_eliminate@.len() == 0 ==> RelAlgebra::Unification(u).out_frame()
            == u.parent.out_frame() + seq![u.binding@],
        RelAlgebra::Search(Box::new(s)).out_frame() == s.parent.out_frame() + names(
            s.own_bindings@,
        ),
        j.to_eliminate@.len() == 0 ==> RelAlgebra::Join(Box::new(j)).out_frame()
            == j.left.out_frame() + j.right.out_frame(),
        n.to_eliminate@.len() == 0 ==> RelAlgebra::NegJoin(Box::new(n)).out_frame()
            == n.left.out_frame(),
        RelAlgebra::Reorder(r).out_frame() == names(r.new_order@),
{
    lemma_nothing_gone(f.parent.out_frame(), f.to_eliminate@);
    lemma_nothing_gone(u.parent.out_frame().push(u.binding@), u.to_eliminate@);
    lemma_nothing_gone(j.columns(), j.to_eliminate@);
    lemma_nothing_gone(n.left.out_frame(), n.to_eliminate@);
    let sf = RelAlgebra::Search(Box::new(s));
    let rf = RelAlgebra::Reorder(r);
    lemma_without_nothing(sf.frame(), gone_at(sf.frame(), sf.gone()));
    lemma_without_nothing(rf.frame(), gone_at(rf.frame(), rf.gone()));
    assert(u.parent.out_frame().push(u.binding@) =~= u.parent.out_frame() + seq![u.binding@]);
}

} // verus!
