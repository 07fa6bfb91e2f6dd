//! What the operators of a plan do, column by column and by name.

use vstd::prelude::*;
use crate::delta::{diff, signed_row, Signed};
use crate::expr::{EvalFault, Expr, LazyOp, Progress, SourceSpan};
use crate::history::{snapshot, AsOf, FactModel};
use crate::meaning::{all_placed, delta_set, keys_match, meaning, unified, Env};
use crate::names::{gone_at, kept, last_place, lemma_last_place, names, shed, without, Name};
use crate::plan::{
    delta_ends, is_prefix, key_fault, last_pairs, occurs_later, places_of, DeltaAxis, Joiner,
    RelAlgebra, ReorderRA,
};
use crate::probe::lemma_prefix_covers;
use crate::resolve::{by_name, conjuncts, eval_by, eval_named, lazy_by, Look};
use crate::stream::{flow, lemma_flow_ext, lemma_through_of, QueryFault, Stream};
use crate::temp_store::project;
use crate::value::{Row, Val};

verus! {

/// Whether a name stands for a column: of two columns with its name the later
/// one.
pub open spec fn is_column(frame: Seq<Name>, n: Name, i: int) -> bool {
    &&& 0 <= i < frame.len()
    &&& frame[i] == n
    &&& forall|j: int| i < j < frame.len() ==> #[trigger] frame[j] != n
}

proof fn lemma_column(frame: Seq<Name>, n: Name, i: int)
    requires
        is_column(frame, n, i),
    ensures
        last_place(frame, n) == Some(i),
{
    lemma_last_place(frame, n);
    match last_place(frame, n) {
        None => {
            assert(frame.contains(frame[i]));
        },
        Some(p) => {
            if p < i {
                assert(frame[i] != n);
            }
            if p > i {
                assert(frame[p] != n);
            }
        },
    }
}

/// A name has the value of its column; one that names no column is unbound.
pub proof fn law_names_have_their_columns(
    var: String,
    span: SourceSpan,
    tuple_pos: Option<usize>,
    frame: Seq<Name>,
    row: Row,
    i: int,
)
    requires
        row.len() == frame.len(),
    ensures
        is_column(frame, var@, i) ==> eval_named(
            Expr::Binding { var, span, tuple_pos },
            frame,
            row,
        ) == Ok::<Val, EvalFault>(row[i]),
        !frame.contains(var@) ==> eval_named(Expr::Binding { var, span, tuple_pos }, frame, row)
            == Err::<Val, EvalFault>(EvalFault::Unbound { var: var@, span }),
{
    lemma_last_place(frame, var@);
    if is_column(frame, var@, i) {
        lemma_column(frame, var@, i);
    }
    if last_place(frame, var@) is Some {
        assert(frame.contains(frame[last_place(frame, var@)->Some_0]));
    }
}

proof fn lemma_each_one(rows: Seq<Row>, g: spec_fn(Row) -> Row)
    ensures
        flow(rows, |r: Row| Stream::one(g(r))) == Stream::of(
            Seq::new(rows.len(), |i: int| g(rows[i])),
        ),
    decreases rows.len(),
{
    let f = |r: Row| Stream::one(g(r));
    let out = Stream::of(Seq::new(rows.len(), |i: int| g(rows[i])));
    if rows.len() > 0 {
        lemma_each_one(rows.drop_last(), g);
        assert(flow(rows, f).items =~= out.items);
    } else {
        assert(flow(rows, f).items =~= out.items);
    }
}

/// A reordering of rows gives as many rows, each with the columns of the new
/// order by name.
pub proof fn law_reordering_is_by_name(
    r: ReorderRA,
    env: Env,
    delta: Option<usize>,
    rows: Seq<Row>,
    k: int,
    c: int,
    i: int,
)
    requires
        meaning(*r.relation, env, delta) == Ok::<Stream, QueryFault>(Stream::of(rows)),
        r.relation.out_frame().len() <= usize::MAX,
        all_placed(names(r.new_order@), r.relation.out_frame()),
        0 <= k < rows.len(),
        0 <= c < r.new_order@.len(),
        is_column(r.relation.out_frame(), r.new_order@[c]@, i),
    ensures
        meaning(RelAlgebra::Reorder(r), env, delta) is Ok,
        meaning(RelAlgebra::Reorder(r), env, delta)->Ok_0.sound(),
        meaning(RelAlgebra::Reorder(r), env, delta)->Ok_0.rows().len() == rows.len(),
        meaning(RelAlgebra::Reorder(r), env, delta)->Ok_0.rows()[k].len() == r.new_order@.len(),
        meaning(RelAlgebra::Reorder(r), env, delta)->Ok_0.rows()[k][c] == rows[k][i],
{
    let frame = r.relation.out_frame();
    let order = names(r.new_order@);
    let places = places_of(order, frame, r.new_order@.len() as int);
    let g = |row: Row| project(row, places);
    let f = |row: Row| Stream::one(project(row, places));
    lemma_through_of(rows, f);
    lemma_each_one(rows, g);
    lemma_flow_ext(rows, f, |row: Row| Stream::one(g(row)));
    let out = Seq::new(rows.len(), |j: int| g(rows[j]));
    assert(meaning(RelAlgebra::Reorder(r), env, delta) == Ok::<Stream, QueryFault>(
        Stream::of(out),
    ));
    crate::stream::lemma_of_rows(out);
    lemma_column(frame, order[c], i);
    assert(places[c] == i);
    assert(out[k] == project(rows[k], places));
}

proof fn lemma_no_key_fault(
    lk: Seq<Name>,
    rk: Seq<Name>,
    lf: Seq<Name>,
    rf: Seq<Name>,
    n: int,
    k: int,
)
    requires
        0 <= k < n,
        key_fault(lk, rk, lf, rf, n) is None,
    ensures
        last_place(lf, lk[k]) is Some,
        last_place(rf, rk[k]) is Some,
    decreases n,
{
    if k < n - 1 {
        lemma_no_key_fault(lk, rk, lf, rf, n - 1, k);
    }
}

/// Two rows are joined exactly where the columns that each pair of join names
/// stands for, the one on the left and the other on the right, are equal.
pub proof fn law_join_is_by_name(j: Joiner, lf: Seq<Name>, rf: Seq<Name>, l: Row, r: Row)
    requires
        j.fault(lf, rf) is None,
        lf.len() <= usize::MAX,
        rf.len() <= usize::MAX,
        l.len() == lf.len(),
        r.len() == rf.len(),
    ensures
        keys_match(l, j.left_places(lf), r, j.right_places(rf)) <==> forall|k: int, a: int, b: int|
            0 <= k < j.left_keys@.len() && k < j.right_keys@.len() && #[trigger] is_column(
                lf,
                j.left_keys@[k]@,
                a,
            ) && #[trigger] is_column(rf, j.right_keys@[k]@, b) ==> l[a] == r[b],
{
    let lk = names(j.left_keys@);
    let rk = names(j.right_keys@);
    let n = j.arity();
    let lp = j.left_places(lf);
    let rp = j.right_places(rf);
    let x = project(l, lp);
    let y = project(r, rp);
    assert forall|k: int| 0 <= k < n implies is_column(lf, #[trigger] lk[k], lp[k] as int)
        && is_column(rf, rk[k], rp[k] as int) && x[k] == l[lp[k] as int] && y[k]
        == r[rp[k] as int] by {
        lemma_no_key_fault(lk, rk, lf, rf, n, k);
        lemma_last_place(lf, lk[k]);
        lemma_last_place(rf, rk[k]);
    }
    if x == y {
        assert forall|k: int, a: int, b: int|
            0 <= k < j.left_keys@.len() && k < j.right_keys@.len() && #[trigger] is_column(
                lf,
                j.left_keys@[k]@,
                a,
            ) && #[trigger] is_column(rf, j.right_keys@[k]@, b) implies l[a] == r[b] by {
            assert(lk[k] == j.left_keys@[k]@ && rk[k] == j.right_keys@[k]@);
            lemma_column(lf, lk[k], a);
            lemma_column(rf, rk[k], b);
            lemma_column(lf, lk[k], lp[k] as int);
            lemma_column(rf, rk[k], rp[k] as int);
            assert(x[k] == y[k]);
        }
    } else {
        assert(x.len() == y.len());
        let k = choose|k: int| 0 <= k < x.len() && x[k] != y[k];
        assert(exists|k: int| 0 <= k < x.len() && x[k] != y[k]) by {
            if forall|k: int| 0 <= k < x.len() ==> x[k] == y[k] {
                assert(x =~= y);
            }
        }
        assert(lk[k] == j.left_keys@[k]@ && rk[k] == j.right_keys@[k]@);
        assert(is_column(lf, j.left_keys@[k]@, lp[k] as int));
        assert(is_column(rf, j.right_keys@[k]@, rp[k] as int));
    }
}

/// A unification that spreads nothing gives its row with the value behind it;
/// one that spreads a list gives its row once for each of the list's values,
/// in their order, with that value behind it, and fails for any other value.
/// Where the value fails, so does the unification.
pub proof fn law_unification_binds(row: Row, v: Val, e: EvalFault, span: SourceSpan, i: int)
    ensures
        unified(row, Ok(v), false, span, Set::empty()).items == seq![
            Ok::<Row, QueryFault>(row.push(v)),
        ],
        v is List ==> unified(row, Ok(v), true, span, Set::empty()).items.len() == (
        v->List_0).len(),
        v is List && 0 <= i < (v->List_0).len() ==> unified(
            row,
            Ok(v),
            true,
            span,
            Set::empty(),
        ).items[i] == Ok::<Row, QueryFault>(row.push((v->List_0)[i])),
        !(v is List) ==> unified(row, Ok(v), true, span, Set::empty()) == Stream::failed(
            QueryFault::BadSpread(span),
        ),
        unified(row, Err(e), true, span, Set::empty()) == Stream::failed(QueryFault::Eval(e)),
        unified(row, Err(e), false, span, Set::empty()) == Stream::failed(QueryFault::Eval(e)),
{
    crate::names::lemma_without_nothing(row.push(v), Set::empty());
    if v is List && 0 <= i < (v->List_0).len() {
        crate::names::lemma_without_nothing(row.push((v->List_0)[i]), Set::empty());
    }
}

/// A change holds a row and a plus one exactly where the row holds at the
/// later time alone, and a row and a minus one exactly where it holds at the
/// earlier time alone; and nothing else.
pub proof fn law_changes_are_signed(facts: Seq<FactModel>, from: AsOf, to: AsOf, x: Row)
    ensures
        delta_set(facts, from, to).contains(x) <==> x.len() > 0 && {
            ||| x.last() == Val::Num(1) && snapshot(facts, to).contains(x.drop_last())
                && !snapshot(facts, from).contains(x.drop_last())
            ||| x.last() == Val::Num((-1) as i64) && snapshot(facts, from).contains(x.drop_last())
                && !snapshot(facts, to).contains(x.drop_last())
        },
{
    let a = snapshot(facts, from);
    let b = snapshot(facts, to);
    let d = diff(a.to_set(), b.to_set());
    if delta_set(facts, from, to).contains(x) {
        let s = choose|s: Signed| #[trigger] d.contains(s) && x == signed_row(s);
        match s {
            Signed::Plus(t) => {
                assert(x.drop_last() =~= t);
                assert(b.to_set().contains(t) && !a.to_set().contains(t));
            },
            Signed::Minus(t) => {
                assert(x.drop_last() =~= t);
                assert(a.to_set().contains(t) && !b.to_set().contains(t));
            },
        }
    }
    if x.len() > 0 {
        let t = x.drop_last();
        assert(t.push(x.last()) =~= x);
        if x.last() == Val::Num(1) && b.contains(t) && !a.contains(t) {
            assert(d.contains(Signed::Plus(t)));
        }
        if x.last() == Val::Num((-1) as i64) && a.contains(t) && !b.contains(t) {
            assert(d.contains(Signed::Minus(t)));
        }
    }
}

/// The places below a number that are not among some, in order.
pub open spec fn other_places(n: nat, at: Set<int>) -> Seq<int>
    decreases n,
{
    if n == 0 {
        Seq::empty()
    } else if at.contains(n - 1) {
        other_places((n - 1) as nat, at)
    } else {
        other_places((n - 1) as nat, at).push(n - 1)
    }
}

proof fn lemma_other_places(n: nat, at: Set<int>)
    ensures
        forall|i: int| #[trigger]
            other_places(n, at).contains(i) <==> 0 <= i < n && !at.contains(i),
        forall|j: int, k: int|
            0 <= j < k < other_places(n, at).len() ==> #[trigger] other_places(n, at)[j]
                < #[trigger] other_places(n, at)[k],
    decreases n,
{
    let now = other_places(n, at);
    if n > 0 {
        let m = (n - 1) as nat;
        let was = other_places(m, at);
        lemma_other_places(m, at);
        if !at.contains(n - 1) {
            assert(now == was.push(n - 1));
            assert forall|i: int| #[trigger] now.contains(i) <==> 0 <= i < n && !at.contains(
                i,
            ) by {
                if now.contains(i) {
                    let q = choose|q: int| 0 <= q < now.len() && now[q] == i;
                    if q < was.len() {
                        assert(was[q] == i);
                        assert(was.contains(i));
                    }
                }
                if 0 <= i < n && !at.contains(i) {
                    if i < m {
                        assert(was.contains(i));
                        let q = choose|q: int| 0 <= q < was.len() && was[q] == i;
                        assert(now[q] == i);
                    } else {
                        assert(now[was.len() as int] == i);
                    }
                }
            }
            assert forall|j: int, k: int| 0 <= j < k < now.len() implies #[trigger] now[j]
                < #[trigger] now[k] by {
                assert(was.contains(was[j]));
            }
        }
    } else {
        assert forall|i: int| !(#[trigger] now.contains(i)) by {}
    }
}

proof fn lemma_without<A>(s: Seq<A>, at: Set<int>)
    ensures
        without(s, at) == Seq::new(
            other_places(s.len(), at).len(),
            |k: int| s[other_places(s.len(), at)[k]],
        ),
    decreases s.len(),
{
    let n = s.len();
    let out = Seq::new(other_places(n, at).len(), |k: int| s[other_places(n, at)[k]]);
    if n > 0 {
        let m = (n - 1) as nat;
        lemma_without(s.drop_last(), at);
        lemma_other_places(m, at);
        let was = other_places(m, at);
        assert forall|k: int| 0 <= k < was.len() implies s.drop_last()[#[trigger] was[k]]
            == s[was[k]] by {
            assert(was.contains(was[k]));
        }
        assert(without(s, at) =~= out);
    } else {
        assert(without(s, at) =~= out);
    }
}

/// What shedding some names leaves of a row and of its frame: at one and the
/// same places, in their order, all columns whose names are not shed and no
/// others.
pub proof fn law_shedding_leaves_the_rest(row: Row, frame: Seq<Name>, gone: Set<Name>)
    requires
        row.len() == frame.len(),
    ensures
        exists|places: Seq<int>|
            {
                &&& #[trigger] places.len() == shed(row, frame, gone).len()
                &&& places.len() == kept(frame, gone).len()
                &&& forall|k: int|
                    0 <= k < places.len() ==> 0 <= #[trigger] places[k] < frame.len() && shed(
                        row,
                        frame,
                        gone,
                    )[k] == row[places[k]] && kept(frame, gone)[k] == frame[places[k]]
                &&& forall|j: int, k: int|
                    0 <= j < k < places.len() ==> #[trigger] places[j] < #[trigger] places[k]
                &&& forall|i: int|
                    0 <= i < frame.len() ==> (#[trigger] places.contains(i) <==> !gone.contains(
                        frame[i],
                    ))
            },
{
    let at = gone_at(frame, gone);
    let places = other_places(frame.len(), at);
    lemma_other_places(frame.len(), at);
    lemma_without(row, at);
    lemma_without(frame, at);
    assert forall|k: int| 0 <= k < places.len() implies 0 <= #[trigger] places[k] < frame.len()
        && shed(row, frame, gone)[k] == row[places[k]] && kept(frame, gone)[k]
        == frame[places[k]] by {
        assert(places.contains(places[k]));
    }
    assert(places.len() == shed(row, frame, gone).len());
}

/// A change along the time of validity holds what holds at its later instant
/// alone, and at its earlier one alone, by all that is recorded; a change
/// along the time of recording, what holds in the end by what was recorded
/// until its later time alone, and until its earlier one alone.
pub proof fn law_changes_follow_their_axis(
    facts: Seq<FactModel>,
    axis: DeltaAxis,
    from: i64,
    to: i64,
    row: Row,
)
    ensures
        axis is Valid ==> (delta_set(
            facts,
            delta_ends(axis, from, to).0,
            delta_ends(axis, from, to).1,
        ).contains(row.push(Val::Num(1))) <==> snapshot(
            facts,
            AsOf { valid: to, sys: i64::MAX },
        ).contains(row) && !snapshot(facts, AsOf { valid: from, sys: i64::MAX }).contains(row)),
        axis is Valid ==> (delta_set(
            facts,
            delta_ends(axis, from, to).0,
            delta_ends(axis, from, to).1,
        ).contains(row.push(Val::Num((-1) as i64))) <==> snapshot(
            facts,
            AsOf { valid: from, sys: i64::MAX },
        ).contains(row) && !snapshot(facts, AsOf { valid: to, sys: i64::MAX }).contains(row)),
        axis is Sys ==> (delta_set(
            facts,
            delta_ends(axis, from, to).0,
            delta_ends(axis, from, to).1,
        ).contains(row.push(Val::Num(1))) <==> snapshot(
            facts,
            AsOf { valid: i64::MAX, sys: to },
        ).contains(row) && !snapshot(facts, AsOf { valid: i64::MAX, sys: from }).contains(row)),
        axis is Sys ==> (delta_set(
            facts,
            delta_ends(axis, from, to).0,
            delta_ends(axis, from, to).1,
        ).contains(row.push(Val::Num((-1) as i64))) <==> snapshot(
            facts,
            AsOf { valid: i64::MAX, sys: from },
        ).contains(row) && !snapshot(facts, AsOf { valid: i64::MAX, sys: to }).contains(row)),
{
    let (a, b) = delta_ends(axis, from, to);
    let plus = row.push(Val::Num(1));
    let minus = row.push(Val::Num((-1) as i64));
    assert(plus.drop_last() =~= row);
    assert(minus.drop_last() =~= row);
    law_changes_are_signed(facts, a, b, plus);
    law_changes_are_signed(facts, a, b, minus);
}

proof fn lemma_and_by(args: Seq<Expr>, look: Look)
    ensures
        lazy_by(LazyOp::And, args, look) is Pending <==> forall|i: int|
            0 <= i < args.len() ==> #[trigger] eval_by(args[i], look) == Ok::<Val, EvalFault>(
                Val::Bool(true),
            ),
        lazy_by(LazyOp::And, args, look) != Progress::Done(Ok(Val::Bool(true))),
    decreases args.len(),
{
    if args.len() > 0 {
        let rest = args.drop_last();
        let n = args.len() - 1;
        lemma_and_by(rest, look);
        if forall|i: int|
            0 <= i < args.len() ==> #[trigger] eval_by(args[i], look) == Ok::<Val, EvalFault>(
                Val::Bool(true),
            ) {
            assert forall|i: int| 0 <= i < rest.len() implies #[trigger] eval_by(rest[i], look)
                == Ok::<Val, EvalFault>(Val::Bool(true)) by {
                assert(eval_by(args[i], look) == Ok::<Val, EvalFault>(Val::Bool(true)));
            }
            assert(eval_by(args[n], look) == Ok::<Val, EvalFault>(Val::Bool(true)));
        }
        if lazy_by(LazyOp::And, args, look) is Pending {
            assert forall|i: int| 0 <= i < args.len() implies #[trigger] eval_by(args[i], look)
                == Ok::<Val, EvalFault>(Val::Bool(true)) by {
                if i < n {
                    assert(eval_by(rest[i], look) == Ok::<Val, EvalFault>(Val::Bool(true)));
                }
            }
        }
    }
}

/// An expression is true on a row exactly where all its conjuncts are.
pub proof fn law_conjuncts_are_the_whole(e: Expr, frame: Seq<Name>, row: Row)
    ensures
        eval_named(e, frame, row) == Ok::<Val, EvalFault>(Val::Bool(true)) <==> forall|i: int|
            0 <= i < conjuncts(e).len() ==> #[trigger] eval_named(conjuncts(e)[i], frame, row)
                == Ok::<Val, EvalFault>(Val::Bool(true)),
{
    let look = by_name(frame, row);
    match e {
        Expr::Lazy { op: LazyOp::And, args, .. } => {
            lemma_and_by(args@, look);
            if forall|i: int|
                0 <= i < conjuncts(e).len() ==> #[trigger] eval_named(conjuncts(e)[i], frame, row)
                    == Ok::<Val, EvalFault>(Val::Bool(true)) {
                assert forall|i: int| 0 <= i < args@.len() implies #[trigger] eval_by(
                    args@[i],
                    look,
                ) == Ok::<Val, EvalFault>(Val::Bool(true)) by {
                    assert(eval_named(conjuncts(e)[i], frame, row) == Ok::<Val, EvalFault>(
                        Val::Bool(true),
                    ));
                }
            }
            if eval_named(e, frame, row) == Ok::<Val, EvalFault>(Val::Bool(true)) {
                assert forall|i: int| 0 <= i < conjuncts(e).len() implies #[trigger] eval_named(
                    conjuncts(e)[i],
                    frame,
                    row,
                ) == Ok::<Val, EvalFault>(Val::Bool(true)) by {
                    assert(eval_by(args@[i], look) == Ok::<Val, EvalFault>(Val::Bool(true)));
                }
            }
        },
        _ => {
            assert(conjuncts(e)[0] == e);
        },
    }
}

/// The unit plan has one row, and that is empty.
pub proof fn law_unit_is_one_empty_row(plan: RelAlgebra, env: Env, delta: Option<usize>)
    requires
        plan is Fixed,
        plan->Fixed_0.data.deep_view() == seq![Seq::<Val>::empty()],
    ensures
        meaning(plan, env, delta) == Ok::<Stream, QueryFault>(Stream::one(Seq::empty())),
{
    let r = plan->Fixed_0;
    assert(r.data@.len() == r.data.deep_view().len());
    assert(r.data@[0].deep_view() == r.data.deep_view()[0]);
    assert(r.rows()[0] =~= Seq::<Val>::empty());
    assert(Stream::of(r.rows()).items =~= Stream::one(Seq::<Val>::empty()).items);
}

/// Whether a column is among places.
pub open spec fn is_taken(places: Seq<usize>, c: int) -> bool {
    exists|i: int| 0 <= i < places.len() && #[trigger] places[i] == c
}

/// Places are a leading run exactly where no column before their number is
/// left out.
pub proof fn law_leading_runs_leave_nothing_out(places: Seq<usize>)
    ensures
        is_prefix(places) <==> forall|c: int|
            0 <= c < places.len() ==> #[trigger] is_taken(places, c),
{
    let n = places.len() as int;
    if is_prefix(places) {
        assert forall|c: int| 0 <= c < n implies #[trigger] is_taken(places, c) by {
            lemma_prefix_covers(places, c);
        }
    }
    if forall|c: int| 0 <= c < n ==> #[trigger] is_taken(places, c) {
        let ints = Seq::new(places.len(), |i: int| places[i] as int);
        let range = vstd::set_lib::set_int_range(0, n);
        vstd::set_lib::lemma_int_range(0, n);
        assert forall|x: int| range.contains(x) implies ints.to_set().contains(x) by {
            assert(is_taken(places, x));
            let i = choose|i: int| 0 <= i < places.len() && #[trigger] places[i] == x;
            assert(ints[i] == x);
        }
        vstd::seq_lib::seq_to_set_is_finite(ints);
        vstd::set_lib::lemma_len_subset(range, ints.to_set());
        ints.lemma_cardinality_of_set();
        ints.lemma_no_dup_set_cardinality();
        vstd::set_lib::lemma_subset_equality(range, ints.to_set());
        assert forall|i: int| 0 <= i < n implies #[trigger] places[i] < n by {
            assert(ints[i] == places[i]);
            assert(ints.to_set().contains(ints[i]));
            assert(range.contains(ints[i]));
        }
        assert forall|i: int, j: int| 0 <= i < n && 0 <= j < n && i != j implies places[i]
            != places[j] by {
            assert(ints[i] != ints[j]);
        }
    }
}

proof fn lemma_last_pairs(lk: Seq<Name>, rk: Seq<Name>, j: int, n: int, a: Name, b: Name)
    requires
        0 <= j <= n,
    ensures
        last_pairs(lk, rk, j, n).contains((a, b)) <==> exists|k: int|
            0 <= k < j && #[trigger] is_last_pair(lk, rk, k, n, a, b),
    decreases j,
{
    let now = last_pairs(lk, rk, j, n);
    if j > 0 {
        let was = last_pairs(lk, rk, j - 1, n);
        lemma_last_pairs(lk, rk, j - 1, n, a, b);
        if was.contains((a, b)) {
            let q = choose|q: int| 0 <= q < was.len() && was[q] == (a, b);
            assert(now[q] == (a, b));
            let k = choose|k: int| 0 <= k < j - 1 && #[trigger] is_last_pair(lk, rk, k, n, a, b);
            assert(is_last_pair(lk, rk, k, n, a, b));
        }
        if is_last_pair(lk, rk, j - 1, n, a, b) {
            assert(!occurs_later(lk, j - 1, n)) by {
                if occurs_later(lk, j - 1, n) {
                    let k = choose|k: int| j - 1 < k < n && #[trigger] lk[k] == lk[j - 1];
                    assert(lk[k] != a);
                }
            }
            assert(now[was.len() as int] == (a, b));
        }
        if now.contains((a, b)) && !was.contains((a, b)) {
            let q = choose|q: int| 0 <= q < now.len() && now[q] == (a, b);
            if q < was.len() {
                assert(was[q] == (a, b));
            }
            assert(!occurs_later(lk, j - 1, n));
            assert forall|k: int| j - 1 < k < n implies #[trigger] lk[k] != a by {
                if lk[k] == a {
                    assert(lk[k] == lk[j - 1]);
                }
            }
            assert(is_last_pair(lk, rk, j - 1, n, a, b));
        }
        if exists|k: int| 0 <= k < j && #[trigger] is_last_pair(lk, rk, k, n, a, b) {
            let k = choose|k: int| 0 <= k < j && #[trigger] is_last_pair(lk, rk, k, n, a, b);
            if k < j - 1 {
                assert(was.contains((a, b)));
            }
        }
    }
}

/// Whether a pair of names stands at a place, and its left name at no later
/// one.
pub open spec fn is_last_pair(
    lk: Seq<Name>,
    rk: Seq<Name>,
    k: int,
    n: int,
    a: Name,
    b: Name,
) -> bool {
    &&& lk[k] == a
    &&& rk[k] == b
    &&& forall|m: int| k < m < n ==> #[trigger] lk[m] != a
}

/// A left name is paired with the right name of its last occurrence among the
/// join names, and with no other.
pub proof fn law_last_pair_of_a_name_counts(lk: Seq<Name>, rk: Seq<Name>, n: int, a: Name, b: Name)
    requires
        0 <= n,
    ensures
        last_pairs(lk, rk, n, n).contains((a, b)) <==> exists|k: int|
            0 <= k < n && #[trigger] is_last_pair(lk, rk, k, n, a, b),
{
    lemma_last_pairs(lk, rk, n, n, a, b);
}

} // verus!
