//! What connectives, conditionals, comparisons and sums give, in terms of the
//! values of their arguments.

use vstd::prelude::*;
use crate::expr::{
    apply_op, cond_upto, eval, eval_all, lazy_upto, lemma_cond_done, lemma_lazy_done, EvalFault,
    Expr, LazyOp, Op, OpError, Progress, SourceSpan,
};
use crate::value::{
    lemma_val_irreflexive, lemma_val_total, lemma_val_transitive, val_before, DataValue, Row, Val,
};
use crate::vm::{is_refined, ColumnBatch};

verus! {

/// Whether every argument has a truth value.
pub open spec fn all_truths(args: Seq<Expr>, row: Row) -> bool {
    forall|i: int|
        0 <= i < args.len() ==> {
            ||| #[trigger] eval(args[i], row) == Ok::<Val, EvalFault>(Val::Bool(true))
            ||| eval(args[i], row) == Ok::<Val, EvalFault>(Val::Bool(false))
        }
}

/// Whether the first `k` arguments all have a value.
pub open spec fn first_are(args: Seq<Expr>, k: int, row: Row, v: Val) -> bool {
    forall|i: int| 0 <= i < k ==> #[trigger] eval(args[i], row) == Ok::<Val, EvalFault>(v)
}

/// The value that leaves a connective open.
spec fn neutral(op: LazyOp) -> Val {
    match op {
        LazyOp::And => Val::Bool(true),
        LazyOp::Or => Val::Bool(false),
        LazyOp::Coalesce => Val::Null,
    }
}

proof fn lemma_open(op: LazyOp, args: Seq<Expr>, k: int, row: Row)
    requires
        0 <= k <= args.len(),
        first_are(args, k, row, neutral(op)),
    ensures
        lazy_upto(op, args.take(k), row) == Progress::Pending,
    decreases k,
{
    if k > 0 {
        assert(args.take(k).drop_last() =~= args.take(k - 1));
        assert(args.take(k).last() == args[k - 1]);
        assert(eval(args[k - 1], row) == Ok::<Val, EvalFault>(neutral(op)));
        lemma_open(op, args, k - 1, row);
    }
}

/// The argument after open ones decides.
proof fn lemma_next(op: LazyOp, args: Seq<Expr>, k: int, row: Row)
    requires
        0 <= k < args.len(),
        first_are(args, k, row, neutral(op)),
        eval(args[k], row) != Ok::<Val, EvalFault>(neutral(op)),
    ensures
        lazy_upto(op, args, row) == lazy_upto(op, args.take(k + 1), row),
        lazy_upto(op, args.take(k + 1), row) is Done,
{
    lemma_open(op, args, k, row);
    assert(args.take(k + 1).drop_last() =~= args.take(k));
    assert(args.take(k + 1).last() == args[k]);
    lemma_lazy_done(op, args, k + 1, row);
}

/// The first argument that has not a given value, if one has not.
proof fn lemma_first_other(args: Seq<Expr>, row: Row, v: Val, i: int) -> (k: int)
    requires
        0 <= i < args.len(),
        eval(args[i], row) != Ok::<Val, EvalFault>(v),
    ensures
        0 <= k <= i,
        first_are(args, k, row, v),
        eval(args[k], row) != Ok::<Val, EvalFault>(v),
    decreases i,
{
    if first_are(args, i, row, v) {
        i
    } else {
        let j = choose|j: int|
            0 <= j < i && #[trigger] eval(args[j], row) != Ok::<Val, EvalFault>(v);
        lemma_first_other(args, row, v, j)
    }
}

/// If every argument of an `or` has a truth value, it is true exactly where
/// some argument is.
pub proof fn law_or_is_some(args: Vec<Expr>, span: SourceSpan, row: Row)
    requires
        all_truths(args@, row),
    ensures
        eval(Expr::Lazy { op: LazyOp::Or, args, span }, row) == Ok::<Val, EvalFault>(
            Val::Bool(
                exists|i: int|
                    0 <= i < args@.len() && #[trigger] eval(args@[i], row) == Ok::<Val, EvalFault>(
                        Val::Bool(true),
                    ),
            ),
        ),
{
    if exists|i: int|
        0 <= i < args@.len() && #[trigger] eval(args@[i], row) == Ok::<Val, EvalFault>(
            Val::Bool(true),
        ) {
        let i = choose|i: int|
            0 <= i < args@.len() && #[trigger] eval(args@[i], row) == Ok::<Val, EvalFault>(
                Val::Bool(true),
            );
        let k = lemma_first_other(args@, row, Val::Bool(false), i);
        law_or_stops(args, span, k, row);
    } else {
        lemma_open(LazyOp::Or, args@, args@.len() as int, row);
        assert(args@.take(args@.len() as int) =~= args@);
    }
}

/// If every argument of an `and` has a truth value, it is true exactly where
/// all arguments are.
pub proof fn law_and_is_every(args: Vec<Expr>, span: SourceSpan, row: Row)
    requires
        all_truths(args@, row),
    ensures
        eval(Expr::Lazy { op: LazyOp::And, args, span }, row) == Ok::<Val, EvalFault>(
            Val::Bool(
                forall|i: int|
                    0 <= i < args@.len() ==> #[trigger] eval(args@[i], row) == Ok::<Val, EvalFault>(
                        Val::Bool(true),
                    ),
            ),
        ),
{
    if forall|i: int|
        0 <= i < args@.len() ==> #[trigger] eval(args@[i], row) == Ok::<Val, EvalFault>(
            Val::Bool(true),
        ) {
        lemma_open(LazyOp::And, args@, args@.len() as int, row);
        assert(args@.take(args@.len() as int) =~= args@);
    } else {
        let i = choose|i: int|
            0 <= i < args@.len() && #[trigger] eval(args@[i], row) != Ok::<Val, EvalFault>(
                Val::Bool(true),
            );
        let k = lemma_first_other(args@, row, Val::Bool(true), i);
        law_and_stops(args, span, k, row);
    }
}

/// An `or` is true at its first true argument after false ones, whatever
/// comes later.
pub proof fn law_or_stops(args: Vec<Expr>, span: SourceSpan, k: int, row: Row)
    requires
        0 <= k < args@.len(),
        first_are(args@, k, row, Val::Bool(false)),
        eval(args@[k], row) == Ok::<Val, EvalFault>(Val::Bool(true)),
    ensures
        eval(Expr::Lazy { op: LazyOp::Or, args, span }, row) == Ok::<Val, EvalFault>(
            Val::Bool(true),
        ),
{
    lemma_next(LazyOp::Or, args@, k, row);
    lemma_open(LazyOp::Or, args@, k, row);
    assert(args@.take(k + 1).drop_last() =~= args@.take(k));
    assert(args@.take(k + 1).last() == args@[k]);
}

/// An `and` is false at its first false argument after true ones, whatever
/// comes later.
pub proof fn law_and_stops(args: Vec<Expr>, span: SourceSpan, k: int, row: Row)
    requires
        0 <= k < args@.len(),
        first_are(args@, k, row, Val::Bool(true)),
        eval(args@[k], row) == Ok::<Val, EvalFault>(Val::Bool(false)),
    ensures
        eval(Expr::Lazy { op: LazyOp::And, args, span }, row) == Ok::<Val, EvalFault>(
            Val::Bool(false),
        ),
{
    lemma_next(LazyOp::And, args@, k, row);
    lemma_open(LazyOp::And, args@, k, row);
    assert(args@.take(k + 1).drop_last() =~= args@.take(k));
    assert(args@.take(k + 1).last() == args@[k]);
}

/// A coalesce is its first argument that is not null, or null where there is
/// none.
pub proof fn law_coalesce_is_first(args: Vec<Expr>, span: SourceSpan, k: int, row: Row)
    requires
        0 <= k <= args@.len(),
        first_are(args@, k, row, Val::Null),
        k < args@.len() ==> eval(args@[k], row) is Ok && eval(args@[k], row)->Ok_0 != Val::Null,
    ensures
        eval(Expr::Lazy { op: LazyOp::Coalesce, args, span }, row) == (if k < args@.len() {
            eval(args@[k], row)
        } else {
            Ok::<Val, EvalFault>(Val::Null)
        }),
{
    if k < args@.len() {
        lemma_next(LazyOp::Coalesce, args@, k, row);
        lemma_open(LazyOp::Coalesce, args@, k, row);
        assert(args@.take(k + 1).drop_last() =~= args@.take(k));
        assert(args@.take(k + 1).last() == args@[k]);
    } else {
        lemma_open(LazyOp::Coalesce, args@, k, row);
        assert(args@.take(k) =~= args@);
    }
}

/// A connective that is open up to an argument fails as that argument does.
/// An `and` or an `or` fails with the argument's value where that is no truth
/// value.
pub proof fn law_connective_fails(op: LazyOp, args: Vec<Expr>, span: SourceSpan, k: int, row: Row)
    requires
        0 <= k < args@.len(),
        op is And ==> first_are(args@, k, row, Val::Bool(true)),
        op is Or ==> first_are(args@, k, row, Val::Bool(false)),
        op is Coalesce ==> first_are(args@, k, row, Val::Null),
    ensures
        eval(args@[k], row) is Err ==> eval(Expr::Lazy { op, args, span }, row) == eval(
            args@[k],
            row,
        ),
        eval(args@[k], row) is Ok && !(eval(args@[k], row)->Ok_0 is Bool) && !(op is Coalesce)
            ==> eval(Expr::Lazy { op, args, span }, row) == Err::<Val, EvalFault>(
            EvalFault::PredicateType { value: eval(args@[k], row)->Ok_0, span: args@[k].at() },
        ),
{
    if eval(args@[k], row) != Ok::<Val, EvalFault>(neutral(op)) {
        lemma_next(op, args@, k, row);
    }
    lemma_open(op, args@, k, row);
    assert(args@.take(k + 1).drop_last() =~= args@.take(k));
    assert(args@.take(k + 1).last() == args@[k]);
}

/// Whether the conditions of the first `k` clauses are false.
pub open spec fn passed_over(clauses: Seq<(Expr, Expr)>, k: int, row: Row) -> bool {
    forall|i: int|
        0 <= i < k ==> #[trigger] eval(clauses[i].0, row) == Ok::<Val, EvalFault>(Val::Bool(false))
}

proof fn lemma_passed_over(clauses: Seq<(Expr, Expr)>, k: int, row: Row)
    requires
        0 <= k <= clauses.len(),
        passed_over(clauses, k, row),
    ensures
        cond_upto(clauses.take(k), row) == Progress::Pending,
    decreases k,
{
    if k > 0 {
        assert(clauses.take(k).drop_last() =~= clauses.take(k - 1));
        assert(clauses.take(k).last() == clauses[k - 1]);
        assert(eval(clauses[k - 1].0, row) == Ok::<Val, EvalFault>(Val::Bool(false)));
        lemma_passed_over(clauses, k - 1, row);
    }
}

/// A conditional has the value of the first clause whose condition is true,
/// or null where all are false.
pub proof fn law_cond_is_first(clauses: Vec<(Expr, Expr)>, span: SourceSpan, k: int, row: Row)
    requires
        0 <= k <= clauses@.len(),
        passed_over(clauses@, k, row),
        k < clauses@.len() ==> eval(clauses@[k].0, row) == Ok::<Val, EvalFault>(Val::Bool(true)),
    ensures
        eval(Expr::Cond { clauses, span }, row) == (if k < clauses@.len() {
            eval(clauses@[k].1, row)
        } else {
            Ok::<Val, EvalFault>(Val::Null)
        }),
{
    lemma_passed_over(clauses@, k, row);
    if k < clauses@.len() {
        assert(clauses@.take(k + 1).drop_last() =~= clauses@.take(k));
        assert(clauses@.take(k + 1).last() == clauses@[k]);
        lemma_cond_done(clauses@, k + 1, row);
    } else {
        assert(clauses@.take(k) =~= clauses@);
    }
}

/// A conditional whose clauses are false up to one whose condition fails, or
/// has no truth value, fails with that.
pub proof fn law_cond_fails(clauses: Vec<(Expr, Expr)>, span: SourceSpan, k: int, row: Row)
    requires
        0 <= k < clauses@.len(),
        passed_over(clauses@, k, row),
    ensures
        eval(clauses@[k].0, row) is Err ==> eval(Expr::Cond { clauses, span }, row) == eval(
            clauses@[k].0,
            row,
        ),
        eval(clauses@[k].0, row) is Ok && !(eval(clauses@[k].0, row)->Ok_0 is Bool) ==> eval(
            Expr::Cond { clauses, span },
            row,
        ) == Err::<Val, EvalFault>(
            EvalFault::PredicateType {
                value: eval(clauses@[k].0, row)->Ok_0,
                span: clauses@[k].0.at(),
            },
        ),
{
    lemma_passed_over(clauses@, k, row);
    assert(clauses@.take(k + 1).drop_last() =~= clauses@.take(k));
    assert(clauses@.take(k + 1).last() == clauses@[k]);
    if eval(clauses@[k].0, row) != Ok::<Val, EvalFault>(Val::Bool(false)) {
        lemma_cond_done(clauses@, k + 1, row);
    }
}

/// Whether expressions have values, one by one.
pub open spec fn have(args: Seq<Expr>, vals: Seq<Val>, row: Row) -> bool {
    &&& args.len() == vals.len()
    &&& forall|i: int|
        0 <= i < args.len() ==> #[trigger] eval(args[i], row) == Ok::<Val, EvalFault>(vals[i])
}

proof fn lemma_have(args: Seq<Expr>, vals: Seq<Val>, row: Row)
    requires
        have(args, vals, row),
    ensures
        eval_all(args, row) == Ok::<Seq<Val>, EvalFault>(vals),
    decreases args.len(),
{
    if args.len() > 0 {
        assert forall|i: int| 0 <= i < args.drop_last().len() implies #[trigger] eval(
            args.drop_last()[i],
            row,
        ) == Ok::<Val, EvalFault>(vals.drop_last()[i]) by {
            assert(eval(args[i], row) == Ok::<Val, EvalFault>(vals[i]));
        }
        lemma_have(args.drop_last(), vals.drop_last(), row);
        assert(eval(args[args.len() - 1], row) == Ok::<Val, EvalFault>(vals[args.len() - 1]));
        assert(vals.drop_last().push(vals.last()) =~= vals);
    } else {
        assert(vals =~= Seq::<Val>::empty());
    }
}

/// A function of numbers compares them as numbers.
pub proof fn law_numbers_compare(args: Vec<Expr>, span: SourceSpan, a: i64, b: i64, row: Row)
    requires
        have(args@, seq![Val::Num(a), Val::Num(b)], row),
    ensures
        eval(Expr::Apply { op: Op::Gt, args, span }, row) == Ok::<Val, EvalFault>(
            Val::Bool(a > b),
        ),
        eval(Expr::Apply { op: Op::Ge, args, span }, row) == Ok::<Val, EvalFault>(
            Val::Bool(a >= b),
        ),
        eval(Expr::Apply { op: Op::Lt, args, span }, row) == Ok::<Val, EvalFault>(
            Val::Bool(a < b),
        ),
        eval(Expr::Apply { op: Op::Le, args, span }, row) == Ok::<Val, EvalFault>(
            Val::Bool(a <= b),
        ),
        eval(Expr::Apply { op: Op::Eq, args, span }, row) == Ok::<Val, EvalFault>(
            Val::Bool(a == b),
        ),
        eval(Expr::Apply { op: Op::Neq, args, span }, row) == Ok::<Val, EvalFault>(
            Val::Bool(a != b),
        ),
        i64::MIN <= a + b <= i64::MAX ==> eval(Expr::Apply { op: Op::Add, args, span }, row)
            == Ok::<Val, EvalFault>(Val::Num((a + b) as i64)),
        !(i64::MIN <= a + b <= i64::MAX) ==> eval(Expr::Apply { op: Op::Add, args, span }, row)
            == Err::<Val, EvalFault>(
            EvalFault::Raised { op: Op::Add, cause: OpError::Overflow, span },
        ),
{
    let vals = seq![Val::Num(a), Val::Num(b)];
    lemma_have(args@, vals, row);
    lemma_sum(seq![a, b], 2);
    assert(nums(seq![a, b]) =~= vals);
    assert(total(seq![a, b].take(2)) == a + b) by {
        reveal_with_fuel(total, 3);
    }
    assert(total(seq![a, b].take(1)) == a) by {
        reveal_with_fuel(total, 3);
    }
    assert(vals.take(2) =~= vals);
}

/// Of two values of one type exactly one of less, equal and greater holds;
/// the other comparisons are their opposites; and swapping the sides swaps
/// less and greater. Null, as any other value, is comparable with its own
/// type alone.
pub proof fn law_comparisons_agree(a: Val, b: Val)
    ensures
        apply_op(Op::Eq, seq![a, b]) == Ok::<Val, OpError>(Val::Bool(a == b)),
        apply_op(Op::Neq, seq![a, b]) == Ok::<Val, OpError>(Val::Bool(a != b)),
        a == b ==> apply_op(Op::Lt, seq![a, b]) == Ok::<Val, OpError>(Val::Bool(false)),
        a == b ==> apply_op(Op::Gt, seq![a, b]) == Ok::<Val, OpError>(Val::Bool(false)),
        apply_op(Op::Lt, seq![a, b]) == apply_op(Op::Gt, seq![b, a]),
        apply_op(Op::Le, seq![a, b]) == apply_op(Op::Ge, seq![b, a]),
        apply_op(Op::Lt, seq![a, b]) is Ok ==> {
            &&& a != b ==> apply_op(Op::Lt, seq![a, b]) != apply_op(Op::Gt, seq![a, b])
            &&& apply_op(Op::Le, seq![a, b]) == Ok::<Val, OpError>(
                Val::Bool(apply_op(Op::Gt, seq![a, b]) == Ok::<Val, OpError>(Val::Bool(false))),
            )
            &&& apply_op(Op::Ge, seq![a, b]) == Ok::<Val, OpError>(
                Val::Bool(apply_op(Op::Lt, seq![a, b]) == Ok::<Val, OpError>(Val::Bool(false))),
            )
        },
{
    lemma_val_total(a, b);
    lemma_val_irreflexive(a);
    lemma_val_irreflexive(b);
    if val_before(a, b) && val_before(b, a) {
        lemma_val_transitive(a, b, a);
    }
}

/// Values of different types are not compared, but for equality: such a
/// comparison raises a type error.
pub proof fn law_types_do_not_mix(op: Op, args: Vec<Expr>, span: SourceSpan, a: Val, b: Val, row: Row)
    requires
        have(args@, seq![a, b], row),
        op is Gt || op is Ge || op is Lt || op is Le,
    ensures
        eval(Expr::Apply { op, args, span }, row) == Err::<Val, EvalFault>(
            EvalFault::Raised { op, cause: OpError::Type, span },
        ) <==> match a {
            Val::Null => !(b is Null),
            Val::Bool(_) => !(b is Bool),
            Val::Num(_) => !(b is Num),
            Val::Str(_) => !(b is Str),
            Val::List(_) => !(b is List),
            Val::Members(_) => !(b is Members),
            Val::Validity(_) => !(b is Validity),
            Val::Interval(_) => !(b is Interval),
            Val::Bot => !(b is Bot),
        },
{
    lemma_have(args@, seq![a, b], row);
}

/// A comparison of other than two values raises an arity error.
pub proof fn law_comparisons_take_two(
    op: Op,
    args: Vec<Expr>,
    span: SourceSpan,
    vals: Seq<Val>,
    row: Row,
)
    requires
        have(args@, vals, row),
        !(op is Add),
    ensures
        eval(Expr::Apply { op, args, span }, row) == Err::<Val, EvalFault>(
            EvalFault::Raised { op, cause: OpError::Arity, span },
        ) <==> vals.len() != 2,
{
    lemma_have(args@, vals, row);
}

/// Numbers as values.
pub open spec fn nums(ns: Seq<i64>) -> Seq<Val> {
    Seq::new(ns.len(), |i: int| Val::Num(ns[i]))
}

/// The sum of numbers.
pub open spec fn total(ns: Seq<i64>) -> int
    decreases ns.len(),
{
    if ns.len() == 0 {
        0
    } else {
        ns[0] + total(ns.drop_first())
    }
}

proof fn lemma_total_push(ns: Seq<i64>, n: i64)
    ensures
        total(ns.push(n)) == total(ns) + n,
    decreases ns.len(),
{
    if ns.len() == 0 {
        reveal_with_fuel(total, 2);
        assert(ns.push(n).drop_first() =~= ns);
    } else {
        assert(ns.push(n).drop_first() =~= ns.drop_first().push(n));
        lemma_total_push(ns.drop_first(), n);
    }
}

proof fn lemma_sum(ns: Seq<i64>, k: int)
    requires
        0 <= k <= ns.len(),
    ensures
        (forall|i: int| 0 <= i <= k ==> i64::MIN <= #[trigger] total(ns.take(i)) <= i64::MAX)
            ==> apply_op(Op::Add, nums(ns).take(k)) == Ok::<Val, OpError>(
            Val::Num(total(ns.take(k)) as i64),
        ),
        !(forall|i: int| 0 <= i <= k ==> i64::MIN <= #[trigger] total(ns.take(i)) <= i64::MAX)
            ==> apply_op(Op::Add, nums(ns).take(k)) == Err::<Val, OpError>(OpError::Overflow),
    decreases k,
{
    if k == 0 {
        assert(total(ns.take(0)) == 0);
    } else {
        lemma_sum(ns, k - 1);
        assert(nums(ns).take(k).drop_last() =~= nums(ns).take(k - 1));
        assert(ns.take(k) =~= ns.take(k - 1).push(ns[k - 1]));
        lemma_total_push(ns.take(k - 1), ns[k - 1]);
        assert(total(ns.take(k)) == total(ns.take(k - 1)) + ns[k - 1]);
    }
}

/// A sum of numbers is their sum, and raises an overflow where the sum of
/// some first ones is out of range.
pub proof fn law_sum(args: Vec<Expr>, span: SourceSpan, ns: Seq<i64>, row: Row)
    requires
        have(args@, nums(ns), row),
    ensures
        eval(Expr::Apply { op: Op::Add, args, span }, row) == (if forall|i: int|
            0 <= i <= ns.len() ==> i64::MIN <= #[trigger] total(ns.take(i)) <= i64::MAX {
            Ok::<Val, EvalFault>(Val::Num(total(ns) as i64))
        } else {
            Err::<Val, EvalFault>(
                EvalFault::Raised { op: Op::Add, cause: OpError::Overflow, span },
            )
        }),
{
    lemma_have(args@, nums(ns), row);
    lemma_sum(ns, ns.len() as int);
    assert(nums(ns).take(ns.len() as int) =~= nums(ns));
    assert(ns.take(ns.len() as int) =~= ns);
}

/// A function fails as its first failing argument does.
pub proof fn law_arguments_fail(op: Op, args: Vec<Expr>, span: SourceSpan, k: int, row: Row)
    requires
        0 <= k < args@.len(),
        forall|i: int| 0 <= i < k ==> (#[trigger] eval(args@[i], row)) is Ok,
        eval(args@[k], row) is Err,
    ensures
        eval(Expr::Apply { op, args, span }, row) == eval(args@[k], row),
{
    lemma_all_fail(args@, k, args@.len() as int, row);
    assert(args@.take(args@.len() as int) =~= args@);
}

proof fn lemma_all_fail(args: Seq<Expr>, k: int, n: int, row: Row)
    requires
        0 <= k < args.len(),
        0 <= n <= args.len(),
        forall|i: int| 0 <= i < k ==> (#[trigger] eval(args[i], row)) is Ok,
        eval(args[k], row) is Err,
    ensures
        n <= k ==> eval_all(args.take(n), row) is Ok,
        n > k ==> eval_all(args.take(n), row) == Err::<Seq<Val>, EvalFault>(
            eval(args[k], row)->Err_0,
        ),
    decreases n,
{
    if n > 0 {
        lemma_all_fail(args, k, n - 1, row);
        assert(args.take(n).drop_last() =~= args.take(n - 1));
        assert(args.take(n).last() == args[n - 1]);
        if n <= k {
            assert(eval(args[n - 1], row) is Ok);
        }
    }
}

/// A variable has the value at its place of the row, and fails where it has no
/// place or the row ends before it. A constant has its value.
pub proof fn law_variables_and_constants(
    var: String,
    span: SourceSpan,
    i: usize,
    val: DataValue,
    row: Row,
)
    requires
        row.len() <= usize::MAX,
    ensures
        i < row.len() ==> eval(Expr::Binding { var, span, tuple_pos: Some(i) }, row) == Ok::<
            Val,
            EvalFault,
        >(row[i as int]),
        i >= row.len() ==> eval(Expr::Binding { var, span, tuple_pos: Some(i) }, row) == Err::<
            Val,
            EvalFault,
        >(EvalFault::TupleTooShort { var: var@, index: i, len: row.len() as usize, span }),
        eval(Expr::Binding { var, span, tuple_pos: None }, row) == Err::<Val, EvalFault>(
            EvalFault::Unbound { var: var@, span },
        ),
        eval(Expr::Const { val, span }, row) == Ok::<Val, EvalFault>(val.deep_view()),
{
}

/// The rows that a predicate leaves of a selection are those on which it is
/// true.
pub proof fn law_predicate_leaves_true_rows(
    keep: Seq<usize>,
    e: Expr,
    batch: ColumnBatch,
    sel: Seq<usize>,
    r: usize,
)
    requires
        is_refined(keep, e, batch, sel),
    ensures
        keep.contains(r) <==> sel.contains(r) && eval(e, batch.row(r as int)) == Ok::<
            Val,
            EvalFault,
        >(Val::Bool(true)),
{
}

/// What an `and` leaves of a selection is what all its arguments leave, and
/// what an `or` leaves is what some argument leaves, if all arguments have
/// truth values on the selection.
pub proof fn law_connectives_leave_common_rows(
    op: LazyOp,
    args: Vec<Expr>,
    span: SourceSpan,
    batch: ColumnBatch,
    sel: Seq<usize>,
    keep: Seq<usize>,
    keeps: Seq<Seq<usize>>,
    r: usize,
)
    requires
        op is And || op is Or,
        sel.contains(r),
        all_truths(args@, batch.row(r as int)),
        is_refined(keep, Expr::Lazy { op, args, span }, batch, sel),
        keeps.len() == args@.len(),
        forall|i: int| 0 <= i < args@.len() ==> is_refined(#[trigger] keeps[i], args@[i], batch, sel),
    ensures
        op is And ==> (keep.contains(r) <==> forall|i: int|
            0 <= i < keeps.len() ==> (#[trigger] keeps[i]).contains(r)),
        op is Or ==> (keep.contains(r) <==> exists|i: int|
            0 <= i < keeps.len() && (#[trigger] keeps[i]).contains(r)),
{
    let row = batch.row(r as int);
    law_or_is_some(args, span, row);
    law_and_is_every(args, span, row);
    assert forall|i: int| 0 <= i < keeps.len() implies (#[trigger] keeps[i]).contains(r) == (eval(
        args@[i],
        row,
    ) == Ok::<Val, EvalFault>(Val::Bool(true))) by {
        law_predicate_leaves_true_rows(keeps[i], args@[i], batch, sel, r);
    }
    assert forall|i: int| 0 <= i < args@.len() implies #[trigger] eval(args@[i], row) == Ok::<
        Val,
        EvalFault,
    >(Val::Bool(true)) || !keeps[i].contains(r) by {
        assert(keeps[i].contains(r) == (eval(args@[i], row) == Ok::<Val, EvalFault>(
            Val::Bool(true),
        )));
    }
    law_predicate_leaves_true_rows(keep, Expr::Lazy { op, args, span }, batch, sel, r);
    if op is And {
        if forall|i: int| 0 <= i < keeps.len() ==> (#[trigger] keeps[i]).contains(r) {
            assert forall|i: int| 0 <= i < args@.len() implies #[trigger] eval(args@[i], row)
                == Ok::<Val, EvalFault>(Val::Bool(true)) by {
                assert(keeps[i].contains(r));
            }
        }
    }
    if op is Or {
        if exists|i: int|
            0 <= i < args@.len() && #[trigger] eval(args@[i], row) == Ok::<Val, EvalFault>(
                Val::Bool(true),
            ) {
            let i = choose|i: int|
                0 <= i < args@.len() && #[trigger] eval(args@[i], row) == Ok::<Val, EvalFault>(
                    Val::Bool(true),
                );
            assert(keeps[i].contains(r));
        }
    }
}

} // verus!
