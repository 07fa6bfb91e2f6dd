//! The range that filters leave to a column: what a bounded probe has to read.

use vstd::prelude::*;
use crate::epoch::in_range;
use crate::expr::{apply_op, EvalFault, Expr, LazyOp, Op, Progress, SourceSpan};
use crate::names::{names, Name};
use crate::order::Rank;
use crate::resolve::{eval_all_by, eval_by, lazy_by, Look};
use crate::value::{
    lemma_val_irreflexive, lemma_val_total, lemma_val_transitive, rank_values, row_before,
    val_before, DataValue, Row, Tuple, Val,
};

verus! {

/// A range of values, both ends included.
pub struct ValueRange {
    pub lower: DataValue,
    pub upper: DataValue,
}

/// The mathematical form of a range of values.
pub struct Range {
    pub lower: Val,
    pub upper: Val,
}

impl DeepView for ValueRange {
    type V = Range;

    open spec fn deep_view(&self) -> Range {
        Range { lower: self.lower.deep_view(), upper: self.upper.deep_view() }
    }
}

impl Range {
    /// The range of all values.
    pub open spec fn open() -> Range {
        Range { lower: Val::Null, upper: Val::Bot }
    }

    pub open spec fn holds(self, v: Val) -> bool {
        !val_before(v, self.lower) && !val_before(self.upper, v)
    }

    /// The values in both of two ranges.
    pub open spec fn merge(self, other: Range) -> Range {
        Range {
            lower: if val_before(self.lower, other.lower) {
                other.lower
            } else {
                self.lower
            },
            upper: if val_before(other.upper, self.upper) {
                other.upper
            } else {
                self.upper
            },
        }
    }
}

/// The range a comparison with a constant leaves to its left side.
pub open spec fn compared(op: Op, c: Val) -> Range {
    match op {
        Op::Eq => Range { lower: c, upper: c },
        Op::Gt => Range { lower: c, upper: Val::Bot },
        Op::Ge => Range { lower: c, upper: Val::Bot },
        Op::Lt => Range { lower: Val::Null, upper: c },
        Op::Le => Range { lower: Val::Null, upper: c },
        _ => Range::open(),
    }
}

/// A comparison read from right to left.
pub open spec fn mirrored(op: Op) -> Op {
    match op {
        Op::Gt => Op::Lt,
        Op::Ge => Op::Le,
        Op::Lt => Op::Gt,
        Op::Le => Op::Ge,
        _ => op,
    }
}

/// The range a true expression leaves to a name.
pub open spec fn range_of(e: Expr, n: Name) -> Range
    decreases e,
{
    match e {
        Expr::Apply { op, args, .. } => if args@.len() == 2 {
            match (args@[0], args@[1]) {
                (Expr::Binding { var, .. }, Expr::Const { val, .. }) => if var@ == n {
                    compared(op, val.deep_view())
                } else {
                    Range::open()
                },
                (Expr::Const { val, .. }, Expr::Binding { var, .. }) => if var@ == n {
                    compared(mirrored(op), val.deep_view())
                } else {
                    Range::open()
                },
                _ => Range::open(),
            }
        } else {
            Range::open()
        },
        Expr::Lazy { op: LazyOp::And, args, .. } => range_all(args@, n),
        _ => Range::open(),
    }
}

/// The range that expressions that are all true leave to a name.
pub open spec fn range_all(args: Seq<Expr>, n: Name) -> Range
    decreases args,
{
    if args.len() == 0 {
        Range::open()
    } else {
        range_all(args.drop_last(), n).merge(range_of(args.last(), n))
    }
}

fn merge_ranges(a: ValueRange, b: ValueRange) -> (r: ValueRange)
    ensures
        r.deep_view() == a.deep_view().merge(b.deep_view()),
{
    proof {
        lemma_val_irreflexive(a.lower.deep_view());
        lemma_val_irreflexive(a.upper.deep_view());
    }
    let lower = match rank_values(&a.lower, &b.lower) {
        Rank::Before => b.lower,
        _ => a.lower,
    };
    let upper = match rank_values(&b.upper, &a.upper) {
        Rank::Before => b.upper,
        _ => a.upper,
    };
    ValueRange { lower, upper }
}

fn open_range() -> (r: ValueRange)
    ensures
        r.deep_view() == Range::open(),
{
    ValueRange { lower: DataValue::Null, upper: DataValue::Bot }
}

fn compared_range(op: Op, c: &DataValue) -> (r: ValueRange)
    ensures
        r.deep_view() == compared(op, c.deep_view()),
{
    match op {
        Op::Eq => ValueRange { lower: c.clone(), upper: c.clone() },
        Op::Gt => ValueRange { lower: c.clone(), upper: DataValue::Bot },
        Op::Ge => ValueRange { lower: c.clone(), upper: DataValue::Bot },
        Op::Lt => ValueRange { lower: DataValue::Null, upper: c.clone() },
        Op::Le => ValueRange { lower: DataValue::Null, upper: c.clone() },
        _ => open_range(),
    }
}

fn mirror(op: Op) -> (r: Op)
    ensures
        r == mirrored(op),
{
    match op {
        Op::Gt => Op::Lt,
        Op::Ge => Op::Le,
        Op::Lt => Op::Gt,
        Op::Le => Op::Ge,
        _ => op,
    }
}

fn extract_bound(e: &Expr, n: &String) -> (r: ValueRange)
    ensures
        r.deep_view() == range_of(*e, n@),
    decreases e,
{
    match e {
        Expr::Apply { op, args, .. } => {
            if args.len() == 2 {
                match (&args[0], &args[1]) {
                    (Expr::Binding { var, .. }, Expr::Const { val, .. }) => {
                        if *var == *n {
                            compared_range(*op, val)
                        } else {
                            open_range()
                        }
                    },
                    (Expr::Const { val, .. }, Expr::Binding { var, .. }) => {
                        if *var == *n {
                            compared_range(mirror(*op), val)
                        } else {
                            open_range()
                        }
                    },
                    _ => open_range(),
                }
            } else {
                open_range()
            }
        },
        Expr::Lazy { op: LazyOp::And, args, .. } => extract_all(args, n),
        _ => open_range(),
    }
}

fn extract_all(args: &Vec<Expr>, n: &String) -> (r: ValueRange)
    ensures
        r.deep_view() == range_all(args@, n@),
    decreases args,
{
    let mut r = open_range();
    let mut i: usize = 0;
    assert(args@.take(0) =~= Seq::<Expr>::empty());
    while i < args.len()
        invariant
            i <= args@.len(),
            r.deep_view() == range_all(args@.take(i as int), n@),
        decreases args.len() - i,
    {
        proof {
            assert(args@.take(i + 1).drop_last() =~= args@.take(i as int));
            assert(args@.take(i + 1).last() == args@[i as int]);
        }
        let next = extract_bound(&args[i], n);
        r = merge_ranges(r, next);
        i = i + 1;
    }
    assert(args@.take(i as int) =~= args@);
    r
}

/// The lower ends of the ranges that filters leave to columns.
pub open spec fn lower_ends(filters: Seq<Expr>, columns: Seq<Name>) -> Row {
    Seq::new(columns.len(), |i: int| range_all(filters, columns[i]).lower)
}

/// The upper ends of the ranges that filters leave to columns.
pub open spec fn upper_ends(filters: Seq<Expr>, columns: Seq<Name>) -> Row {
    Seq::new(columns.len(), |i: int| range_all(filters, columns[i]).upper)
}

/// The ends of the ranges that filters leave to columns.
pub fn compute_bounds(filters: &Vec<Expr>, columns: &Vec<String>) -> (r: (Tuple, Tuple))
    ensures
        r.0.deep_view() == lower_ends(filters@, names(columns@)),
        r.1.deep_view() == upper_ends(filters@, names(columns@)),
{
    let mut lower: Tuple = Vec::new();
    let mut upper: Tuple = Vec::new();
    let mut i: usize = 0;
    while i < columns.len()
        invariant
            i <= columns@.len(),
            lower.deep_view() == lower_ends(filters@, names(columns@)).take(i as int),
            upper.deep_view() == upper_ends(filters@, names(columns@)).take(i as int),
        decreases columns.len() - i,
    {
        let range = extract_all(filters, &columns[i]);
        let ghost l = lower.deep_view();
        let ghost u = upper.deep_view();
        let ghost m = range.deep_view();
        lower.push(range.lower);
        upper.push(range.upper);
        proof {
            assert(lower.deep_view() =~= l.push(m.lower));
            assert(upper.deep_view() =~= u.push(m.upper));
            assert(lower_ends(filters@, names(columns@)).take(i + 1) =~= l.push(m.lower));
            assert(upper_ends(filters@, names(columns@)).take(i + 1) =~= u.push(m.upper));
        }
        i = i + 1;
    }
    proof {
        assert(lower_ends(filters@, names(columns@)).take(i as int) =~= lower_ends(
            filters@,
            names(columns@),
        ));
        assert(upper_ends(filters@, names(columns@)).take(i as int) =~= upper_ends(
            filters@,
            names(columns@),
        ));
    }
    (lower, upper)
}

/// Expressions that are all true.
pub open spec fn all_true(args: Seq<Expr>, look: Look) -> bool {
    forall|i: int|
        0 <= i < args.len() ==> eval_by(#[trigger] args[i], look) == Ok::<Val, EvalFault>(
            Val::Bool(true),
        )
}

/// A conjunction is true exactly when it is undecided by its arguments.
pub proof fn lemma_and_true(args: Seq<Expr>, look: Look)
    ensures
        lazy_by(LazyOp::And, args, look) is Pending <==> all_true(args, look),
        lazy_by(LazyOp::And, args, look) != Progress::Done(Ok(Val::Bool(true))),
    decreases args.len(),
{
    if args.len() > 0 {
        let rest = args.drop_last();
        lemma_and_true(rest, look);
        if all_true(args, look) {
            assert forall|i: int| 0 <= i < rest.len() implies eval_by(#[trigger] rest[i], look)
                == Ok::<Val, EvalFault>(Val::Bool(true)) by {
                assert(rest[i] == args[i]);
            }
            assert(args[args.len() - 1] == args.last());
        }
        if lazy_by(LazyOp::And, args, look) is Pending {
            assert forall|i: int| 0 <= i < args.len() implies eval_by(#[trigger] args[i], look)
                == Ok::<Val, EvalFault>(Val::Bool(true)) by {
                if i < rest.len() {
                    assert(rest[i] == args[i]);
                }
            }
        }
    }
}

proof fn lemma_merge(a: Range, b: Range, v: Val)
    requires
        a.holds(v),
        b.holds(v),
    ensures
        a.merge(b).holds(v),
{
}

/// The comparison of two values that came out true bounds the first by the
/// second.
proof fn lemma_compared(op: Op, v: Val, c: Val)
    requires
        apply_op(op, seq![v, c]) == Ok::<Val, crate::expr::OpError>(Val::Bool(true)),
    ensures
        compared(op, c).holds(v),
{
    lemma_val_irreflexive(v);
    lemma_val_total(v, c);
    if val_before(v, c) && val_before(c, v) {
        lemma_val_transitive(v, c, v);
    }
}

proof fn lemma_compared_mirror(op: Op, v: Val, c: Val)
    requires
        apply_op(op, seq![c, v]) == Ok::<Val, crate::expr::OpError>(Val::Bool(true)),
    ensures
        compared(mirrored(op), c).holds(v),
{
    lemma_val_irreflexive(v);
    lemma_val_total(v, c);
    if val_before(v, c) && val_before(c, v) {
        lemma_val_transitive(v, c, v);
    }
}

/// Where an expression is true, a name lies in its range.
pub proof fn lemma_range_sound(e: Expr, n: Name, look: Look, v: Val)
    requires
        eval_by(e, look) == Ok::<Val, EvalFault>(Val::Bool(true)),
        forall|s: SourceSpan| #[trigger] look(n, s) == Ok::<Val, EvalFault>(v),
    ensures
        range_of(e, n).holds(v),
    decreases e,
{
    match e {
        Expr::Apply { op, args, .. } => {
            if args@.len() == 2 {
                let vals = eval_all_by(args@, look)->Ok_0;
                assert(args@.drop_last().drop_last() =~= Seq::<Expr>::empty());
                assert(args@.drop_last().last() == args@[0]);
                reveal_with_fuel(eval_all_by, 3);
                let a = eval_by(args@[0], look)->Ok_0;
                let b = eval_by(args@[1], look)->Ok_0;
                assert(vals =~= seq![a, b]);
                match (args@[0], args@[1]) {
                    (Expr::Binding { var, .. }, Expr::Const { val, .. }) => {
                        if var@ == n {
                            lemma_compared(op, v, val.deep_view());
                        }
                    },
                    (Expr::Const { val, .. }, Expr::Binding { var, .. }) => {
                        if var@ == n {
                            lemma_compared_mirror(op, v, val.deep_view());
                        }
                    },
                    _ => {},
                }
            }
        },
        Expr::Lazy { op: LazyOp::And, args, .. } => {
            lemma_and_true(args@, look);
            lemma_ranges_sound(args@, n, look, v);
        },
        _ => {},
    }
}

/// Where expressions are all true, a name lies in their range.
pub proof fn lemma_ranges_sound(args: Seq<Expr>, n: Name, look: Look, v: Val)
    requires
        all_true(args, look),
        forall|s: SourceSpan| #[trigger] look(n, s) == Ok::<Val, EvalFault>(v),
    ensures
        range_all(args, n).holds(v),
    decreases args,
{
    if args.len() > 0 {
        assert(all_true(args.drop_last(), look)) by {
            assert forall|i: int| 0 <= i < args.drop_last().len() implies eval_by(
                #[trigger] args.drop_last()[i],
                look,
            ) == Ok::<Val, EvalFault>(Val::Bool(true)) by {
                assert(args.drop_last()[i] == args[i]);
            }
        }
        assert(args.last() == args[args.len() - 1]);
        lemma_ranges_sound(args.drop_last(), n, look, v);
        lemma_range_sound(args.last(), n, look, v);
        lemma_merge(range_all(args.drop_last(), n), range_of(args.last(), n), v);
    }
}

proof fn lemma_not_below(row: Row, low: Row)
    requires
        row.len() == low.len(),
        forall|i: int| 0 <= i < row.len() ==> !val_before(#[trigger] row[i], low[i]),
    ensures
        !row_before(row, low),
    decreases row.len(),
{
    if row.len() > 0 && row[0] == low[0] {
        let r = row.drop_first();
        let l = low.drop_first();
        assert forall|i: int| 0 <= i < r.len() implies !val_before(#[trigger] r[i], l[i]) by {
            assert(r[i] == row[i + 1]);
        }
        lemma_not_below(r, l);
    }
}

proof fn lemma_not_above(row: Row, up: Row)
    requires
        row.len() == up.len(),
        forall|i: int| 0 <= i < row.len() ==> !val_before(up[i], #[trigger] row[i]),
    ensures
        row == up || row_before(row, up),
    decreases row.len(),
{
    if row.len() > 0 {
        if row[0] == up[0] {
            let r = row.drop_first();
            let u = up.drop_first();
            assert forall|i: int| 0 <= i < r.len() implies !val_before(u[i], #[trigger] r[i]) by {
                assert(r[i] == row[i + 1]);
            }
            lemma_not_above(r, u);
            if r == u {
                assert(row =~= seq![row[0]] + r);
                assert(up =~= seq![up[0]] + u);
            }
        } else {
            lemma_val_total(row[0], up[0]);
        }
    } else {
        assert(row =~= up);
    }
}

/// A bounded probe reads every row on which the filters hold: the row that
/// begins with the probe's prefix and goes on with columns within the ranges
/// of the filters lies between the bounds.
pub proof fn law_bounds_keep_matches(
    filters: Seq<Expr>,
    prefix: Row,
    columns: Seq<Name>,
    rest: Row,
    look: Look,
)
    requires
        all_true(filters, look),
        rest.len() == columns.len(),
        forall|i: int, s: SourceSpan|
            0 <= i < columns.len() ==> #[trigger] look(columns[i], s) == Ok::<Val, EvalFault>(
                rest[i],
            ),
    ensures
        in_range(
            prefix + rest,
            prefix + lower_ends(filters, columns),
            prefix + upper_ends(filters, columns),
            true,
        ),
{
    let row = prefix + rest;
    let low = prefix + lower_ends(filters, columns);
    let up = prefix + upper_ends(filters, columns);
    assert forall|i: int| 0 <= i < row.len() implies !val_before(#[trigger] row[i], low[i])
        && !val_before(up[i], row[i]) by {
        if i < prefix.len() {
            lemma_val_irreflexive(row[i]);
        } else {
            let j = i - prefix.len();
            assert forall|s: SourceSpan| #[trigger] look(columns[j], s) == Ok::<Val, EvalFault>(
                rest[j],
            ) by {}
            lemma_ranges_sound(filters, columns[j], look, rest[j]);
        }
    }
    lemma_not_below(row, low);
    lemma_not_above(row, up);
}

} // verus!
