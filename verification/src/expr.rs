//! Expressions over the columns of a row, and their row-by-row evaluation.

use vstd::prelude::*;
use crate::order::Rank;
use crate::text::{decimal, join_text, val_text, write_decimal, write_value};
use crate::value::{
    rank_values, same_value, val_before, variant_position, DataValue, Row, Tuple, Val,
};

verus! {

/// A region of query text.
#[derive(Clone, Copy, Debug, PartialEq, Eq, Structural)]
pub struct SourceSpan {
    pub start: usize,
    pub len: usize,
}

/// A function of evaluated arguments.
#[derive(Clone, Copy, Debug, PartialEq, Eq, Structural)]
pub enum Op {
    Add,
    Eq,
    Neq,
    Gt,
    Ge,
    Lt,
    Le,
}

/// A connective that evaluates its arguments only as far as it has to.
#[derive(Clone, Copy, Debug, PartialEq, Eq, Structural)]
pub enum LazyOp {
    And,
    Or,
    Coalesce,
}

/// Why a function could not be applied.
#[derive(Clone, Copy, Debug, PartialEq, Eq, Structural)]
pub enum OpError {
    /// The number of arguments is not the function's.
    Arity,
    /// An argument is not of a type the function takes.
    Type,
    /// The result is out of range.
    Overflow,
}

impl Op {
    pub open spec fn text(self) -> Seq<char> {
        match self {
            Op::Add => "add"@,
            Op::Eq => "eq"@,
            Op::Neq => "neq"@,
            Op::Gt => "gt"@,
            Op::Ge => "ge"@,
            Op::Lt => "lt"@,
            Op::Le => "le"@,
        }
    }

    /// What the function is called.
    pub fn name(&self) -> (r: &'static str)
        ensures
            r@ == self.text(),
    {
        match self {
            Op::Add => "add",
            Op::Eq => "eq",
            Op::Neq => "neq",
            Op::Gt => "gt",
            Op::Ge => "ge",
            Op::Lt => "lt",
            Op::Le => "le",
        }
    }
}

impl OpError {
    pub open spec fn text(self) -> Seq<char> {
        match self {
            OpError::Arity => "was given a wrong number of arguments"@,
            OpError::Type => "was given an argument of a wrong type"@,
            OpError::Overflow => "has a result that is out of range"@,
        }
    }

    /// What went wrong.
    pub fn message(&self) -> (r: &'static str)
        ensures
            r@ == self.text(),
    {
        match self {
            OpError::Arity => "was given a wrong number of arguments",
            OpError::Type => "was given an argument of a wrong type",
            OpError::Overflow => "has a result that is out of range",
        }
    }
}

/// Why an evaluation failed, and where.
#[derive(Debug, PartialEq, Eq)]
pub enum EvalError {
    /// A variable that was given no column.
    Unbound { var: String, span: SourceSpan },
    /// A variable whose column is beyond the end of the row.
    TupleTooShort { var: String, index: usize, len: usize, span: SourceSpan },
    /// A function that has no implementation.
    NoImplementation { op: String, span: SourceSpan },
    /// A function that refused its arguments.
    Raised { op: Op, cause: OpError, span: SourceSpan },
    /// A condition that is no truth value.
    PredicateType { value: DataValue, span: SourceSpan },
}

/// The mathematical form of an [`EvalError`].
pub enum EvalFault {
    Unbound { var: Seq<char>, span: SourceSpan },
    TupleTooShort { var: Seq<char>, index: usize, len: usize, span: SourceSpan },
    NoImplementation { op: Seq<char>, span: SourceSpan },
    Raised { op: Op, cause: OpError, span: SourceSpan },
    PredicateType { value: Val, span: SourceSpan },
}

impl DeepView for EvalError {
    type V = EvalFault;

    open spec fn deep_view(&self) -> EvalFault {
        match *self {
            EvalError::Unbound { var, span } => EvalFault::Unbound { var: var@, span },
            EvalError::TupleTooShort { var, index, len, span } => EvalFault::TupleTooShort {
                var: var@,
                index,
                len,
                span,
            },
            EvalError::NoImplementation { op, span } => EvalFault::NoImplementation {
                op: op@,
                span,
            },
            EvalError::Raised { op, cause, span } => EvalFault::Raised { op, cause, span },
            EvalError::PredicateType { value, span } => EvalFault::PredicateType {
                value: value.deep_view(),
                span,
            },
        }
    }
}

impl Clone for EvalError {
    fn clone(&self) -> (r: Self)
        ensures
            r.deep_view() == self.deep_view(),
    {
        match self {
            EvalError::Unbound { var, span } => EvalError::Unbound { var: var.clone(), span: *span },
            EvalError::TupleTooShort { var, index, len, span } => EvalError::TupleTooShort {
                var: var.clone(),
                index: *index,
                len: *len,
                span: *span,
            },
            EvalError::NoImplementation { op, span } => EvalError::NoImplementation {
                op: op.clone(),
                span: *span,
            },
            EvalError::Raised { op, cause, span } => EvalError::Raised {
                op: *op,
                cause: *cause,
                span: *span,
            },
            EvalError::PredicateType { value, span } => EvalError::PredicateType {
                value: value.clone(),
                span: *span,
            },
        }
    }
}

impl EvalFault {
    pub open spec fn text(self) -> Seq<char> {
        match self {
            EvalFault::Unbound { var, .. } => "The variable '"@ + var + "' is unbound"@,
            EvalFault::TupleTooShort { var, index, len, .. } => "The tuple bound by variable '"@
                + var + "' is too short: index is "@ + decimal(index as nat) + ", length is "@
                + decimal(len as nat),
            EvalFault::NoImplementation { op, .. } => "No implementation found for op `"@ + op
                + "`"@,
            EvalFault::Raised { op, cause, .. } => "Evaluation of expression failed: `"@ + op.text()
                + "` "@ + cause.text(),
            EvalFault::PredicateType { value, .. } => "Found value "@ + val_text(value)
                + " where a boolean value is expected"@,
        }
    }
}

impl EvalError {
    /// What went wrong.
    pub fn message(&self) -> (r: String)
        ensures
            r@ == self.deep_view().text(),
    {
        match self {
            EvalError::Unbound { var, .. } => {
                let mut out = join_text("The variable '", var.as_str());
                out.append("' is unbound");
                out
            },
            EvalError::TupleTooShort { var, index, len, .. } => {
                let mut out = join_text("The tuple bound by variable '", var.as_str());
                out.append("' is too short: index is ");
                write_decimal(&mut out, *index as u64);
                out.append(", length is ");
                write_decimal(&mut out, *len as u64);
                out
            },
            EvalError::NoImplementation { op, .. } => {
                let mut out = join_text("No implementation found for op `", op.as_str());
                out.append("`");
                out
            },
            EvalError::Raised { op, cause, .. } => {
                let mut out = join_text("Evaluation of expression failed: `", op.name());
                out.append("` ");
                out.append(cause.message());
                out
            },
            EvalError::PredicateType { value, .. } => {
                let mut out = "Found value ".to_string();
                write_value(&mut out, value);
                out.append(" where a boolean value is expected");
                out
            },
        }
    }
}

/// An expression.
#[derive(Debug)]
pub enum Expr {
    Binding { var: String, span: SourceSpan, tuple_pos: Option<usize> },
    Const { val: DataValue, span: SourceSpan },
    Apply { op: Op, args: Vec<Expr>, span: SourceSpan },
    Lazy { op: LazyOp, args: Vec<Expr>, span: SourceSpan },
    Cond { clauses: Vec<(Expr, Expr)>, span: SourceSpan },
    UnboundApply { op: String, args: Vec<Expr>, span: SourceSpan },
}

/// What a lazy connective makes of one more argument.
pub enum Decision {
    Continue,
    Decided(Val),
    Refused,
}

/// The effect of one argument on a lazy connective.
pub open spec fn decide(op: LazyOp, v: Val) -> Decision {
    match op {
        LazyOp::And => match v {
            Val::Bool(b) => if b {
                Decision::Continue
            } else {
                Decision::Decided(v)
            },
            _ => Decision::Refused,
        },
        LazyOp::Or => match v {
            Val::Bool(b) => if b {
                Decision::Decided(v)
            } else {
                Decision::Continue
            },
            _ => Decision::Refused,
        },
        LazyOp::Coalesce => if v is Null {
            Decision::Continue
        } else {
            Decision::Decided(v)
        },
    }
}

/// The value of a lazy connective that no argument decides.
pub open spec fn identity(op: LazyOp) -> Val {
    match op {
        LazyOp::And => Val::Bool(true),
        LazyOp::Or => Val::Bool(false),
        LazyOp::Coalesce => Val::Null,
    }
}

/// The sum of numbers, if every argument is one and the sum is in range at
/// every step.
pub open spec fn sum_of(args: Seq<Val>) -> Result<i64, OpError>
    decreases args.len(),
{
    if args.len() == 0 {
        Ok(0i64)
    } else {
        match sum_of(args.drop_last()) {
            Err(e) => Err(e),
            Ok(s) => match args.last() {
                Val::Num(n) => if i64::MIN <= s + n <= i64::MAX {
                    Ok((s + n) as i64)
                } else {
                    Err(OpError::Overflow)
                },
                _ => Err(OpError::Type),
            },
        }
    }
}

/// What a function gives for its arguments. Comparisons are between values of
/// one type.
pub open spec fn apply_op(op: Op, args: Seq<Val>) -> Result<Val, OpError> {
    match op {
        Op::Add => match sum_of(args) {
            Ok(s) => Ok(Val::Num(s)),
            Err(e) => Err(e),
        },
        _ => if args.len() != 2 {
            Err(OpError::Arity)
        } else if op is Eq {
            Ok(Val::Bool(args[0] == args[1]))
        } else if op is Neq {
            Ok(Val::Bool(args[0] != args[1]))
        } else if variant_position(args[0]) != variant_position(args[1]) {
            Err(OpError::Type)
        } else {
            Ok(
                Val::Bool(
                    match op {
                        Op::Gt => val_before(args[1], args[0]),
                        Op::Ge => args[0] == args[1] || val_before(args[1], args[0]),
                        Op::Lt => val_before(args[0], args[1]),
                        _ => args[0] == args[1] || val_before(args[0], args[1]),
                    },
                ),
            )
        },
    }
}

impl Expr {
    /// The text region of an expression.
    pub open spec fn at(self) -> SourceSpan {
        match self {
            Expr::Binding { span, .. } => span,
            Expr::Const { span, .. } => span,
            Expr::Apply { span, .. } => span,
            Expr::Lazy { span, .. } => span,
            Expr::Cond { span, .. } => span,
            Expr::UnboundApply { span, .. } => span,
        }
    }

    pub fn span(&self) -> (r: SourceSpan)
        ensures
            r == self.at(),
    {
        match self {
            Expr::Binding { span, .. } => *span,
            Expr::Const { span, .. } => *span,
            Expr::Apply { span, .. } => *span,
            Expr::Lazy { span, .. } => *span,
            Expr::Cond { span, .. } => *span,
            Expr::UnboundApply { span, .. } => *span,
        }
    }
}

/// Where the evaluation of a connective or a conditional stands.
pub enum Progress {
    Pending,
    Done(Result<Val, EvalFault>),
}

/// The value of an expression on a row, or the first error in evaluation order.
pub open spec fn eval(e: Expr, row: Row) -> Result<Val, EvalFault>
    decreases e,
{
    match e {
        Expr::Binding { var, span, tuple_pos } => match tuple_pos {
            None => Err(EvalFault::Unbound { var: var@, span }),
            Some(i) => if i < row.len() {
                Ok(row[i as int])
            } else {
                Err(
                    EvalFault::TupleTooShort {
                        var: var@,
                        index: i,
                        len: row.len() as usize,
                        span,
                    },
                )
            },
        },
        Expr::Const { val, .. } => Ok(val.deep_view()),
        Expr::Apply { op, args, span } => match eval_all(args@, row) {
            Err(err) => Err(err),
            Ok(vals) => match apply_op(op, vals) {
                Ok(v) => Ok(v),
                Err(k) => Err(EvalFault::Raised { op, cause: k, span }),
            },
        },
        Expr::Lazy { op, args, .. } => match lazy_upto(op, args@, row) {
            Progress::Pending => Ok(identity(op)),
            Progress::Done(r) => r,
        },
        Expr::Cond { clauses, .. } => match cond_upto(clauses@, row) {
            Progress::Pending => Ok(Val::Null),
            Progress::Done(r) => r,
        },
        Expr::UnboundApply { op, span, .. } => Err(EvalFault::NoImplementation { op: op@, span }),
    }
}

/// The values of expressions, in order, or the first error.
pub open spec fn eval_all(args: Seq<Expr>, row: Row) -> Result<Seq<Val>, EvalFault>
    decreases args,
{
    if args.len() == 0 {
        Ok(Seq::empty())
    } else {
        match eval_all(args.drop_last(), row) {
            Err(err) => Err(err),
            Ok(vals) => match eval(args.last(), row) {
                Err(err) => Err(err),
                Ok(v) => Ok(vals.push(v)),
            },
        }
    }
}

/// A lazy connective after its arguments.
pub open spec fn lazy_upto(op: LazyOp, args: Seq<Expr>, row: Row) -> Progress
    decreases args,
{
    if args.len() == 0 {
        Progress::Pending
    } else {
        match lazy_upto(op, args.drop_last(), row) {
            Progress::Done(r) => Progress::Done(r),
            Progress::Pending => match eval(args.last(), row) {
                Err(err) => Progress::Done(Err(err)),
                Ok(v) => match decide(op, v) {
                    Decision::Continue => Progress::Pending,
                    Decision::Decided(d) => Progress::Done(Ok(d)),
                    Decision::Refused => Progress::Done(
                        Err(EvalFault::PredicateType { value: v, span: args.last().at() }),
                    ),
                },
            },
        }
    }
}

/// A conditional after its clauses.
pub open spec fn cond_upto(clauses: Seq<(Expr, Expr)>, row: Row) -> Progress
    decreases clauses,
{
    if clauses.len() == 0 {
        Progress::Pending
    } else {
        match cond_upto(clauses.drop_last(), row) {
            Progress::Done(r) => Progress::Done(r),
            Progress::Pending => match eval(clauses.last().0, row) {
                Err(err) => Progress::Done(Err(err)),
                Ok(v) => match v {
                    Val::Bool(b) => if b {
                        Progress::Done(eval(clauses.last().1, row))
                    } else {
                        Progress::Pending
                    },
                    _ => Progress::Done(
                        Err(EvalFault::PredicateType { value: v, span: clauses.last().0.at() }),
                    ),
                },
            },
        }
    }
}

/// Once a connective is done, further arguments do not matter.
pub proof fn lemma_lazy_done(op: LazyOp, args: Seq<Expr>, k: int, row: Row)
    requires
        0 <= k <= args.len(),
        lazy_upto(op, args.take(k), row) is Done,
    ensures
        lazy_upto(op, args, row) == lazy_upto(op, args.take(k), row),
    decreases args.len() - k,
{
    if k == args.len() {
        assert(args.take(k) =~= args);
    } else {
        assert(args.take(k + 1).drop_last() =~= args.take(k));
        lemma_lazy_done(op, args, k + 1, row);
    }
}

/// Once a conditional is done, further clauses do not matter.
pub proof fn lemma_cond_done(clauses: Seq<(Expr, Expr)>, k: int, row: Row)
    requires
        0 <= k <= clauses.len(),
        cond_upto(clauses.take(k), row) is Done,
    ensures
        cond_upto(clauses, row) == cond_upto(clauses.take(k), row),
    decreases clauses.len() - k,
{
    if k == clauses.len() {
        assert(clauses.take(k) =~= clauses);
    } else {
        assert(clauses.take(k + 1).drop_last() =~= clauses.take(k));
        lemma_cond_done(clauses, k + 1, row);
    }
}

/// An argument that fails fails the whole list.
pub proof fn lemma_eval_all_fails(args: Seq<Expr>, k: int, row: Row)
    requires
        0 <= k <= args.len(),
        eval_all(args.take(k), row) is Err,
    ensures
        eval_all(args, row) == eval_all(args.take(k), row),
    decreases args.len() - k,
{
    if k == args.len() {
        assert(args.take(k) =~= args);
    } else {
        assert(args.take(k + 1).drop_last() =~= args.take(k));
        lemma_eval_all_fails(args, k + 1, row);
    }
}

/// Apply a function to evaluated arguments.
pub fn run_op(op: Op, args: &Vec<DataValue>) -> (r: Result<DataValue, OpError>)
    ensures
        match r {
            Ok(v) => apply_op(op, args.deep_view()) == Ok::<Val, OpError>(v.deep_view()),
            Err(e) => apply_op(op, args.deep_view()) == Err::<Val, OpError>(e),
        },
{
    let ghost model = args.deep_view();
    assert(model.len() == args@.len());
    match op {
        Op::Add => match add_all(args) {
            Ok(s) => Ok(DataValue::Num(s)),
            Err(e) => Err(e),
        },
        _ => {
            if args.len() != 2 {
                return Err(OpError::Arity);
            }
            let a = &args[0];
            let b = &args[1];
            assert(model[0] == a.deep_view() && model[1] == b.deep_view());
            match op {
                Op::Eq => Ok(DataValue::Bool(same_value(a, b))),
                Op::Neq => Ok(DataValue::Bool(!same_value(a, b))),
                _ => {
                    if !same_type(a, b) {
                        return Err(OpError::Type);
                    }
                    let rank = rank_values(a, b);
                    proof {
                        crate::value::lemma_val_total(a.deep_view(), b.deep_view());
                        crate::value::lemma_val_irreflexive(a.deep_view());
                        if val_before(a.deep_view(), b.deep_view()) && val_before(
                            b.deep_view(),
                            a.deep_view(),
                        ) {
                            crate::value::lemma_val_transitive(
                                a.deep_view(),
                                b.deep_view(),
                                a.deep_view(),
                            );
                        }
                    }
                    let b = match op {
                        Op::Gt => matches!(rank, Rank::After),
                        Op::Ge => !matches!(rank, Rank::Before),
                        Op::Lt => matches!(rank, Rank::Before),
                        _ => !matches!(rank, Rank::After),
                    };
                    Ok(DataValue::Bool(b))
                },
            }
        },
    }
}

fn same_type(a: &DataValue, b: &DataValue) -> (r: bool)
    ensures
        r == (variant_position(a.deep_view()) == variant_position(b.deep_view())),
{
    match (a, b) {
        (DataValue::Null, DataValue::Null) => true,
        (DataValue::Bool(_), DataValue::Bool(_)) => true,
        (DataValue::Num(_), DataValue::Num(_)) => true,
        (DataValue::Str(_), DataValue::Str(_)) => true,
        (DataValue::List(_), DataValue::List(_)) => true,
        (DataValue::Members(_), DataValue::Members(_)) => true,
        (DataValue::Validity(_), DataValue::Validity(_)) => true,
        (DataValue::Interval(_), DataValue::Interval(_)) => true,
        (DataValue::Bot, DataValue::Bot) => true,
        _ => false,
    }
}

fn add_all(args: &Vec<DataValue>) -> (r: Result<i64, OpError>)
    ensures
        r == sum_of(args.deep_view()),
{
    let ghost model = args.deep_view();
    let mut sum: i64 = 0;
    let mut i: usize = 0;
    assert(model.take(0) =~= Seq::<Val>::empty());
    while i < args.len()
        invariant
            i <= args@.len(),
            model == args.deep_view(),
            sum_of(model.take(i as int)) == Ok::<i64, OpError>(sum),
        decreases args.len() - i,
    {
        proof {
            assert(model.take(i + 1).drop_last() =~= model.take(i as int));
            assert(model.take(i + 1).last() == model[i as int]);
        }
        match &args[i] {
            DataValue::Num(n) => match sum.checked_add(*n) {
                Some(s) => {
                    sum = s;
                },
                None => {
                    proof {
                        lemma_sum_fails(model, i + 1);
                    }
                    return Err(OpError::Overflow);
                },
            },
            _ => {
                proof {
                    lemma_sum_fails(model, i + 1);
                }
                return Err(OpError::Type);
            },
        }
        i = i + 1;
    }
    assert(model.take(i as int) =~= model);
    Ok(sum)
}

proof fn lemma_sum_fails(args: Seq<Val>, k: int)
    requires
        0 <= k <= args.len(),
        sum_of(args.take(k)) is Err,
    ensures
        sum_of(args) == sum_of(args.take(k)),
    decreases args.len() - k,
{
    if k == args.len() {
        assert(args.take(k) =~= args);
    } else {
        assert(args.take(k + 1).drop_last() =~= args.take(k));
        lemma_sum_fails(args, k + 1);
    }
}

/// What a lazy connective makes of one more argument.
pub enum Verdict {
    Continue,
    Decided(DataValue),
    Refused,
}

/// The effect of one argument on a lazy connective.
pub fn decide_value(op: LazyOp, v: &DataValue) -> (r: Verdict)
    ensures
        match r {
            Verdict::Continue => decide(op, v.deep_view()) is Continue,
            Verdict::Decided(d) => decide(op, v.deep_view()) == Decision::Decided(d.deep_view()),
            Verdict::Refused => decide(op, v.deep_view()) is Refused,
        },
{
    match op {
        LazyOp::And => match v {
            DataValue::Bool(b) => if *b {
                Verdict::Continue
            } else {
                Verdict::Decided(DataValue::Bool(false))
            },
            _ => Verdict::Refused,
        },
        LazyOp::Or => match v {
            DataValue::Bool(b) => if *b {
                Verdict::Decided(DataValue::Bool(true))
            } else {
                Verdict::Continue
            },
            _ => Verdict::Refused,
        },
        LazyOp::Coalesce => match v {
            DataValue::Null => Verdict::Continue,
            _ => Verdict::Decided(v.clone()),
        },
    }
}

/// The value of a lazy connective that no argument decides.
pub fn identity_value(op: LazyOp) -> (r: DataValue)
    ensures
        r.deep_view() == identity(op),
{
    match op {
        LazyOp::And => DataValue::Bool(true),
        LazyOp::Or => DataValue::Bool(false),
        LazyOp::Coalesce => DataValue::Null,
    }
}

/// A result and its model agree.
pub open spec fn agrees(r: Result<DataValue, EvalError>, m: Result<Val, EvalFault>) -> bool {
    match r {
        Ok(v) => m == Ok::<Val, EvalFault>(v.deep_view()),
        Err(e) => m == Err::<Val, EvalFault>(e.deep_view()),
    }
}

/// Evaluate an expression on one row.
pub fn eval_row(e: &Expr, row: &Tuple) -> (r: Result<DataValue, EvalError>)
    ensures
        agrees(r, eval(*e, row.deep_view())),
    decreases e,
{
    match e {
        Expr::Binding { var, span, tuple_pos } => match tuple_pos {
            None => Err(EvalError::Unbound { var: var.clone(), span: *span }),
            Some(i) => if *i < row.len() {
                Ok(row[*i].clone())
            } else {
                Err(
                    EvalError::TupleTooShort {
                        var: var.clone(),
                        index: *i,
                        len: row.len(),
                        span: *span,
                    },
                )
            },
        },
        Expr::Const { val, .. } => Ok(val.clone()),
        Expr::Apply { op, args, span } => {
            let vals = eval_row_all(args, row)?;
            match run_op(*op, &vals) {
                Ok(v) => Ok(v),
                Err(k) => Err(EvalError::Raised { op: *op, cause: k, span: *span }),
            }
        },
        Expr::Lazy { op, args, .. } => eval_row_lazy(*op, args, row),
        Expr::Cond { clauses, .. } => eval_row_cond(clauses, row),
        Expr::UnboundApply { op, span, .. } => Err(
            EvalError::NoImplementation { op: op.clone(), span: *span },
        ),
    }
}

fn eval_row_all(args: &Vec<Expr>, row: &Tuple) -> (r: Result<Vec<DataValue>, EvalError>)
    ensures
        match r {
            Ok(vs) => eval_all(args@, row.deep_view()) == Ok::<Seq<Val>, EvalFault>(vs.deep_view()),
            Err(e) => eval_all(args@, row.deep_view()) == Err::<Seq<Val>, EvalFault>(e.deep_view()),
        },
    decreases args,
{
    let ghost m = row.deep_view();
    let mut out: Vec<DataValue> = Vec::new();
    let mut i: usize = 0;
    assert(args@.take(0) =~= Seq::<Expr>::empty());
    assert(out.deep_view() =~= Seq::<Val>::empty());
    while i < args.len()
        invariant
            i <= args@.len(),
            m == row.deep_view(),
            eval_all(args@.take(i as int), m) == Ok::<Seq<Val>, EvalFault>(out.deep_view()),
        decreases args.len() - i,
    {
        proof {
            assert(args@.take(i + 1).drop_last() =~= args@.take(i as int));
            assert(args@.take(i + 1).last() == args@[i as int]);
        }
        let ghost prev = out.deep_view();
        match eval_row(&args[i], row) {
            Ok(v) => {
                let ghost vm = v.deep_view();
                out.push(v);
                assert(out.deep_view() =~= prev.push(vm));
            },
            Err(e) => {
                proof {
                    lemma_eval_all_fails(args@, i + 1, m);
                }
                return Err(e);
            },
        }
        i = i + 1;
    }
    assert(args@.take(i as int) =~= args@);
    Ok(out)
}

fn eval_row_lazy(op: LazyOp, args: &Vec<Expr>, row: &Tuple) -> (r: Result<DataValue, EvalError>)
    ensures
        agrees(
            r,
            match lazy_upto(op, args@, row.deep_view()) {
                Progress::Pending => Ok(identity(op)),
                Progress::Done(d) => d,
            },
        ),
    decreases args,
{
    let ghost m = row.deep_view();
    let mut i: usize = 0;
    assert(args@.take(0) =~= Seq::<Expr>::empty());
    while i < args.len()
        invariant
            i <= args@.len(),
            m == row.deep_view(),
            lazy_upto(op, args@.take(i as int), m) is Pending,
        decreases args.len() - i,
    {
        proof {
            assert(args@.take(i + 1).drop_last() =~= args@.take(i as int));
            assert(args@.take(i + 1).last() == args@[i as int]);
        }
        match eval_row(&args[i], row) {
            Err(e) => {
                proof {
                    lemma_lazy_done(op, args@, i + 1, m);
                }
                return Err(e);
            },
            Ok(v) => match decide_value(op, &v) {
                Verdict::Continue => {},
                Verdict::Decided(d) => {
                    proof {
                        lemma_lazy_done(op, args@, i + 1, m);
                    }
                    return Ok(d);
                },
                Verdict::Refused => {
                    proof {
                        lemma_lazy_done(op, args@, i + 1, m);
                    }
                    return Err(EvalError::PredicateType { value: v, span: args[i].span() });
                },
            },
        }
        i = i + 1;
    }
    assert(args@.take(i as int) =~= args@);
    Ok(identity_value(op))
}

fn eval_row_cond(clauses: &Vec<(Expr, Expr)>, row: &Tuple) -> (r: Result<DataValue, EvalError>)
    ensures
        agrees(
            r,
            match cond_upto(clauses@, row.deep_view()) {
                Progress::Pending => Ok(Val::Null),
                Progress::Done(d) => d,
            },
        ),
    decreases clauses,
{
    let ghost m = row.deep_view();
    let mut i: usize = 0;
    assert(clauses@.take(0) =~= Seq::<(Expr, Expr)>::empty());
    while i < clauses.len()
        invariant
            i <= clauses@.len(),
            m == row.deep_view(),
            cond_upto(clauses@.take(i as int), m) is Pending,
        decreases clauses.len() - i,
    {
        proof {
            assert(clauses@.take(i + 1).drop_last() =~= clauses@.take(i as int));
            assert(clauses@.take(i + 1).last() == clauses@[i as int]);
        }
        match eval_row(&clauses[i].0, row) {
            Err(e) => {
                proof {
                    lemma_cond_done(clauses@, i + 1, m);
                }
                return Err(e);
            },
            Ok(v) => match &v {
                DataValue::Bool(b) => if *b {
                    proof {
                        lemma_cond_done(clauses@, i + 1, m);
                    }
                    return eval_row(&clauses[i].1, row);
                },
                _ => {
                    proof {
                        lemma_cond_done(clauses@, i + 1, m);
                    }
                    return Err(EvalError::PredicateType { value: v, span: clauses[i].0.span() });
                },
            },
        }
        i = i + 1;
    }
    assert(clauses@.take(i as int) =~= clauses@);
    Ok(DataValue::Null)
}

} // verus!
