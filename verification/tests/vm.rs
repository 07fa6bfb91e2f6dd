//! Expressions evaluated by column give what they give row by row.

use kyzo_query::expr::{eval_row, EvalError, Expr, LazyOp, Op, OpError, SourceSpan};
use kyzo_query::value::{DataValue, Tuple};
use kyzo_query::vm::{eval_expr_batched, eval_pred_batched, select_all, ColumnBatch};

fn sp() -> SourceSpan {
    SourceSpan { start: 0, len: 0 }
}

fn v(i: i64) -> DataValue {
    DataValue::Num(i)
}

fn s(x: &str) -> DataValue {
    DataValue::Str(x.to_string())
}

fn cnst(val: DataValue) -> Expr {
    Expr::Const { val, span: sp() }
}

fn binding(pos: usize) -> Expr {
    Expr::Binding {
        var: "c".to_string(),
        span: sp(),
        tuple_pos: Some(pos),
    }
}

fn apply(op: Op, args: Vec<Expr>) -> Expr {
    Expr::Apply {
        op,
        args,
        span: sp(),
    }
}

fn by_rows(expr: &Expr, rows: &[Tuple]) -> Result<Vec<DataValue>, EvalError> {
    rows.iter().map(|row| eval_row(expr, row)).collect()
}

fn differential(expr: &Expr, rows: &Vec<Tuple>) -> Result<Vec<DataValue>, EvalError> {
    let width = rows.first().map_or(0, Vec::len);
    let batch = ColumnBatch::from_rows(rows, width);
    let batched = eval_expr_batched(expr, &batch, &select_all(rows.len()));
    assert_eq!(batched, by_rows(expr, rows), "{expr:?}");
    batched
}

#[test]
fn straight_line_matches_rows() {
    let rows: Vec<Tuple> = (0..10).map(|i| vec![v(i), v(i * 2)]).collect();
    let sums = differential(&apply(Op::Add, vec![binding(0), binding(1)]), &rows).unwrap();
    assert_eq!(sums, (0..10).map(|i| v(i * 3)).collect::<Vec<_>>());
    let same = differential(&apply(Op::Eq, vec![binding(0), cnst(v(4))]), &rows).unwrap();
    assert_eq!(same[4], DataValue::Bool(true));
    assert_eq!(same[5], DataValue::Bool(false));
}

#[test]
fn guard_short_circuits_per_row() {
    let guard = Expr::Lazy {
        op: LazyOp::And,
        args: vec![
            apply(Op::Gt, vec![binding(0), cnst(v(0))]),
            apply(
                Op::Gt,
                vec![apply(Op::Add, vec![binding(1), cnst(v(1))]), cnst(v(0))],
            ),
        ],
        span: sp(),
    };
    let rows = vec![vec![v(0), s("poison")], vec![v(1), v(5)]];
    let got = differential(&guard, &rows).unwrap();
    assert_eq!(got, vec![DataValue::Bool(false), DataValue::Bool(true)]);
    // A live row does reach the poison.
    let rows = vec![vec![v(1), s("poison")], vec![v(1), v(5)]];
    assert_eq!(
        differential(&guard, &rows),
        Err(raised(Op::Add, OpError::Type))
    );
}

#[test]
fn error_identity_is_first_failing_row() {
    let expr = apply(Op::Add, vec![binding(0), cnst(v(1))]);
    let rows = vec![vec![v(1)], vec![s("a")], vec![v(2)], vec![s("b")]];
    assert!(differential(&expr, &rows).is_err());
    // Two rows that fail differently: the first one's error stands.
    let rows = vec![vec![v(1)], vec![v(i64::MAX)], vec![s("b")]];
    assert_eq!(
        differential(&expr, &rows),
        Err(raised(Op::Add, OpError::Overflow))
    );
}

#[test]
fn cond_partitions_and_stitches_in_row_order() {
    let cond = Expr::Cond {
        clauses: vec![
            (
                apply(Op::Gt, vec![binding(0), cnst(v(5))]),
                apply(Op::Add, vec![binding(0), cnst(v(100))]),
            ),
            (cnst(DataValue::Bool(true)), binding(0)),
        ],
        span: sp(),
    };
    let rows: Vec<Tuple> = (0..12).map(|i| vec![v(i)]).collect();
    let got = differential(&cond, &rows).unwrap();
    let want: Vec<DataValue> = (0..12).map(|i| v(if i > 5 { i + 100 } else { i })).collect();
    assert_eq!(got, want);
}

fn next(rng: &mut u64) -> u64 {
    *rng = rng
        .wrapping_mul(6364136223846793005)
        .wrapping_add(1442695040888963407);
    *rng >> 33
}

fn gen_expr(rng: &mut u64, depth: usize) -> Expr {
    let choice = next(rng) % if depth == 0 { 3 } else { 6 };
    match choice {
        0 => cnst(v((next(rng) % 7) as i64)),
        1 | 2 => binding((next(rng) % 2) as usize),
        3 => {
            let op = if next(rng) % 2 == 0 { Op::Add } else { Op::Gt };
            let a = gen_expr(rng, depth - 1);
            let b = gen_expr(rng, depth - 1);
            apply(op, vec![a, b])
        }
        4 => {
            let op = match next(rng) % 3 {
                0 => LazyOp::And,
                1 => LazyOp::Or,
                _ => LazyOp::Coalesce,
            };
            let a = gen_expr(rng, depth - 1);
            let b = gen_expr(rng, depth - 1);
            Expr::Lazy {
                op,
                args: vec![a, b],
                span: sp(),
            }
        }
        _ => {
            let test = gen_expr(rng, depth - 1);
            let yes = gen_expr(rng, depth - 1);
            let other = gen_expr(rng, depth - 1);
            Expr::Cond {
                clauses: vec![(test, yes), (cnst(DataValue::Bool(true)), other)],
                span: sp(),
            }
        }
    }
}

fn gen_val(rng: &mut u64) -> DataValue {
    match next(rng) % 8 {
        0 => s("poison"),
        1 => DataValue::Null,
        2 => DataValue::Bool(true),
        3 => DataValue::Bool(false),
        n => v(n as i64 - 4),
    }
}

#[test]
fn seeded_random_expressions_match_rows() {
    let mut rng: u64 = 0x5EED_C011;
    let (mut values, mut errors) = (0usize, 0usize);
    for _case in 0..500 {
        let expr = gen_expr(&mut rng, 3);
        let rows: Vec<Tuple> = (0..9)
            .map(|_| vec![gen_val(&mut rng), gen_val(&mut rng)])
            .collect();
        match differential(&expr, &rows) {
            Ok(_) => values += 1,
            Err(_) => errors += 1,
        }
    }
    assert!(values > 0 && errors > 0, "{values} values, {errors} errors");
}

#[test]
fn a_predicate_keeps_the_rows_it_holds_on() {
    let rows: Vec<Tuple> = (0..6).map(|i| vec![v(i)]).collect();
    let batch = ColumnBatch::from_rows(&rows, 1);
    let above = apply(Op::Gt, vec![binding(0), cnst(v(3))]);
    assert_eq!(
        eval_pred_batched(&above, &batch, &select_all(6)),
        Ok(vec![4, 5])
    );
    assert_eq!(eval_pred_batched(&above, &batch, &vec![1, 5]), Ok(vec![5]));
    assert_eq!(
        eval_pred_batched(&binding(0), &batch, &select_all(6)),
        Err(EvalError::PredicateType {
            value: v(0),
            span: sp()
        })
    );
}

fn raised(op: Op, cause: OpError) -> EvalError {
    EvalError::Raised {
        op,
        cause,
        span: sp(),
    }
}

#[test]
fn each_evaluation_error_says_what_failed() {
    let short = EvalError::TupleTooShort {
        var: "x".to_string(),
        index: 10,
        len: 9,
        span: sp(),
    };
    assert_eq!(
        short.message(),
        "The tuple bound by variable 'x' is too short: index is 10, length is 9"
    );
    let missing = EvalError::NoImplementation {
        op: "frobnicate".to_string(),
        span: sp(),
    };
    assert_eq!(missing.message(), "No implementation found for op `frobnicate`");
    assert_eq!(
        raised(Op::Add, OpError::Overflow).message(),
        "Evaluation of expression failed: `add` has a result that is out of range"
    );
    let value = EvalError::PredicateType {
        value: DataValue::List(vec![v(-1), s("a"), DataValue::Null, DataValue::Bool(true)]),
        span: sp(),
    };
    assert_eq!(
        value.message(),
        "Found value [-1, \"a\", null, true] where a boolean value is expected"
    );
    assert_eq!(value.clone(), value);
    assert_eq!(short.clone(), short);
}

#[test]
fn a_connective_reports_the_value_it_cannot_take() {
    let rows: Vec<Tuple> = vec![vec![DataValue::Bool(true)], vec![v(7)]];
    let both = Expr::Lazy {
        op: LazyOp::And,
        args: vec![binding(0), cnst(DataValue::Bool(true))],
        span: sp(),
    };
    let refused = Err(EvalError::PredicateType {
        value: v(7),
        span: sp(),
    });
    assert_eq!(differential(&both, &rows), refused);
    let cond = Expr::Cond {
        clauses: vec![(binding(0), cnst(v(1)))],
        span: sp(),
    };
    assert_eq!(differential(&cond, &rows), refused);
}

#[test]
fn each_evaluation_error_has_an_input() {
    let row: Tuple = vec![v(1)];
    let unbound = Expr::Binding {
        var: "c".to_string(),
        span: sp(),
        tuple_pos: None,
    };
    assert_eq!(
        eval_row(&unbound, &row),
        Err(EvalError::Unbound {
            var: "c".to_string(),
            span: sp()
        })
    );
    assert_eq!(
        eval_row(&binding(3), &row),
        Err(EvalError::TupleTooShort {
            var: "c".to_string(),
            index: 3,
            len: 1,
            span: sp()
        })
    );
    let missing = Expr::UnboundApply {
        op: "frobnicate".to_string(),
        args: vec![],
        span: sp(),
    };
    assert_eq!(
        eval_row(&missing, &row),
        Err(EvalError::NoImplementation {
            op: "frobnicate".to_string(),
            span: sp()
        })
    );
    assert_eq!(
        eval_row(&apply(Op::Add, vec![cnst(s("a")), cnst(v(1))]), &row),
        Err(raised(Op::Add, OpError::Type))
    );
    assert_eq!(
        eval_row(&apply(Op::Gt, vec![cnst(v(1))]), &row),
        Err(raised(Op::Gt, OpError::Arity))
    );
    assert_eq!(
        eval_row(&apply(Op::Add, vec![cnst(v(i64::MAX)), cnst(v(1))]), &row),
        Err(raised(Op::Add, OpError::Overflow))
    );
}

#[test]
fn a_predicate_fails_on_its_first_failing_row() {
    let rows: Vec<Tuple> = vec![vec![v(1)], vec![s("a")]];
    let batch = ColumnBatch::from_rows(&rows, 1);
    // On the first row the predicate is no truth value; on the second it raises.
    let sum = apply(Op::Add, vec![binding(0), cnst(v(1))]);
    assert_eq!(
        eval_pred_batched(&sum, &batch, &select_all(2)),
        Err(EvalError::PredicateType {
            value: v(2),
            span: sp()
        })
    );
    assert_eq!(
        eval_pred_batched(&sum, &batch, &vec![1]),
        Err(raised(Op::Add, OpError::Type))
    );
}

#[test]
fn an_ill_bound_expression_fails_only_on_a_row() {
    let unbound = Expr::Binding {
        var: "c".to_string(),
        span: sp(),
        tuple_pos: None,
    };
    let none = ColumnBatch::from_rows(&vec![], 1);
    assert_eq!(eval_expr_batched(&unbound, &none, &vec![]), Ok(vec![]));
    assert_eq!(eval_pred_batched(&unbound, &none, &vec![]), Ok(vec![]));
    let one = ColumnBatch::from_rows(&vec![vec![v(1)]], 1);
    assert_eq!(
        eval_expr_batched(&unbound, &one, &select_all(1)),
        Err(EvalError::Unbound {
            var: "c".to_string(),
            span: sp()
        })
    );
    // A guard that no row passes keeps the rest from being looked at.
    let guarded = Expr::Lazy {
        op: LazyOp::And,
        args: vec![cnst(DataValue::Bool(false)), unbound],
        span: sp(),
    };
    assert_eq!(
        eval_expr_batched(&guarded, &one, &select_all(1)),
        Ok(vec![DataValue::Bool(false)])
    );
}
