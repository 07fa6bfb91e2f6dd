//! Names inside expressions: which ones an expression mentions, what it means
//! over a frame of names, and the step that gives every name its place.

use vstd::prelude::*;
use crate::expr::{
    apply_op, decide, eval, eval_all, cond_upto, identity, lazy_upto, Decision, EvalError,
    EvalFault, Expr, LazyOp, Progress, SourceSpan,
};
use crate::names::{last_place, names, place_in, Name};
use crate::value::{Row, Val};

verus! {

/// What a name stands for.
pub type Look = spec_fn(Name, SourceSpan) -> Result<Val, EvalFault>;

/// The value of an expression whose names stand for the given values.
pub open spec fn eval_by(e: Expr, look: Look) -> Result<Val, EvalFault>
    decreases e,
{
    match e {
        Expr::Binding { var, span, .. } => look(var@, span),
        Expr::Const { val, .. } => Ok(val.deep_view()),
        Expr::Apply { op, args, span } => match eval_all_by(args@, look) {
            Err(err) => Err(err),
            Ok(vals) => match apply_op(op, vals) {
                Ok(v) => Ok(v),
                Err(k) => Err(EvalFault::Raised { op, cause: k, span }),
            },
        },
        Expr::Lazy { op, args, .. } => match lazy_by(op, args@, look) {
            Progress::Pending => Ok(identity(op)),
            Progress::Done(r) => r,
        },
        Expr::Cond { clauses, .. } => match cond_by(clauses@, look) {
            Progress::Pending => Ok(Val::Null),
            Progress::Done(r) => r,
        },
        Expr::UnboundApply { op, span, .. } => Err(EvalFault::NoImplementation { op: op@, span }),
    }
}

pub open spec fn eval_all_by(args: Seq<Expr>, look: Look) -> Result<Seq<Val>, EvalFault>
    decreases args,
{
    if args.len() == 0 {
        Ok(Seq::empty())
    } else {
        match eval_all_by(args.drop_last(), look) {
            Err(err) => Err(err),
            Ok(vals) => match eval_by(args.last(), look) {
                Err(err) => Err(err),
                Ok(v) => Ok(vals.push(v)),
            },
        }
    }
}

pub open spec fn lazy_by(op: LazyOp, args: Seq<Expr>, look: Look) -> Progress
    decreases args,
{
    if args.len() == 0 {
        Progress::Pending
    } else {
        match lazy_by(op, args.drop_last(), look) {
            Progress::Done(r) => Progress::Done(r),
            Progress::Pending => match eval_by(args.last(), look) {
                Err(err) => Progress::Done(Err(err)),
                Ok(v) => match decide(op, v) {
                    Decision::Continue => Progress::Pending,
                    Decision::Decided(d) => Progress::Done(Ok(d)),
                    Decision::Refused => Progress::Done(
                        Err(EvalFault::PredicateType { value: v, span: args.last().at() }),
                    ),
                },
            },
        }
    }
}

pub open spec fn cond_by(clauses: Seq<(Expr, Expr)>, look: Look) -> Progress
    decreases clauses,
{
    if clauses.len() == 0 {
        Progress::Pending
    } else {
        match cond_by(clauses.drop_last(), look) {
            Progress::Done(r) => Progress::Done(r),
            Progress::Pending => match eval_by(clauses.last().0, look) {
                Err(err) => Progress::Done(Err(err)),
                Ok(v) => match v {
                    Val::Bool(b) => if b {
                        Progress::Done(eval_by(clauses.last().1, look))
                    } else {
                        Progress::Pending
                    },
                    _ => Progress::Done(
                        Err(EvalFault::PredicateType { value: v, span: clauses.last().0.at() }),
                    ),
                },
            },
        }
    }
}

/// Names stand for the columns of a row at their places in a frame.
pub open spec fn by_name(frame: Seq<Name>, row: Row) -> Look {
    |n: Name, span: SourceSpan|
        match last_place(frame, n) {
            None => Err(EvalFault::Unbound { var: n, span }),
            Some(p) => if p < row.len() {
                Ok(row[p])
            } else {
                Err(
                    EvalFault::TupleTooShort {
                        var: n,
                        index: p as usize,
                        len: row.len() as usize,
                        span,
                    },
                )
            },
        }
}

/// The value of an expression on a row of a frame.
pub open spec fn eval_named(e: Expr, frame: Seq<Name>, row: Row) -> Result<Val, EvalFault> {
    eval_by(e, by_name(frame, row))
}

/// Whether a name occurs in an expression.
pub open spec fn mentions(e: Expr, n: Name) -> bool
    decreases e,
{
    match e {
        Expr::Binding { var, .. } => var@ == n,
        Expr::Const { .. } => false,
        Expr::Apply { args, .. } => mention_any(args@, n),
        Expr::Lazy { args, .. } => mention_any(args@, n),
        Expr::Cond { clauses, .. } => mention_clause(clauses@, n),
        Expr::UnboundApply { args, .. } => mention_any(args@, n),
    }
}

pub open spec fn mention_any(args: Seq<Expr>, n: Name) -> bool
    decreases args,
{
    if args.len() == 0 {
        false
    } else {
        mention_any(args.drop_last(), n) || mentions(args.last(), n)
    }
}

pub open spec fn mention_clause(clauses: Seq<(Expr, Expr)>, n: Name) -> bool
    decreases clauses,
{
    if clauses.len() == 0 {
        false
    } else {
        mention_clause(clauses.drop_last(), n) || mentions(clauses.last().0, n) || mentions(
            clauses.last().1,
            n,
        )
    }
}

/// An expression only depends on what its names stand for.
pub proof fn lemma_eval_agree(e: Expr, f: Look, g: Look)
    requires
        forall|n: Name, s: SourceSpan| mentions(e, n) ==> #[trigger] f(n, s) == g(n, s),
    ensures
        eval_by(e, f) == eval_by(e, g),
    decreases e,
{
    match e {
        Expr::Binding { var, .. } => {
            assert(mentions(e, var@));
        },
        Expr::Const { .. } => {},
        Expr::Apply { args, .. } => {
            lemma_all_agree(args@, f, g);
        },
        Expr::Lazy { op, args, .. } => {
            lemma_lazy_agree(op, args@, f, g);
        },
        Expr::Cond { clauses, .. } => {
            lemma_cond_agree(clauses@, f, g);
        },
        Expr::UnboundApply { .. } => {},
    }
}

proof fn lemma_all_agree(args: Seq<Expr>, f: Look, g: Look)
    requires
        forall|n: Name, s: SourceSpan| mention_any(args, n) ==> #[trigger] f(n, s) == g(n, s),
    ensures
        eval_all_by(args, f) == eval_all_by(args, g),
    decreases args,
{
    if args.len() > 0 {
        lemma_all_agree(args.drop_last(), f, g);
        lemma_eval_agree(args.last(), f, g);
    }
}

proof fn lemma_lazy_agree(op: LazyOp, args: Seq<Expr>, f: Look, g: Look)
    requires
        forall|n: Name, s: SourceSpan| mention_any(args, n) ==> #[trigger] f(n, s) == g(n, s),
    ensures
        lazy_by(op, args, f) == lazy_by(op, args, g),
    decreases args,
{
    if args.len() > 0 {
        lemma_lazy_agree(op, args.drop_last(), f, g);
        lemma_eval_agree(args.last(), f, g);
    }
}

proof fn lemma_cond_agree(clauses: Seq<(Expr, Expr)>, f: Look, g: Look)
    requires
        forall|n: Name, s: SourceSpan| mention_clause(clauses, n) ==> #[trigger] f(n, s) == g(n, s),
    ensures
        cond_by(clauses, f) == cond_by(clauses, g),
    decreases clauses,
{
    if clauses.len() > 0 {
        lemma_cond_agree(clauses.drop_last(), f, g);
        lemma_eval_agree(clauses.last().0, f, g);
        lemma_eval_agree(clauses.last().1, f, g);
    }
}

/// Two expressions that differ at most in the places of their names.
pub open spec fn alike(a: Expr, b: Expr) -> bool
    decreases a,
{
    &&& a.at() == b.at()
    &&& match (a, b) {
        (Expr::Binding { var: v, .. }, Expr::Binding { var: w, .. }) => v@ == w@,
        (Expr::Const { val: v, .. }, Expr::Const { val: w, .. }) => v.deep_view() == w.deep_view(),
        (Expr::Apply { op: o, args: x, .. }, Expr::Apply { op: p, args: y, .. }) => o == p
            && alike_all(x@, y@),
        (Expr::Lazy { op: o, args: x, .. }, Expr::Lazy { op: p, args: y, .. }) => o == p
            && alike_all(x@, y@),
        (Expr::Cond { clauses: x, .. }, Expr::Cond { clauses: y, .. }) => alike_clauses(x@, y@),
        (
            Expr::UnboundApply { op: o, args: x, .. },
            Expr::UnboundApply { op: p, args: y, .. },
        ) => o@ == p@ && alike_all(x@, y@),
        _ => false,
    }
}

pub open spec fn alike_all(a: Seq<Expr>, b: Seq<Expr>) -> bool
    decreases a,
{
    &&& a.len() == b.len()
    &&& a.len() > 0 ==> alike_all(a.drop_last(), b.drop_last()) && alike(a.last(), b.last())
}

pub open spec fn alike_clauses(a: Seq<(Expr, Expr)>, b: Seq<(Expr, Expr)>) -> bool
    decreases a,
{
    &&& a.len() == b.len()
    &&& a.len() > 0 ==> alike_clauses(a.drop_last(), b.drop_last()) && alike(
        a.last().0,
        b.last().0,
    ) && alike(a.last().1, b.last().1)
}

/// Alike expressions have the same value.
pub proof fn lemma_alike(a: Expr, b: Expr, look: Look)
    requires
        alike(a, b),
    ensures
        eval_by(a, look) == eval_by(b, look),
        a.at() == b.at(),
    decreases a,
{
    match (a, b) {
        (Expr::Apply { args: x, .. }, Expr::Apply { args: y, .. }) => {
            lemma_alike_all(x@, y@, look);
        },
        (Expr::Lazy { op, args: x, .. }, Expr::Lazy { args: y, .. }) => {
            lemma_alike_lazy(op, x@, y@, look);
        },
        (Expr::Cond { clauses: x, .. }, Expr::Cond { clauses: y, .. }) => {
            lemma_alike_clauses(x@, y@, look);
        },
        _ => {},
    }
}

proof fn lemma_alike_all(a: Seq<Expr>, b: Seq<Expr>, look: Look)
    requires
        alike_all(a, b),
    ensures
        eval_all_by(a, look) == eval_all_by(b, look),
    decreases a,
{
    if a.len() > 0 {
        lemma_alike_all(a.drop_last(), b.drop_last(), look);
        lemma_alike(a.last(), b.last(), look);
    }
}

proof fn lemma_alike_lazy(op: LazyOp, a: Seq<Expr>, b: Seq<Expr>, look: Look)
    requires
        alike_all(a, b),
    ensures
        lazy_by(op, a, look) == lazy_by(op, b, look),
    decreases a,
{
    if a.len() > 0 {
        lemma_alike_lazy(op, a.drop_last(), b.drop_last(), look);
        lemma_alike(a.last(), b.last(), look);
    }
}

proof fn lemma_alike_clauses(a: Seq<(Expr, Expr)>, b: Seq<(Expr, Expr)>, look: Look)
    requires
        alike_clauses(a, b),
    ensures
        cond_by(a, look) == cond_by(b, look),
    decreases a,
{
    if a.len() > 0 {
        lemma_alike_clauses(a.drop_last(), b.drop_last(), look);
        lemma_alike(a.last().0, b.last().0, look);
        lemma_alike(a.last().1, b.last().1, look);
    }
}

/// Every name of an expression has its place in a frame.
pub open spec fn placed(e: Expr, frame: Seq<Name>) -> bool
    decreases e,
{
    match e {
        Expr::Binding { var, tuple_pos, .. } => tuple_pos is Some && last_place(frame, var@)
            == Some(tuple_pos->Some_0 as int),
        Expr::Const { .. } => true,
        Expr::Apply { args, .. } => placed_all(args@, frame),
        Expr::Lazy { args, .. } => placed_all(args@, frame),
        Expr::Cond { clauses, .. } => placed_clauses(clauses@, frame),
        Expr::UnboundApply { .. } => false,
    }
}

pub open spec fn placed_all(args: Seq<Expr>, frame: Seq<Name>) -> bool
    decreases args,
{
    args.len() > 0 ==> placed_all(args.drop_last(), frame) && placed(args.last(), frame)
}

pub open spec fn placed_clauses(clauses: Seq<(Expr, Expr)>, frame: Seq<Name>) -> bool
    decreases clauses,
{
    clauses.len() > 0 ==> placed_clauses(clauses.drop_last(), frame) && placed(
        clauses.last().0,
        frame,
    ) && placed(clauses.last().1, frame)
}

/// Reading columns by place is reading them by name.
pub proof fn lemma_placed(e: Expr, frame: Seq<Name>, row: Row)
    requires
        placed(e, frame),
    ensures
        eval(e, row) == eval_named(e, frame, row),
    decreases e,
{
    match e {
        Expr::Apply { args, .. } => {
            lemma_placed_all(args@, frame, row);
        },
        Expr::Lazy { op, args, .. } => {
            lemma_placed_lazy(op, args@, frame, row);
        },
        Expr::Cond { clauses, .. } => {
            lemma_placed_clauses(clauses@, frame, row);
        },
        _ => {},
    }
}

proof fn lemma_placed_all(args: Seq<Expr>, frame: Seq<Name>, row: Row)
    requires
        placed_all(args, frame),
    ensures
        eval_all(args, row) == eval_all_by(args, by_name(frame, row)),
    decreases args,
{
    if args.len() > 0 {
        lemma_placed_all(args.drop_last(), frame, row);
        lemma_placed(args.last(), frame, row);
    }
}

proof fn lemma_placed_lazy(op: LazyOp, args: Seq<Expr>, frame: Seq<Name>, row: Row)
    requires
        placed_all(args, frame),
    ensures
        lazy_upto(op, args, row) == lazy_by(op, args, by_name(frame, row)),
    decreases args,
{
    if args.len() > 0 {
        lemma_placed_lazy(op, args.drop_last(), frame, row);
        lemma_placed(args.last(), frame, row);
    }
}

proof fn lemma_placed_clauses(clauses: Seq<(Expr, Expr)>, frame: Seq<Name>, row: Row)
    requires
        placed_clauses(clauses, frame),
    ensures
        cond_upto(clauses, row) == cond_by(clauses, by_name(frame, row)),
    decreases clauses,
{
    if clauses.len() > 0 {
        lemma_placed_clauses(clauses.drop_last(), frame, row);
        lemma_placed(clauses.last().0, frame, row);
        lemma_placed(clauses.last().1, frame, row);
    }
}

/// The first function without implementation in an expression.
pub open spec fn gap(e: Expr) -> Option<EvalFault>
    decreases e,
{
    match e {
        Expr::Binding { .. } => None,
        Expr::Const { .. } => None,
        Expr::Apply { args, .. } => gap_all(args@),
        Expr::Lazy { args, .. } => gap_all(args@),
        Expr::Cond { clauses, .. } => gap_clauses(clauses@),
        Expr::UnboundApply { op, span, .. } => Some(EvalFault::NoImplementation { op: op@, span }),
    }
}

pub open spec fn gap_all(args: Seq<Expr>) -> Option<EvalFault>
    decreases args,
{
    if args.len() == 0 {
        None
    } else {
        match gap_all(args.drop_last()) {
            Some(s) => Some(s),
            None => gap(args.last()),
        }
    }
}

pub open spec fn gap_clauses(clauses: Seq<(Expr, Expr)>) -> Option<EvalFault>
    decreases clauses,
{
    if clauses.len() == 0 {
        None
    } else {
        match gap_clauses(clauses.drop_last()) {
            Some(s) => Some(s),
            None => match gap(clauses.last().0) {
                Some(s) => Some(s),
                None => gap(clauses.last().1),
            },
        }
    }
}

proof fn lemma_gap_all(args: Seq<Expr>, k: int)
    requires
        0 <= k <= args.len(),
        gap_all(args.take(k)) is Some,
    ensures
        gap_all(args) == gap_all(args.take(k)),
    decreases args.len() - k,
{
    if k == args.len() {
        assert(args.take(k) =~= args);
    } else {
        assert(args.take(k + 1).drop_last() =~= args.take(k));
        lemma_gap_all(args, k + 1);
    }
}

proof fn lemma_gap_clauses(clauses: Seq<(Expr, Expr)>, k: int)
    requires
        0 <= k <= clauses.len(),
        gap_clauses(clauses.take(k)) is Some,
    ensures
        gap_clauses(clauses) == gap_clauses(clauses.take(k)),
    decreases clauses.len() - k,
{
    if k == clauses.len() {
        assert(clauses.take(k) =~= clauses);
    } else {
        assert(clauses.take(k + 1).drop_last() =~= clauses.take(k));
        lemma_gap_clauses(clauses, k + 1);
    }
}

impl Expr {
    /// The names an expression mentions. A function without implementation is
    /// an error.
    pub fn bindings(&self) -> (r: Result<Vec<String>, EvalError>)
        ensures
            match r {
                Ok(v) => gap(*self) is None && forall|n: Name| #[trigger]
                    names(v@).contains(n) == mentions(*self, n),
                Err(err) => gap(*self) == Some(err.deep_view()),
            },
    {
        let mut coll: Vec<String> = Vec::new();
        match collect_names(self, &mut coll) {
            Ok(_) => Ok(coll),
            Err(err) => Err(err),
        }
    }
}

fn collect_names(e: &Expr, coll: &mut Vec<String>) -> (r: Result<(), EvalError>)
    ensures
        match r {
            Ok(_) => gap(*e) is None && forall|n: Name| #[trigger]
                names(final(coll)@).contains(n) == (names(old(coll)@).contains(n) || mentions(
                    *e,
                    n,
                )),
            Err(err) => gap(*e) == Some(err.deep_view()),
        },
    decreases e,
{
    match e {
        Expr::Binding { var, .. } => {
            let ghost before = coll@;
            let copy = var.clone();
            proof {
                crate::names::lemma_set_push(before, copy);
                assert forall|n: Name| #[trigger]
                    names(before.push(copy)).contains(n) == (names(before).contains(n) || mentions(
                        *e,
                        n,
                    )) by {
                    assert(crate::names::name_set(before.push(copy)).contains(n)
                        == crate::names::name_set(before).insert(copy@).contains(n));
                }
            }
            coll.push(copy);
            Ok(())
        },
        Expr::Const { .. } => Ok(()),
        Expr::Apply { args, .. } => collect_all(args, coll),
        Expr::Lazy { args, .. } => collect_all(args, coll),
        Expr::Cond { clauses, .. } => collect_clauses(clauses, coll),
        Expr::UnboundApply { op, span, .. } => Err(
            EvalError::NoImplementation { op: op.clone(), span: *span },
        ),
    }
}

fn collect_all(args: &Vec<Expr>, coll: &mut Vec<String>) -> (r: Result<(), EvalError>)
    ensures
        match r {
            Ok(_) => gap_all(args@) is None && forall|n: Name| #[trigger]
                names(final(coll)@).contains(n) == (names(old(coll)@).contains(n) || mention_any(
                    args@,
                    n,
                )),
            Err(err) => gap_all(args@) == Some(err.deep_view()),
        },
    decreases args,
{
    let ghost start = coll@;
    let mut i: usize = 0;
    assert(args@.take(0) =~= Seq::<Expr>::empty());
    while i < args.len()
        invariant
            i <= args@.len(),
            start == old(coll)@,
            gap_all(args@.take(i as int)) is None,
            forall|n: Name| #[trigger]
                names(coll@).contains(n) == (names(start).contains(n) || mention_any(
                    args@.take(i as int),
                    n,
                )),
        decreases args.len() - i,
    {
        proof {
            assert(args@.take(i + 1).drop_last() =~= args@.take(i as int));
            assert(args@.take(i + 1).last() == args@[i as int]);
        }
        match collect_names(&args[i], coll) {
            Ok(_) => {},
            Err(err) => {
                proof {
                    lemma_gap_all(args@, i + 1);
                }
                return Err(err);
            },
        }
        i = i + 1;
    }
    assert(args@.take(i as int) =~= args@);
    Ok(())
}

fn collect_clauses(clauses: &Vec<(Expr, Expr)>, coll: &mut Vec<String>) -> (r: Result<
    (),
    EvalError,
>)
    ensures
        match r {
            Ok(_) => gap_clauses(clauses@) is None && forall|n: Name| #[trigger]
                names(final(coll)@).contains(n) == (names(old(coll)@).contains(n)
                    || mention_clause(clauses@, n)),
            Err(err) => gap_clauses(clauses@) == Some(err.deep_view()),
        },
    decreases clauses,
{
    let ghost start = coll@;
    let mut i: usize = 0;
    assert(clauses@.take(0) =~= Seq::<(Expr, Expr)>::empty());
    while i < clauses.len()
        invariant
            i <= clauses@.len(),
            start == old(coll)@,
            gap_clauses(clauses@.take(i as int)) is None,
            forall|n: Name| #[trigger]
                names(coll@).contains(n) == (names(start).contains(n) || mention_clause(
                    clauses@.take(i as int),
                    n,
                )),
        decreases clauses.len() - i,
    {
        proof {
            assert(clauses@.take(i + 1).drop_last() =~= clauses@.take(i as int));
            assert(clauses@.take(i + 1).last() == clauses@[i as int]);
        }
        match collect_names(&clauses[i].0, coll) {
            Ok(_) => {},
            Err(err) => {
                proof {
                    lemma_gap_clauses(clauses@, i + 1);
                }
                return Err(err);
            },
        }
        match collect_names(&clauses[i].1, coll) {
            Ok(_) => {},
            Err(err) => {
                proof {
                    lemma_gap_clauses(clauses@, i + 1);
                }
                return Err(err);
            },
        }
        i = i + 1;
    }
    assert(clauses@.take(i as int) =~= clauses@);
    Ok(())
}

/// The first reason why an expression cannot be given places in a frame: a
/// name that is not in it, or a function without implementation.
pub open spec fn misfit(e: Expr, frame: Seq<Name>) -> Option<EvalFault>
    decreases e,
{
    match e {
        Expr::Binding { var, span, .. } => if last_place(frame, var@) is None {
            Some(EvalFault::Unbound { var: var@, span })
        } else {
            None
        },
        Expr::Const { .. } => None,
        Expr::Apply { args, .. } => misfit_all(args@, frame),
        Expr::Lazy { args, .. } => misfit_all(args@, frame),
        Expr::Cond { clauses, .. } => misfit_clauses(clauses@, frame),
        Expr::UnboundApply { op, span, .. } => Some(EvalFault::NoImplementation { op: op@, span }),
    }
}

pub open spec fn misfit_all(args: Seq<Expr>, frame: Seq<Name>) -> Option<EvalFault>
    decreases args,
{
    if args.len() == 0 {
        None
    } else {
        match misfit_all(args.drop_last(), frame) {
            Some(s) => Some(s),
            None => misfit(args.last(), frame),
        }
    }
}

pub open spec fn misfit_clauses(clauses: Seq<(Expr, Expr)>, frame: Seq<Name>) -> Option<EvalFault>
    decreases clauses,
{
    if clauses.len() == 0 {
        None
    } else {
        match misfit_clauses(clauses.drop_last(), frame) {
            Some(s) => Some(s),
            None => match misfit(clauses.last().0, frame) {
                Some(s) => Some(s),
                None => misfit(clauses.last().1, frame),
            },
        }
    }
}

pub proof fn lemma_misfit_all(args: Seq<Expr>, frame: Seq<Name>, k: int)
    requires
        0 <= k <= args.len(),
        misfit_all(args.take(k), frame) is Some,
    ensures
        misfit_all(args, frame) == misfit_all(args.take(k), frame),
    decreases args.len() - k,
{
    if k == args.len() {
        assert(args.take(k) =~= args);
    } else {
        assert(args.take(k + 1).drop_last() =~= args.take(k));
        lemma_misfit_all(args, frame, k + 1);
    }
}

proof fn lemma_misfit_clauses(clauses: Seq<(Expr, Expr)>, frame: Seq<Name>, k: int)
    requires
        0 <= k <= clauses.len(),
        misfit_clauses(clauses.take(k), frame) is Some,
    ensures
        misfit_clauses(clauses, frame) == misfit_clauses(clauses.take(k), frame),
    decreases clauses.len() - k,
{
    if k == clauses.len() {
        assert(clauses.take(k) =~= clauses);
    } else {
        assert(clauses.take(k + 1).drop_last() =~= clauses.take(k));
        lemma_misfit_clauses(clauses, frame, k + 1);
    }
}

impl Expr {
    /// Give every name its place in a frame.
    pub fn fill_binding_indices(&mut self, frame: &Vec<String>) -> (r: Result<(), EvalError>)
        ensures
            match r {
                Ok(_) => {
                    &&& misfit(*old(self), names(frame@)) is None
                    &&& alike(*old(self), *final(self))
                    &&& placed(*final(self), names(frame@))
                },
                Err(err) => misfit(*old(self), names(frame@)) == Some(err.deep_view()) && *final(self)
                    == *old(self),
            },
    {
        match with_places(self, frame) {
            Ok(e) => {
                *self = e;
                Ok(())
            },
            Err(err) => Err(err),
        }
    }
}

/// A copy of an expression in which every name has its place in a frame.
pub fn with_places(e: &Expr, frame: &Vec<String>) -> (r: Result<Expr, EvalError>)
    ensures
        match r {
            Ok(p) => misfit(*e, names(frame@)) is None && alike(*e, p) && placed(
                p,
                names(frame@),
            ),
            Err(err) => misfit(*e, names(frame@)) == Some(err.deep_view()),
        },
    decreases e,
{
    match e {
        Expr::Binding { var, span, .. } => match place_in(frame, var) {
            Some(p) => Ok(Expr::Binding { var: var.clone(), span: *span, tuple_pos: Some(p) }),
            None => Err(EvalError::Unbound { var: var.clone(), span: *span }),
        },
        Expr::Const { val, span } => Ok(Expr::Const { val: val.clone(), span: *span }),
        Expr::Apply { op, args, span } => match all_with_places(args, frame) {
            Ok(args) => Ok(Expr::Apply { op: *op, args, span: *span }),
            Err(err) => Err(err),
        },
        Expr::Lazy { op, args, span } => match all_with_places(args, frame) {
            Ok(args) => Ok(Expr::Lazy { op: *op, args, span: *span }),
            Err(err) => Err(err),
        },
        Expr::Cond { clauses, span } => match clauses_with_places(clauses, frame) {
            Ok(clauses) => Ok(Expr::Cond { clauses, span: *span }),
            Err(err) => Err(err),
        },
        Expr::UnboundApply { op, span, .. } => Err(
            EvalError::NoImplementation { op: op.clone(), span: *span },
        ),
    }
}

fn all_with_places(args: &Vec<Expr>, frame: &Vec<String>) -> (r: Result<Vec<Expr>, EvalError>)
    ensures
        match r {
            Ok(p) => misfit_all(args@, names(frame@)) is None && alike_all(args@, p@)
                && placed_all(p@, names(frame@)),
            Err(err) => misfit_all(args@, names(frame@)) == Some(err.deep_view()),
        },
    decreases args,
{
    let ghost fr = names(frame@);
    let mut out: Vec<Expr> = Vec::new();
    let mut i: usize = 0;
    assert(args@.take(0) =~= Seq::<Expr>::empty());
    while i < args.len()
        invariant
            i <= args@.len(),
            fr == names(frame@),
            out@.len() == i,
            misfit_all(args@.take(i as int), fr) is None,
            alike_all(args@.take(i as int), out@),
            placed_all(out@, fr),
        decreases args.len() - i,
    {
        proof {
            assert(args@.take(i + 1).drop_last() =~= args@.take(i as int));
            assert(args@.take(i + 1).last() == args@[i as int]);
        }
        match with_places(&args[i], frame) {
            Ok(e) => {
                let ghost prev = out@;
                out.push(e);
                assert(out@.drop_last() =~= prev);
            },
            Err(err) => {
                proof {
                    lemma_misfit_all(args@, fr, i + 1);
                }
                return Err(err);
            },
        }
        i = i + 1;
    }
    assert(args@.take(i as int) =~= args@);
    Ok(out)
}

fn clauses_with_places(clauses: &Vec<(Expr, Expr)>, frame: &Vec<String>) -> (r: Result<
    Vec<(Expr, Expr)>,
    EvalError,
>)
    ensures
        match r {
            Ok(p) => misfit_clauses(clauses@, names(frame@)) is None && alike_clauses(
                clauses@,
                p@,
            ) && placed_clauses(p@, names(frame@)),
            Err(err) => misfit_clauses(clauses@, names(frame@)) == Some(err.deep_view()),
        },
    decreases clauses,
{
    let ghost fr = names(frame@);
    let mut out: Vec<(Expr, Expr)> = Vec::new();
    let mut i: usize = 0;
    assert(clauses@.take(0) =~= Seq::<(Expr, Expr)>::empty());
    while i < clauses.len()
        invariant
            i <= clauses@.len(),
            fr == names(frame@),
            out@.len() == i,
            misfit_clauses(clauses@.take(i as int), fr) is None,
            alike_clauses(clauses@.take(i as int), out@),
            placed_clauses(out@, fr),
        decreases clauses.len() - i,
    {
        proof {
            assert(clauses@.take(i + 1).drop_last() =~= clauses@.take(i as int));
            assert(clauses@.take(i + 1).last() == clauses@[i as int]);
        }
        let first = match with_places(&clauses[i].0, frame) {
            Ok(e) => e,
            Err(err) => {
                proof {
                    lemma_misfit_clauses(clauses@, fr, i + 1);
                }
                return Err(err);
            },
        };
        let second = match with_places(&clauses[i].1, frame) {
            Ok(e) => e,
            Err(err) => {
                proof {
                    lemma_misfit_clauses(clauses@, fr, i + 1);
                }
                return Err(err);
            },
        };
        let ghost prev = out@;
        out.push((first, second));
        assert(out@.drop_last() =~= prev);
        i = i + 1;
    }
    assert(clauses@.take(i as int) =~= clauses@);
    Ok(out)
}

/// The conjuncts of an expression: the arguments of a conjunction, or the
/// expression itself.
pub open spec fn conjuncts(e: Expr) -> Seq<Expr> {
    match e {
        Expr::Lazy { op: LazyOp::And, args, .. } => args@,
        _ => seq![e],
    }
}

impl Expr {
    /// Take a conjunction apart.
    pub fn to_conjunction(self) -> (r: Vec<Expr>)
        ensures
            r@ == conjuncts(self),
    {
        match self {
            Expr::Lazy { op: LazyOp::And, args, .. } => args,
            other => {
                let mut out: Vec<Expr> = Vec::new();
                out.push(other);
                proof {
                    assert(out@ =~= conjuncts(self));
                }
                out
            },
        }
    }
}

} // verus!
