//! Columnar evaluation: one pass over the expression tree per batch instead of
//! one per row.
//!
//! Control flow is selection: a connective or a conditional evaluates each
//! part only over the rows that reach it. A row that fails keeps its place
//! with a stand-in value; the failure is recorded, and the failure of the
//! first failing row is what the evaluation returns. Failures come in
//! evaluation order, so at one row the first one recorded is the one that
//! evaluating the row by itself would raise.

use vstd::prelude::*;
use crate::expr::{
    apply_op, cond_upto, decide, decide_value, eval, eval_all, identity, identity_value, lazy_upto,
    lemma_cond_done, lemma_lazy_done, run_op, EvalError, EvalFault, Expr, LazyOp, Op, Progress,
    SourceSpan, Verdict,
};
use crate::value::{DataValue, Row, Tuple, Val};

verus! {

/// Rows of equal width, stored by column.
#[derive(Debug)]
pub struct ColumnBatch {
    pub columns: Vec<Vec<DataValue>>,
    pub height: usize,
}

impl ColumnBatch {
    /// Every column has the batch's height.
    pub open spec fn wf(&self) -> bool {
        forall|c: int|
            0 <= c < self.columns@.len() ==> (#[trigger] self.columns@[c])@.len() == self.height
    }

    /// Row `r` of the batch.
    pub open spec fn row(&self, r: int) -> Row {
        Seq::new(self.columns@.len(), |c: int| self.columns@[c]@[r].deep_view())
    }

    /// The batch of rows of the given width.
    pub fn from_rows(rows: &Vec<Tuple>, width: usize) -> (b: Self)
        requires
            forall|i: int| 0 <= i < rows@.len() ==> (#[trigger] rows@[i])@.len() == width,
        ensures
            b.wf(),
            b.height == rows@.len(),
            b.columns@.len() == width,
            forall|i: int| 0 <= i < rows@.len() ==> #[trigger] b.row(i) == rows@[i].deep_view(),
    {
        let mut columns: Vec<Vec<DataValue>> = Vec::new();
        let mut c: usize = 0;
        while c < width
            invariant
                c <= width,
                columns@.len() == c,
                forall|i: int| 0 <= i < rows@.len() ==> (#[trigger] rows@[i])@.len() == width,
                forall|k: int|
                    0 <= k < c ==> (#[trigger] columns@[k])@.len() == rows@.len(),
                forall|k: int, i: int|
                    0 <= k < c && 0 <= i < rows@.len() ==> (
                    #[trigger] columns@[k]@[i]).deep_view() == rows@[i]@[k].deep_view(),
            decreases width - c,
        {
            let mut col: Vec<DataValue> = Vec::new();
            let mut i: usize = 0;
            while i < rows.len()
                invariant
                    i <= rows@.len(),
                    c < width,
                    col@.len() == i,
                    forall|j: int|
                        0 <= j < rows@.len() ==> (#[trigger] rows@[j])@.len() == width,
                    forall|j: int|
                        0 <= j < i ==> (#[trigger] col@[j]).deep_view()
                            == rows@[j]@[c as int].deep_view(),
                decreases rows.len() - i,
            {
                let v = rows[i][c].clone();
                col.push(v);
                i = i + 1;
            }
            columns.push(col);
            c = c + 1;
        }
        let b = ColumnBatch { columns, height: rows.len() };
        proof {
            assert forall|i: int| 0 <= i < rows@.len() implies #[trigger] b.row(i)
                == rows@[i].deep_view() by {
                assert(rows@[i]@.len() == width);
                assert(b.row(i) =~= rows@[i].deep_view());
            }
        }
        b
    }
}

/// Strictly increasing row numbers below a height: the live rows of a batch.
pub open spec fn is_selection(sel: Seq<usize>, height: int) -> bool {
    &&& forall|i: int, j: int| 0 <= i < j < sel.len() ==> sel[i] < sel[j]
    &&& forall|i: int| 0 <= i < sel.len() ==> (#[trigger] sel[i]) < height
}

/// Every row of a batch.
pub fn select_all(height: usize) -> (sel: Vec<usize>)
    ensures
        is_selection(sel@, height as int),
        sel@.len() == height,
        forall|i: int| 0 <= i < height ==> #[trigger] sel@[i] == i,
{
    let mut sel: Vec<usize> = Vec::new();
    let mut i: usize = 0;
    while i < height
        invariant
            i <= height,
            sel@.len() == i,
            forall|j: int| 0 <= j < i ==> #[trigger] sel@[j] == j,
        decreases height - i,
    {
        sel.push(i);
        i = i + 1;
    }
    sel
}

/// The failure recorded so far: of the first failing row.
pub struct ErrorMin {
    pub min: Option<(usize, EvalError)>,
}

impl ErrorMin {
    /// The row that fails first, and how.
    pub open spec fn least(&self) -> Option<(usize, EvalFault)> {
        match self.min {
            None => None,
            Some(m) => Some((m.0, m.1.deep_view())),
        }
    }

    /// Record a failure, unless one at the same row or an earlier one is
    /// recorded already.
    pub fn offer(&mut self, row: usize, err: EvalError)
        ensures
            final(self).least() == offered(old(self).least(), row, err.deep_view()),
    {
        let earlier = match &self.min {
            None => true,
            Some(m) => row < m.0,
        };
        if earlier {
            self.min = Some((row, err));
        }
    }
}

/// The recorded failure after one more is offered.
pub open spec fn offered(
    before: Option<(usize, EvalFault)>,
    row: usize,
    err: EvalFault,
) -> Option<(usize, EvalFault)> {
    match before {
        None => Some((row, err)),
        Some(m) => if row < m.0 {
            Some((row, err))
        } else {
            before
        },
    }
}

/// The first position in `[i, n)` that fails, or `n`.
pub open spec fn first_failing(fails: spec_fn(int) -> Option<EvalFault>, i: int, n: int) -> int
    decreases n - i,
{
    if i < n && fails(i) is None {
        first_failing(fails, i + 1, n)
    } else {
        i
    }
}

/// The recorded failure after the failures of a selection are recorded.
pub open spec fn recorded(
    before: Option<(usize, EvalFault)>,
    sel: Seq<usize>,
    fails: spec_fn(int) -> Option<EvalFault>,
) -> Option<(usize, EvalFault)> {
    let k = first_failing(fails, 0, sel.len() as int);
    if k < sel.len() {
        offered(before, sel[k], fails(k)->Some_0)
    } else {
        before
    }
}

proof fn lemma_first_failing(fails: spec_fn(int) -> Option<EvalFault>, i: int, n: int)
    requires
        i <= n,
    ensures
        i <= first_failing(fails, i, n) <= n,
        forall|j: int| i <= j < first_failing(fails, i, n) ==> #[trigger] fails(j) is None,
        first_failing(fails, i, n) < n ==> fails(first_failing(fails, i, n)) is Some,
    decreases n - i,
{
    if i < n && fails(i) is None {
        lemma_first_failing(fails, i + 1, n);
    }
}

/// The first failing position is the one with nothing failing before it.
proof fn lemma_first_failing_is(fails: spec_fn(int) -> Option<EvalFault>, n: int, k: int)
    requires
        0 <= k <= n,
        forall|j: int| 0 <= j < k ==> #[trigger] fails(j) is None,
        k < n ==> fails(k) is Some,
    ensures
        first_failing(fails, 0, n) == k,
{
    lemma_first_failing(fails, 0, n);
    let f = first_failing(fails, 0, n);
    if f < k {
        assert(fails(f) is None);
    }
    if k < f {
        assert(fails(k) is None);
    }
}

/// Failure functions that agree record alike.
proof fn lemma_recorded_ext(
    before: Option<(usize, EvalFault)>,
    sel: Seq<usize>,
    a: spec_fn(int) -> Option<EvalFault>,
    b: spec_fn(int) -> Option<EvalFault>,
)
    requires
        forall|i: int| 0 <= i < sel.len() ==> #[trigger] a(i) == b(i),
    ensures
        recorded(before, sel, a) == recorded(before, sel, b),
{
    let n = sel.len() as int;
    lemma_first_failing(a, 0, n);
    let k = first_failing(a, 0, n);
    assert forall|j: int| 0 <= j < k implies #[trigger] b(j) is None by {
        assert(a(j) == b(j));
    }
    if k < n {
        assert(a(k) == b(k));
    }
    lemma_first_failing_is(b, n, k);
}

/// A failure at a later stage counts only where no earlier stage failed.
pub open spec fn either(
    first: spec_fn(int) -> Option<EvalFault>,
    second: spec_fn(int) -> Option<EvalFault>,
) -> spec_fn(int) -> Option<EvalFault> {
    |i: int|
        if first(i) is Some {
            first(i)
        } else {
            second(i)
        }
}

/// Recording two stages one after the other records what either fails with.
proof fn lemma_recorded_twice(
    before: Option<(usize, EvalFault)>,
    sel: Seq<usize>,
    height: int,
    first: spec_fn(int) -> Option<EvalFault>,
    second: spec_fn(int) -> Option<EvalFault>,
)
    requires
        is_selection(sel, height),
    ensures
        recorded(recorded(before, sel, first), sel, second) == recorded(
            before,
            sel,
            either(first, second),
        ),
{
    let n = sel.len() as int;
    let both = either(first, second);
    lemma_first_failing(first, 0, n);
    lemma_first_failing(second, 0, n);
    let a = first_failing(first, 0, n);
    let b = first_failing(second, 0, n);
    let k = if a <= b {
        a
    } else {
        b
    };
    assert forall|j: int| 0 <= j < k implies #[trigger] both(j) is None by {
        assert(first(j) is None);
        assert(second(j) is None);
    }
    if k < n {
        if a <= b {
            assert(both(k) == first(k));
        } else {
            assert(first(k) is None);
            assert(both(k) == second(k));
        }
    }
    lemma_first_failing_is(both, n, k);
    if a < n && b < n {
        if a < b {
            assert(sel[a] < sel[b]);
        }
        if b < a {
            assert(sel[b] < sel[a]);
        }
    }
}

/// The rows at the given positions of a selection.
pub open spec fn rows_at(sel: Seq<usize>, live: Seq<usize>) -> Seq<usize> {
    Seq::new(live.len(), |j: int| sel[live[j] as int])
}

/// What fails over part of a selection, as positions of the whole.
pub open spec fn within(
    live: Seq<usize>,
    fails: spec_fn(int) -> Option<EvalFault>,
) -> spec_fn(int) -> Option<EvalFault> {
    |p: int|
        if 0 <= p <= usize::MAX && live.contains(p as usize) {
            fails(live.index_of(p as usize))
        } else {
            None
        }
}

/// Recording over part of a selection records the same over the whole.
proof fn lemma_recorded_within(
    before: Option<(usize, EvalFault)>,
    sel: Seq<usize>,
    height: int,
    live: Seq<usize>,
    fails: spec_fn(int) -> Option<EvalFault>,
)
    requires
        is_selection(sel, height),
        is_selection(live, sel.len() as int),
        sel.len() <= usize::MAX,
    ensures
        recorded(before, rows_at(sel, live), fails) == recorded(before, sel, within(live, fails)),
        is_selection(rows_at(sel, live), height),
{
    let m = live.len() as int;
    let n = sel.len() as int;
    let w = within(live, fails);
    let rows = rows_at(sel, live);
    assert forall|i: int, j: int| 0 <= i < j < rows.len() implies rows[i] < rows[j] by {
        assert(live[i] < live[j]);
    }
    lemma_first_failing(fails, 0, m);
    let k = first_failing(fails, 0, m);
    assert forall|j: int| 0 <= j < m implies live.index_of(live[j]) == j by {
        lemma_position(live, n, j);
    }
    if k < m {
        let p = live[k] as int;
        assert forall|q: int| 0 <= q < p implies #[trigger] w(q) is None by {
            if live.contains(q as usize) {
                let j = live.index_of(q as usize);
                assert(live[j] == q as usize);
                if j >= k {
                    if j > k {
                        assert(live[k] < live[j]);
                    }
                }
                assert(fails(j) is None);
            }
        }
        assert(live.contains(live[k]));
        assert(w(p) == fails(k));
        lemma_first_failing_is(w, n, p);
        assert(rows[k] == sel[p]);
    } else {
        assert forall|q: int| 0 <= q < n implies #[trigger] w(q) is None by {
            if live.contains(q as usize) {
                let j = live.index_of(q as usize);
                assert(live[j] == q as usize);
                assert(fails(j) is None);
            }
        }
        lemma_first_failing_is(w, n, n);
    }
}

proof fn lemma_position(live: Seq<usize>, n: int, j: int)
    requires
        is_selection(live, n),
        0 <= j < live.len(),
    ensures
        live.contains(live[j]),
        live.index_of(live[j]) == j,
{
    assert(live.contains(live[j]));
    let k = live.index_of(live[j]);
    if k < j {
        assert(live[k] < live[j]);
    }
    if j < k {
        assert(live[j] < live[k]);
    }
}

/// How a result fails, if it does.
pub open spec fn failure(r: Result<Val, EvalFault>) -> Option<EvalFault> {
    match r {
        Ok(_) => None,
        Err(e) => Some(e),
    }
}

/// What evaluating an expression at each row of a selection fails with.
pub open spec fn failures(e: Expr, batch: ColumnBatch, sel: Seq<usize>) -> spec_fn(int) -> Option<
    EvalFault,
> {
    |i: int| failure(eval(e, batch.row(sel[i] as int)))
}

/// A column holds the value of every row at which the evaluation succeeds.
pub open spec fn values_of(
    out: Seq<DataValue>,
    e: Expr,
    batch: ColumnBatch,
    sel: Seq<usize>,
) -> bool {
    &&& out.len() == sel.len()
    &&& forall|i: int|
        0 <= i < sel.len() && eval(e, batch.row(sel[i] as int)) is Ok ==> (
        #[trigger] out[i]).deep_view() == eval(e, batch.row(sel[i] as int))->Ok_0
}

/// Evaluate an expression over the live rows: the values, in selection order,
/// with the failures recorded. A row that fails holds a stand-in value.
fn eval_node(e: &Expr, batch: &ColumnBatch, sel: &Vec<usize>, errors: &mut ErrorMin) -> (out: Vec<
    DataValue,
>)
    requires
        batch.wf(),
        is_selection(sel@, batch.height as int),
    ensures
        values_of(out@, *e, *batch, sel@),
        final(errors).least() == recorded(old(errors).least(), sel@, failures(*e, *batch, sel@)),
    decreases e,
{
    match e {
        Expr::Binding { var, span, tuple_pos } => match tuple_pos {
            None => {
                let unbound = EvalError::Unbound { var: var.clone(), span: *span };
                fail_all(unbound, e, batch, sel, errors)
            },
            Some(p) => {
                if *p >= batch.columns.len() {
                    let short = EvalError::TupleTooShort {
                        var: var.clone(),
                        index: *p,
                        len: batch.columns.len(),
                        span: *span,
                    };
                    return fail_all(short, e, batch, sel, errors);
                }
                let col = &batch.columns[*p];
                let mut out: Vec<DataValue> = Vec::new();
                let mut i: usize = 0;
                while i < sel.len()
                    invariant
                        i <= sel@.len(),
                        batch.wf(),
                        *p < batch.columns@.len(),
                        *col == batch.columns@[*p as int],
                        is_selection(sel@, batch.height as int),
                        out@.len() == i,
                        forall|j: int|
                            0 <= j < i ==> (#[trigger] out@[j]).deep_view() == batch.row(
                                sel@[j] as int,
                            )[*p as int],
                    decreases sel.len() - i,
                {
                    let row: usize = sel[i];
                    let v = col[row].clone();
                    out.push(v);
                    i = i + 1;
                }
                proof {
                    lemma_none_recorded(errors.least(), sel@, failures(*e, *batch, sel@));
                }
                out
            },
        },
        Expr::Const { val, .. } => {
            let mut out: Vec<DataValue> = Vec::new();
            let mut i: usize = 0;
            while i < sel.len()
                invariant
                    i <= sel@.len(),
                    out@.len() == i,
                    forall|j: int|
                        0 <= j < i ==> (#[trigger] out@[j]).deep_view() == val.deep_view(),
                decreases sel.len() - i,
            {
                let v = val.clone();
                out.push(v);
                i = i + 1;
            }
            proof {
                lemma_none_recorded(errors.least(), sel@, failures(*e, *batch, sel@));
            }
            out
        },
        Expr::Apply { op, args, span } => {
            let r = eval_apply(*op, args, *span, batch, sel, errors);
            proof {
                let fails = |i: int|
                    failure(
                        applied(*op, *span, eval_all(args@, batch.row(sel@[i] as int))),
                    );
                lemma_recorded_ext(
                    old(errors).least(),
                    sel@,
                    fails,
                    failures(*e, *batch, sel@),
                );
            }
            r
        },
        Expr::Lazy { op, args, .. } => {
            let r = eval_lazy(*op, args, batch, sel, errors);
            proof {
                let fails = |i: int|
                    failure(finished(lazy_upto(*op, args@, batch.row(sel@[i] as int)), identity(*op)));
                lemma_recorded_ext(
                    old(errors).least(),
                    sel@,
                    fails,
                    failures(*e, *batch, sel@),
                );
            }
            r
        },
        Expr::Cond { clauses, .. } => {
            let r = eval_cond(clauses, batch, sel, errors);
            proof {
                let fails = |i: int|
                    failure(finished(cond_upto(clauses@, batch.row(sel@[i] as int)), Val::Null));
                lemma_recorded_ext(
                    old(errors).least(),
                    sel@,
                    fails,
                    failures(*e, *batch, sel@),
                );
            }
            r
        },
        Expr::UnboundApply { op, span, .. } => fail_all(
            EvalError::NoImplementation { op: op.clone(), span: *span },
            e,
            batch,
            sel,
            errors,
        ),
    }
}

/// Record that every live row fails, all with one failure.
fn fail_all(
    err: EvalError,
    e: &Expr,
    batch: &ColumnBatch,
    sel: &Vec<usize>,
    errors: &mut ErrorMin,
) -> (out: Vec<DataValue>)
    requires
        forall|i: int|
            0 <= i < sel@.len() ==> (#[trigger] eval(*e, batch.row(sel@[i] as int))) == Err::<
                Val,
                EvalFault,
            >(err.deep_view()),
    ensures
        values_of(out@, *e, *batch, sel@),
        final(errors).least() == recorded(old(errors).least(), sel@, failures(*e, *batch, sel@)),
{
    let ghost fails = failures(*e, *batch, sel@);
    if sel.len() > 0 {
        // A later row would not be recorded over the first one.
        errors.offer(sel[0], err);
        proof {
            assert(eval(*e, batch.row(sel@[0] as int)) == Err::<Val, EvalFault>(
                err.deep_view(),
            ));
            lemma_first_failing_is(fails, sel@.len() as int, 0);
        }
    } else {
        proof {
            lemma_none_recorded(errors.least(), sel@, fails);
        }
    }
    nulls(sel.len())
}

/// Nothing is recorded where nothing fails.
proof fn lemma_none_recorded(
    before: Option<(usize, EvalFault)>,
    sel: Seq<usize>,
    fails: spec_fn(int) -> Option<EvalFault>,
)
    requires
        forall|i: int| 0 <= i < sel.len() ==> #[trigger] fails(i) is None,
    ensures
        recorded(before, sel, fails) == before,
{
    lemma_first_failing_is(fails, sel.len() as int, sel.len() as int);
}

/// A function applied to the outcome of its arguments.
pub open spec fn applied(op: Op, span: SourceSpan, args: Result<Seq<Val>, EvalFault>) -> Result<
    Val,
    EvalFault,
> {
    match args {
        Err(err) => Err(err),
        Ok(vals) => match apply_op(op, vals) {
            Ok(v) => Ok(v),
            Err(k) => Err(EvalFault::Raised { op, cause: k, span }),
        },
    }
}

/// The result of a connective or a conditional that was evaluated to its end.
pub open spec fn finished(p: Progress, otherwise: Val) -> Result<Val, EvalFault> {
    match p {
        Progress::Pending => Ok(otherwise),
        Progress::Done(r) => r,
    }
}

/// What evaluating a list of arguments at each row fails with.
spec fn all_failures(args: Seq<Expr>, batch: ColumnBatch, sel: Seq<usize>) -> spec_fn(int) -> Option<
    EvalFault,
> {
    |i: int|
        match eval_all(args, batch.row(sel[i] as int)) {
            Ok(_) => None,
            Err(e) => Some(e),
        }
}

/// One more failure recorded in position order.
proof fn lemma_record_next(
    before: Option<(usize, EvalFault)>,
    sel: Seq<usize>,
    height: int,
    fails: spec_fn(int) -> Option<EvalFault>,
    i: int,
)
    requires
        is_selection(sel, height),
        0 <= i < sel.len(),
    ensures
        recorded(before, sel.take(i + 1), fails) == (match fails(i) {
            None => recorded(before, sel.take(i), fails),
            Some(e) => offered(recorded(before, sel.take(i), fails), sel[i], e),
        }),
{
    lemma_first_failing(fails, 0, i);
    let k = first_failing(fails, 0, i);
    if k < i {
        lemma_first_failing_is(fails, i + 1, k);
        assert(sel[k] < sel[i]);
    } else if fails(i) is Some {
        lemma_first_failing_is(fails, i + 1, i);
    } else {
        lemma_first_failing_is(fails, i + 1, i + 1);
    }
}

fn eval_apply(
    op: Op,
    args: &Vec<Expr>,
    span: SourceSpan,
    batch: &ColumnBatch,
    sel: &Vec<usize>,
    errors: &mut ErrorMin,
) -> (out: Vec<DataValue>)
    requires
        batch.wf(),
        is_selection(sel@, batch.height as int),
    ensures
        out@.len() == sel@.len(),
        forall|i: int|
            0 <= i < sel@.len() && applied(
                op,
                span,
                eval_all(args@, batch.row(sel@[i] as int)),
            ) is Ok ==> (#[trigger] out@[i]).deep_view() == applied(
                op,
                span,
                eval_all(args@, batch.row(sel@[i] as int)),
            )->Ok_0,
        final(errors).least() == recorded(
            old(errors).least(),
            sel@,
            |i: int|
                failure(applied(op, span, eval_all(args@, batch.row(sel@[i] as int)))),
        ),
    decreases args,
{
    let ghost start = errors.least();
    let ghost height = batch.height as int;
    let mut cols: Vec<Vec<DataValue>> = Vec::new();
    let mut k: usize = 0;
    proof {
        assert(args@.take(0) =~= Seq::<Expr>::empty());
        lemma_none_recorded(start, sel@, all_failures(args@.take(0), *batch, sel@));
    }
    while k < args.len()
        invariant
            k <= args@.len(),
            batch.wf(),
            height == batch.height as int,
            is_selection(sel@, height),
            cols@.len() == k,
            forall|c: int| 0 <= c < k ==> (#[trigger] cols@[c])@.len() == sel@.len(),
            forall|i: int|
                0 <= i < sel@.len() && (#[trigger] eval_all(
                    args@.take(k as int),
                    batch.row(sel@[i] as int),
                )) is Ok ==> columns_hold(
                    cols@,
                    i,
                    eval_all(args@.take(k as int), batch.row(sel@[i] as int))->Ok_0,
                ),
            errors.least() == recorded(
                start,
                sel@,
                all_failures(args@.take(k as int), *batch, sel@),
            ),
        decreases args.len() - k,
    {
        let ghost arg = args@[k as int];
        let ghost before = cols@;
        proof {
            assert(args@.take(k + 1).drop_last() =~= args@.take(k as int));
            assert(args@.take(k + 1).last() == arg);
        }
        let col = eval_node(&args[k], batch, sel, errors);
        proof {
            let first = all_failures(args@.take(k as int), *batch, sel@);
            let second = failures(arg, *batch, sel@);
            lemma_recorded_twice(start, sel@, height, first, second);
            lemma_recorded_ext(
                start,
                sel@,
                either(first, second),
                all_failures(args@.take(k + 1), *batch, sel@),
            );
        }
        let ghost column = col@;
        cols.push(col);
        proof {
            assert forall|i: int|
                0 <= i < sel@.len() && (#[trigger] eval_all(
                    args@.take(k + 1),
                    batch.row(sel@[i] as int),
                )) is Ok implies columns_hold(
                cols@,
                i,
                eval_all(args@.take(k + 1), batch.row(sel@[i] as int))->Ok_0,
            ) by {
                let row = batch.row(sel@[i] as int);
                let prev = eval_all(args@.take(k as int), row);
                assert(prev is Ok);
                assert(columns_hold(before, i, prev->Ok_0));
                let vals = eval_all(args@.take(k + 1), row)->Ok_0;
                assert(column[i].deep_view() == eval(arg, row)->Ok_0);
                assert forall|c: int| 0 <= c < vals.len() implies (
                #[trigger] cols@[c]@[i]).deep_view() == vals[c] by {
                    if c < k {
                        assert(cols@[c] == before[c]);
                        assert(before[c]@[i].deep_view() == prev->Ok_0[c]);
                    }
                }
            }
        }
        k = k + 1;
    }
    assert(args@.take(k as int) =~= args@);
    let ghost mid = errors.least();
    let mut out: Vec<DataValue> = Vec::new();
    let mut i: usize = 0;
    let ghost late = |p: int| late_failure(op, span, cols@, p);
    proof {
        lemma_none_recorded(mid, sel@.take(0), late);
    }
    while i < sel.len()
        invariant
            i <= sel@.len(),
            is_selection(sel@, height),
            cols@.len() == args@.len(),
            forall|c: int| 0 <= c < cols@.len() ==> (#[trigger] cols@[c])@.len() == sel@.len(),
            out@.len() == i,
            forall|p: int|
                0 <= p < i && (#[trigger] apply_op(op, frame_of(cols@, p))) is Ok ==> out@[p].deep_view()
                    == apply_op(op, frame_of(cols@, p))->Ok_0,
            late == (|p: int| late_failure(op, span, cols@, p)),
            errors.least() == recorded(mid, sel@.take(i as int), late),
        decreases sel.len() - i,
    {
        let frame = gather(&cols, i);
        proof {
            lemma_record_next(mid, sel@, height, late, i as int);
        }
        let ghost prev = out@;
        match run_op(op, &frame) {
            Ok(v) => {
                out.push(v);
            },
            Err(err) => {
                errors.offer(sel[i], EvalError::Raised { op, cause: err, span });
                out.push(DataValue::Null);
            },
        }
        proof {
            assert forall|p: int|
                0 <= p < i + 1 && (#[trigger] apply_op(op, frame_of(cols@, p))) is Ok implies out@[p].deep_view()
                == apply_op(op, frame_of(cols@, p))->Ok_0 by {
                if p < i {
                    assert(out@[p] == prev[p]);
                }
            }
        }
        i = i + 1;
    }
    proof {
        assert(sel@.take(i as int) =~= sel@);
        let first = all_failures(args@, *batch, sel@);
        let whole = |p: int|
            failure(applied(op, span, eval_all(args@, batch.row(sel@[p] as int))));
        lemma_recorded_twice(start, sel@, height, first, late);
        assert forall|p: int| 0 <= p < sel@.len() implies #[trigger] either(first, late)(p)
            == whole(p) by {
            let row = batch.row(sel@[p] as int);
            if eval_all(args@, row) is Ok {
                assert(columns_hold(cols@, p, eval_all(args@, row)->Ok_0));
                lemma_frame(cols@, p, args@, row);
            }
        }
        lemma_recorded_ext(start, sel@, either(first, late), whole);
        assert forall|p: int|
            0 <= p < sel@.len() && applied(
                op,
                span,
                eval_all(args@, batch.row(sel@[p] as int)),
            ) is Ok implies (#[trigger] out@[p]).deep_view() == applied(
            op,
            span,
            eval_all(args@, batch.row(sel@[p] as int)),
        )->Ok_0 by {
            let row = batch.row(sel@[p] as int);
            assert(columns_hold(cols@, p, eval_all(args@, row)->Ok_0));
            lemma_frame(cols@, p, args@, row);
            assert(apply_op(op, frame_of(cols@, p)) is Ok);
        }
    }
    out
}

/// The columns hold the given values at a position.
spec fn columns_hold(cols: Seq<Vec<DataValue>>, i: int, vals: Seq<Val>) -> bool {
    &&& vals.len() == cols.len()
    &&& forall|c: int| 0 <= c < vals.len() ==> (#[trigger] cols[c]@[i]).deep_view() == vals[c]
}

/// The values of the columns at a position.
spec fn frame_of(cols: Seq<Vec<DataValue>>, i: int) -> Seq<Val> {
    Seq::new(cols.len(), |c: int| cols[c]@[i].deep_view())
}

spec fn late_failure(op: Op, span: SourceSpan, cols: Seq<Vec<DataValue>>, i: int) -> Option<
    EvalFault,
> {
    match apply_op(op, frame_of(cols, i)) {
        Ok(_) => None,
        Err(k) => Some(EvalFault::Raised { op, cause: k, span }),
    }
}

proof fn lemma_frame(cols: Seq<Vec<DataValue>>, i: int, args: Seq<Expr>, row: Row)
    requires
        eval_all(args, row) is Ok,
        columns_hold(cols, i, eval_all(args, row)->Ok_0),
    ensures
        frame_of(cols, i) == eval_all(args, row)->Ok_0,
{
    assert(frame_of(cols, i) =~= eval_all(args, row)->Ok_0);
}

/// The values of the columns at a position.
fn gather(cols: &Vec<Vec<DataValue>>, i: usize) -> (r: Vec<DataValue>)
    requires
        forall|c: int| 0 <= c < cols@.len() ==> i < (#[trigger] cols@[c])@.len(),
    ensures
        r.deep_view() == frame_of(cols@, i as int),
{
    let mut out: Vec<DataValue> = Vec::new();
    let mut c: usize = 0;
    while c < cols.len()
        invariant
            c <= cols@.len(),
            forall|k: int| 0 <= k < cols@.len() ==> i < (#[trigger] cols@[k])@.len(),
            out.deep_view() == frame_of(cols@, i as int).take(c as int),
        decreases cols.len() - c,
    {
        let ghost prev = out.deep_view();
        let v = cols[c][i].clone();
        out.push(v);
        assert(out.deep_view() =~= prev.push(frame_of(cols@, i as int)[c as int]));
        assert(out.deep_view() =~= frame_of(cols@, i as int).take(c + 1));
        c = c + 1;
    }
    assert(out.deep_view() =~= frame_of(cols@, i as int));
    out
}

/// How a connective or a conditional has failed so far, if it has.
pub open spec fn progress_failure(p: Progress) -> Option<EvalFault> {
    match p {
        Progress::Done(Err(e)) => Some(e),
        _ => None,
    }
}

/// What is known of each row once part of a connective or a conditional is
/// evaluated: an undecided row is live, a decided row holds its value.
spec fn tracks(
    progress: spec_fn(int) -> Progress,
    n: int,
    live: Seq<usize>,
    values: Seq<DataValue>,
) -> bool {
    &&& values.len() == n
    &&& is_selection(live, n)
    &&& forall|p: int|
        0 <= p < n ==> match #[trigger] progress(p) {
            Progress::Pending => live.contains(p as usize),
            Progress::Done(Ok(v)) => !live.contains(p as usize) && values[p].deep_view() == v,
            Progress::Done(Err(_)) => true,
        }
}

spec fn lazy_progress(
    op: LazyOp,
    args: Seq<Expr>,
    batch: ColumnBatch,
    sel: Seq<usize>,
) -> spec_fn(int) -> Progress {
    |p: int| lazy_upto(op, args, batch.row(sel[p] as int))
}

spec fn cond_progress(
    clauses: Seq<(Expr, Expr)>,
    batch: ColumnBatch,
    sel: Seq<usize>,
) -> spec_fn(int) -> Progress {
    |p: int| cond_upto(clauses, batch.row(sel[p] as int))
}

spec fn failing(progress: spec_fn(int) -> Progress) -> spec_fn(int) -> Option<EvalFault> {
    |p: int| progress_failure(progress(p))
}

/// The rows at the given positions of a selection.
fn sub_selection(sel: &Vec<usize>, live: &Vec<usize>) -> (r: Vec<usize>)
    requires
        is_selection(live@, sel@.len() as int),
    ensures
        r@ == rows_at(sel@, live@),
{
    let mut out: Vec<usize> = Vec::new();
    let mut j: usize = 0;
    while j < live.len()
        invariant
            j <= live@.len(),
            is_selection(live@, sel@.len() as int),
            out@ == rows_at(sel@, live@).take(j as int),
        decreases live.len() - j,
    {
        let p: usize = live[j];
        let row: usize = sel[p];
        let ghost prev = out@;
        out.push(row);
        assert(out@ =~= rows_at(sel@, live@).take(j + 1));
        j = j + 1;
    }
    assert(out@ =~= rows_at(sel@, live@));
    out
}

/// As many nulls as asked for.
fn nulls(n: usize) -> (r: Vec<DataValue>)
    ensures
        r@.len() == n,
        forall|i: int| 0 <= i < n ==> (#[trigger] r@[i]).deep_view() == Val::Null,
{
    let mut out: Vec<DataValue> = Vec::new();
    let mut i: usize = 0;
    while i < n
        invariant
            i <= n,
            out@.len() == i,
            forall|j: int| 0 <= j < i ==> (#[trigger] out@[j]).deep_view() == Val::Null,
        decreases n - i,
    {
        out.push(DataValue::Null);
        i = i + 1;
    }
    out
}

/// Appending a later position keeps positions a selection.
proof fn lemma_push_selection(s: Seq<usize>, x: usize, n: int)
    requires
        is_selection(s, n),
        x < n,
        forall|i: int| 0 <= i < s.len() ==> (#[trigger] s[i]) < x,
    ensures
        is_selection(s.push(x), n),
        forall|q: usize| #[trigger] s.push(x).contains(q) == (s.contains(q) || q == x),
{
    let t = s.push(x);
    assert forall|q: usize| #[trigger] t.contains(q) == (s.contains(q) || q == x) by {
        if t.contains(q) {
            let k = choose|k: int| 0 <= k < t.len() && t[k] == q;
            if k < s.len() {
                assert(s[k] == q);
            }
        }
        if s.contains(q) {
            let k = choose|k: int| 0 <= k < s.len() && s[k] == q;
            assert(t[k] == q);
        }
        assert(t[s.len() as int] == x);
    }
}

spec fn refusal(op: LazyOp, v: Val, span: SourceSpan) -> Option<EvalFault> {
    if decide(op, v) is Refused {
        Some(EvalFault::PredicateType { value: v, span })
    } else {
        None
    }
}

/// One more argument of a connective, stage by stage: its evaluation over the
/// live rows, then its effect on them.
proof fn lemma_lazy_step(
    start: Option<(usize, EvalFault)>,
    op: LazyOp,
    args: Seq<Expr>,
    k: int,
    batch: ColumnBatch,
    sel: Seq<usize>,
    live: Seq<usize>,
    values: Seq<DataValue>,
    vals: Seq<DataValue>,
    still: Seq<usize>,
    after: Seq<DataValue>,
)
    requires
        0 <= k < args.len(),
        sel.len() <= usize::MAX,
        is_selection(sel, batch.height as int),
        tracks(lazy_progress(op, args.take(k), batch, sel), sel.len() as int, live, values),
        values_of(vals, args[k], batch, rows_at(sel, live)),
        is_selection(still, sel.len() as int),
        after.len() == values.len(),
        forall|q: usize| #[trigger] still.contains(q) ==> live.contains(q),
        forall|j: int|
            0 <= j < live.len() ==> still.contains(live[j]) == (decide(
                op,
                (#[trigger] vals[j]).deep_view(),
            ) is Continue),
        forall|j: int|
            0 <= j < live.len() && decide(op, (#[trigger] vals[j]).deep_view()) is Decided
                ==> after[live[j] as int].deep_view() == decide(
                op,
                vals[j].deep_view(),
            )->Decided_0,
        forall|p: int|
            0 <= p < sel.len() && !live.contains(p as usize) ==> #[trigger] after[p] == values[p],
    ensures
        tracks(lazy_progress(op, args.take(k + 1), batch, sel), sel.len() as int, still, after),
        recorded(
            recorded(
                recorded(start, sel, failing(lazy_progress(op, args.take(k), batch, sel))),
                rows_at(sel, live),
                failures(args[k], batch, rows_at(sel, live)),
            ),
            rows_at(sel, live),
            |j: int| refusal(op, vals[j].deep_view(), args[k].at()),
        ) == recorded(start, sel, failing(lazy_progress(op, args.take(k + 1), batch, sel))),
{
    let n = sel.len() as int;
    let height = batch.height as int;
    let rows = rows_at(sel, live);
    let arg = args[k];
    let before = lazy_progress(op, args.take(k), batch, sel);
    let next = lazy_progress(op, args.take(k + 1), batch, sel);
    let f0 = failing(before);
    let f1 = within(live, failures(arg, batch, rows));
    let late = |j: int| refusal(op, vals[j].deep_view(), arg.at());
    let f2 = within(live, late);
    assert(args.take(k + 1).drop_last() =~= args.take(k));
    assert(args.take(k + 1).last() == arg);
    lemma_recorded_within(
        recorded(start, sel, f0),
        sel,
        height,
        live,
        failures(arg, batch, rows),
    );
    lemma_recorded_within(
        recorded(recorded(start, sel, f0), sel, f1),
        sel,
        height,
        live,
        late,
    );
    lemma_recorded_twice(start, sel, height, f0, f1);
    lemma_recorded_twice(start, sel, height, either(f0, f1), f2);
    assert forall|p: int| 0 <= p < n implies #[trigger] either(either(f0, f1), f2)(p) == failing(
        next,
    )(p) && (match next(p) {
        Progress::Pending => still.contains(p as usize),
        Progress::Done(Ok(v)) => !still.contains(p as usize) && after[p].deep_view() == v,
        Progress::Done(Err(_)) => true,
    }) by {
        let q = p as usize;
        let row = batch.row(sel[p] as int);
        match before(p) {
            Progress::Pending => {
                assert(live.contains(q));
                let j = live.index_of(q);
                assert(live[j] == q);
                assert(rows[j] == sel[p]);
                assert(f1(p) == failures(arg, batch, rows)(j));
                assert(f2(p) == late(j));
                if eval(arg, row) is Ok {
                    assert(vals[j].deep_view() == eval(arg, row)->Ok_0);
                }
            },
            Progress::Done(Ok(v)) => {
                assert(!live.contains(q));
                assert(f1(p) is None);
                assert(f2(p) is None);
                assert(after[p] == values[p]);
            },
            Progress::Done(Err(_)) => {},
        }
    }
    assert forall|p: int| 0 <= p < n implies #[trigger] either(either(f0, f1), f2)(p) == failing(
        next,
    )(p) by {}
    lemma_recorded_ext(start, sel, either(either(f0, f1), f2), failing(next));
    assert forall|p: int| 0 <= p < n implies match #[trigger] next(p) {
        Progress::Pending => still.contains(p as usize),
        Progress::Done(Ok(v)) => !still.contains(p as usize) && after[p].deep_view() == v,
        Progress::Done(Err(_)) => true,
    } by {
        assert(either(either(f0, f1), f2)(p) == failing(next)(p));
    }
}

fn eval_lazy(
    op: LazyOp,
    args: &Vec<Expr>,
    batch: &ColumnBatch,
    sel: &Vec<usize>,
    errors: &mut ErrorMin,
) -> (out: Vec<DataValue>)
    requires
        batch.wf(),
        is_selection(sel@, batch.height as int),
    ensures
        out@.len() == sel@.len(),
        forall|i: int|
            0 <= i < sel@.len() && finished(
                lazy_upto(op, args@, batch.row(sel@[i] as int)),
                identity(op),
            ) is Ok ==> (#[trigger] out@[i]).deep_view() == finished(
                lazy_upto(op, args@, batch.row(sel@[i] as int)),
                identity(op),
            )->Ok_0,
        final(errors).least() == recorded(
            old(errors).least(),
            sel@,
            |i: int|
                failure(
                    finished(
                        lazy_upto(op, args@, batch.row(sel@[i] as int)),
                        identity(op),
                    ),
                ),
        ),
    decreases args,
{
    let ghost start = errors.least();
    let ghost height = batch.height as int;
    let n: usize = sel.len();
    let mut values = nulls(n);
    let mut live = select_all(n);
    let mut k: usize = 0;
    proof {
        assert(args@.take(0) =~= Seq::<Expr>::empty());
        let pr = lazy_progress(op, args@.take(0), *batch, sel@);
        assert forall|p: int| 0 <= p < n implies #[trigger] pr(p) == Progress::Pending
            && live@.contains(p as usize) by {
            assert(live@[p] == p);
        }
        lemma_none_recorded(start, sel@, failing(pr));
    }
    while k < args.len() && live.len() > 0
        invariant
            k <= args@.len(),
            n == sel@.len(),
            batch.wf(),
            height == batch.height as int,
            is_selection(sel@, height),
            tracks(
                lazy_progress(op, args@.take(k as int), *batch, sel@),
                n as int,
                live@,
                values@,
            ),
            errors.least() == recorded(
                start,
                sel@,
                failing(lazy_progress(op, args@.take(k as int), *batch, sel@)),
            ),
        decreases args.len() - k,
    {
        let rows = sub_selection(sel, &live);
        proof {
            lemma_recorded_within(
                errors.least(),
                sel@,
                height,
                live@,
                failures(args@[k as int], *batch, rows@),
            );
        }
        let ghost before = errors.least();
        let vals = eval_node(&args[k], batch, &rows, errors);
        let span = args[k].span();
        let ghost mid = errors.least();
        let ghost late = |j: int| refusal(op, vals@[j].deep_view(), span);
        let ghost old_values = values@;
        let mut still: Vec<usize> = Vec::new();
        let mut j: usize = 0;
        proof {
            lemma_none_recorded(mid, rows@.take(0), late);
        }
        while j < live.len()
            invariant
                j <= live@.len(),
                is_selection(live@, n as int),
                is_selection(rows@, height),
                rows@.len() == live@.len(),
                vals@.len() == live@.len(),
                values@.len() == n,
                old_values.len() == n,
                late == (|i: int| refusal(op, vals@[i].deep_view(), span)),
                errors.least() == recorded(mid, rows@.take(j as int), late),
                is_selection(still@, n as int),
                forall|q: usize| #[trigger]
                    still@.contains(q) ==> exists|i: int|
                        0 <= i < j && #[trigger] live@[i] == q && decide(
                            op,
                            vals@[i].deep_view(),
                        ) is Continue,
                forall|i: int|
                    0 <= i < j && decide(op, (#[trigger] vals@[i]).deep_view()) is Continue
                        ==> still@.contains(live@[i]),
                forall|i: int|
                    0 <= i < j && decide(op, (#[trigger] vals@[i]).deep_view()) is Decided
                        ==> values@[live@[i] as int].deep_view() == decide(
                        op,
                        vals@[i].deep_view(),
                    )->Decided_0,
                forall|p: int|
                    0 <= p < n && (forall|i: int| 0 <= i < j ==> #[trigger] live@[i] != p)
                        ==> #[trigger] values@[p] == old_values[p],
            decreases live.len() - j,
        {
            let pos: usize = live[j];
            let ghost s0 = still@;
            let ghost v0 = values@;
            proof {
                lemma_record_next(mid, rows@, height, late, j as int);
                assert forall|i: int| 0 <= i < s0.len() implies (#[trigger] s0[i]) < pos by {
                    assert(s0.contains(s0[i]));
                    let w = choose|w: int|
                        0 <= w < j && #[trigger] live@[w] == s0[i] && decide(
                            op,
                            vals@[w].deep_view(),
                        ) is Continue;
                    assert(live@[w] < live@[j as int]);
                }
            }
            match decide_value(op, &vals[j]) {
                Verdict::Continue => {
                    proof {
                        lemma_push_selection(s0, pos, n as int);
                    }
                    still.push(pos);
                },
                Verdict::Decided(d) => {
                    values.set(pos, d);
                },
                Verdict::Refused => {
                    errors.offer(rows[j], EvalError::PredicateType { value: vals[j].clone(), span });
                },
            }
            proof {
                assert forall|q: usize| #[trigger] still@.contains(q) implies exists|i: int|
                    0 <= i < j + 1 && #[trigger] live@[i] == q && decide(
                        op,
                        vals@[i].deep_view(),
                    ) is Continue by {
                    if s0.contains(q) {
                        let w = choose|w: int|
                            0 <= w < j && #[trigger] live@[w] == q && decide(
                                op,
                                vals@[w].deep_view(),
                            ) is Continue;
                        assert(live@[w] == q);
                    } else {
                        assert(live@[j as int] == q);
                    }
                }
                assert forall|i: int|
                    0 <= i < j + 1 && decide(op, (#[trigger] vals@[i]).deep_view())
                        is Decided implies values@[live@[i] as int].deep_view() == decide(
                    op,
                    vals@[i].deep_view(),
                )->Decided_0 by {
                    if i < j {
                        assert(live@[i] < live@[j as int]);
                    }
                }
                assert forall|p: int|
                    0 <= p < n && (forall|i: int|
                        0 <= i < j + 1 ==> #[trigger] live@[i] != p) implies #[trigger] values@[p]
                    == old_values[p] by {
                    assert(live@[j as int] != p);
                    assert(v0[p] == old_values[p]);
                }
            }
            j = j + 1;
        }
        proof {
            assert(rows@.take(j as int) =~= rows@);
            assert forall|q: usize| #[trigger] still@.contains(q) implies live@.contains(q) by {
                let w = choose|w: int|
                    0 <= w < j && #[trigger] live@[w] == q && decide(op, vals@[w].deep_view())
                        is Continue;
                assert(live@.contains(live@[w]));
            }
            assert forall|i: int| 0 <= i < live@.len() implies still@.contains(live@[i]) == (
            decide(op, (#[trigger] vals@[i]).deep_view()) is Continue) by {
                if still@.contains(live@[i]) {
                    let w = choose|w: int|
                        0 <= w < j && #[trigger] live@[w] == live@[i] && decide(
                            op,
                            vals@[w].deep_view(),
                        ) is Continue;
                    lemma_position(live@, n as int, i);
                    lemma_position(live@, n as int, w);
                    assert(w == i);
                }
            }
            assert forall|p: int|
                0 <= p < sel@.len() && !live@.contains(p as usize) implies #[trigger] values@[p]
                == old_values[p] by {
                assert forall|i: int| 0 <= i < j implies #[trigger] live@[i] != p by {
                    assert(live@.contains(live@[i]));
                }
            }
            lemma_lazy_step(
                start,
                op,
                args@,
                k as int,
                *batch,
                sel@,
                live@,
                old_values,
                vals@,
                still@,
                values@,
            );
            lemma_recorded_ext(
                mid,
                rows@,
                late,
                |i: int| refusal(op, vals@[i].deep_view(), args@[k as int].at()),
            );
        }
        live = still;
        k = k + 1;
    }
    let ghost part = lazy_progress(op, args@.take(k as int), *batch, sel@);
    let ghost decided = values@;
    let mut j: usize = 0;
    while j < live.len()
        invariant
            j <= live@.len(),
            is_selection(live@, n as int),
            values@.len() == n,
            decided.len() == n,
            forall|i: int|
                0 <= i < j ==> values@[(#[trigger] live@[i]) as int].deep_view() == identity(op),
            forall|p: int|
                0 <= p < n && !live@.contains(p as usize) ==> #[trigger] values@[p] == decided[p],
        decreases live.len() - j,
    {
        let pos: usize = live[j];
        let ghost v0 = values@;
        values.set(pos, identity_value(op));
        proof {
            assert forall|i: int| 0 <= i < j + 1 implies values@[(
            #[trigger] live@[i]) as int].deep_view() == identity(op) by {
                if i < j {
                    assert(live@[i] < live@[j as int]);
                }
            }
            assert forall|p: int|
                0 <= p < n && !live@.contains(p as usize) implies #[trigger] values@[p]
                == decided[p] by {
                assert(live@.contains(live@[j as int]));
                assert(v0[p] == decided[p]);
            }
        }
        j = j + 1;
    }
    proof {
        let whole = |i: int|
            failure(finished(lazy_upto(op, args@, batch.row(sel@[i] as int)), identity(op)));
        assert forall|p: int| 0 <= p < n implies #[trigger] failing(part)(p) == whole(p) && (
        finished(lazy_upto(op, args@, batch.row(sel@[p] as int)), identity(op)) is Ok
            ==> values@[p].deep_view() == finished(
            lazy_upto(op, args@, batch.row(sel@[p] as int)),
            identity(op),
        )->Ok_0) by {
            let row = batch.row(sel@[p] as int);
            match part(p) {
                Progress::Pending => {
                    assert(live@.contains(p as usize));
                    assert(live@.len() > 0);
                    assert(k == args@.len());
                    assert(args@.take(k as int) =~= args@);
                    let i = live@.index_of(p as usize);
                    assert(live@[i] == p as usize);
                },
                Progress::Done(d) => {
                    lemma_lazy_done(op, args@, k as int, row);
                    if d is Ok {
                        assert(!live@.contains(p as usize));
                        assert(values@[p] == decided[p]);
                    }
                },
            }
        }
        lemma_recorded_ext(start, sel@, failing(part), whole);
        assert forall|i: int|
            0 <= i < sel@.len() && finished(
                lazy_upto(op, args@, batch.row(sel@[i] as int)),
                identity(op),
            ) is Ok implies (#[trigger] values@[i]).deep_view() == finished(
            lazy_upto(op, args@, batch.row(sel@[i] as int)),
            identity(op),
        )->Ok_0 by {
            assert(failing(part)(i) == whole(i));
        }
    }
    values
}

spec fn no_truth(v: Val, span: SourceSpan) -> Option<EvalFault> {
    if v is Bool {
        None
    } else {
        Some(EvalFault::PredicateType { value: v, span })
    }
}

/// One more clause of a conditional, stage by stage: its condition over the
/// live rows, the rows it refuses, and its value over the rows it takes.
proof fn lemma_cond_step(
    start: Option<(usize, EvalFault)>,
    clauses: Seq<(Expr, Expr)>,
    k: int,
    batch: ColumnBatch,
    sel: Seq<usize>,
    live: Seq<usize>,
    values: Seq<DataValue>,
    vals: Seq<DataValue>,
    taken: Seq<usize>,
    passed: Seq<usize>,
    arm: Seq<DataValue>,
    after: Seq<DataValue>,
)
    requires
        0 <= k < clauses.len(),
        sel.len() <= usize::MAX,
        is_selection(sel, batch.height as int),
        tracks(cond_progress(clauses.take(k), batch, sel), sel.len() as int, live, values),
        values_of(vals, clauses[k].0, batch, rows_at(sel, live)),
        is_selection(taken, sel.len() as int),
        is_selection(passed, sel.len() as int),
        forall|q: usize| #[trigger] taken.contains(q) ==> live.contains(q),
        forall|q: usize| #[trigger] passed.contains(q) ==> live.contains(q),
        forall|j: int|
            0 <= j < live.len() ==> taken.contains(live[j]) == ((#[trigger] vals[j]).deep_view()
                == Val::Bool(true)) && passed.contains(live[j]) == (vals[j].deep_view()
                == Val::Bool(false)),
        values_of(arm, clauses[k].1, batch, rows_at(sel, taken)),
        after.len() == values.len(),
        forall|i: int|
            0 <= i < taken.len() ==> after[(#[trigger] taken[i]) as int].deep_view()
                == arm[i].deep_view(),
        forall|p: int|
            0 <= p < sel.len() && !taken.contains(p as usize) ==> #[trigger] after[p] == values[p],
    ensures
        tracks(cond_progress(clauses.take(k + 1), batch, sel), sel.len() as int, passed, after),
        recorded(
            recorded(
                recorded(
                    recorded(start, sel, failing(cond_progress(clauses.take(k), batch, sel))),
                    rows_at(sel, live),
                    failures(clauses[k].0, batch, rows_at(sel, live)),
                ),
                rows_at(sel, live),
                |j: int| no_truth(vals[j].deep_view(), clauses[k].0.at()),
            ),
            rows_at(sel, taken),
            failures(clauses[k].1, batch, rows_at(sel, taken)),
        ) == recorded(start, sel, failing(cond_progress(clauses.take(k + 1), batch, sel))),
{
    let n = sel.len() as int;
    let height = batch.height as int;
    let rows = rows_at(sel, live);
    let tub = rows_at(sel, taken);
    let c = clauses[k].0;
    let v = clauses[k].1;
    let before = cond_progress(clauses.take(k), batch, sel);
    let next = cond_progress(clauses.take(k + 1), batch, sel);
    let f0 = failing(before);
    let f1 = within(live, failures(c, batch, rows));
    let late = |j: int| no_truth(vals[j].deep_view(), c.at());
    let f2 = within(live, late);
    let f3 = within(taken, failures(v, batch, tub));
    assert(clauses.take(k + 1).drop_last() =~= clauses.take(k));
    assert(clauses.take(k + 1).last() == clauses[k]);
    let m0 = recorded(start, sel, f0);
    lemma_recorded_within(m0, sel, height, live, failures(c, batch, rows));
    let m1 = recorded(m0, sel, f1);
    lemma_recorded_within(m1, sel, height, live, late);
    let m2 = recorded(m1, sel, f2);
    lemma_recorded_within(m2, sel, height, taken, failures(v, batch, tub));
    lemma_recorded_twice(start, sel, height, f0, f1);
    lemma_recorded_twice(start, sel, height, either(f0, f1), f2);
    lemma_recorded_twice(start, sel, height, either(either(f0, f1), f2), f3);
    let all = either(either(either(f0, f1), f2), f3);
    assert forall|p: int| 0 <= p < n implies #[trigger] all(p) == failing(next)(p) && (match next(
        p,
    ) {
        Progress::Pending => passed.contains(p as usize),
        Progress::Done(Ok(d)) => !passed.contains(p as usize) && after[p].deep_view() == d,
        Progress::Done(Err(_)) => true,
    }) by {
        let q = p as usize;
        let row = batch.row(sel[p] as int);
        match before(p) {
            Progress::Pending => {
                assert(live.contains(q));
                let j = live.index_of(q);
                assert(live[j] == q);
                assert(rows[j] == sel[p]);
                assert(f1(p) == failures(c, batch, rows)(j));
                assert(f2(p) == late(j));
                if eval(c, row) is Ok {
                    assert(vals[j].deep_view() == eval(c, row)->Ok_0);
                    if eval(c, row)->Ok_0 == Val::Bool(true) {
                        assert(taken.contains(q));
                        let i = taken.index_of(q);
                        assert(taken[i] == q);
                        assert(tub[i] == sel[p]);
                        assert(f3(p) == failures(v, batch, tub)(i));
                        if eval(v, row) is Ok {
                            assert(arm[i].deep_view() == eval(v, row)->Ok_0);
                        }
                    } else {
                        assert(!taken.contains(q));
                        assert(f3(p) is None);
                    }
                }
            },
            Progress::Done(Ok(d)) => {
                assert(!live.contains(q));
                assert(!taken.contains(q));
                assert(f1(p) is None);
                assert(f2(p) is None);
                assert(f3(p) is None);
                assert(after[p] == values[p]);
            },
            Progress::Done(Err(_)) => {},
        }
    }
    assert forall|p: int| 0 <= p < n implies #[trigger] all(p) == failing(next)(p) by {}
    lemma_recorded_ext(start, sel, all, failing(next));
    assert forall|p: int| 0 <= p < n implies match #[trigger] next(p) {
        Progress::Pending => passed.contains(p as usize),
        Progress::Done(Ok(d)) => !passed.contains(p as usize) && after[p].deep_view() == d,
        Progress::Done(Err(_)) => true,
    } by {
        assert(all(p) == failing(next)(p));
    }
}

/// Split the live positions by their condition: those it takes and those it
/// passes on. A value that is no truth value is recorded as a failure.
fn split_live(
    live: &Vec<usize>,
    vals: &Vec<DataValue>,
    rows: &Vec<usize>,
    span: SourceSpan,
    errors: &mut ErrorMin,
    Ghost(n): Ghost<int>,
    Ghost(height): Ghost<int>,
) -> (r: (Vec<usize>, Vec<usize>))
    requires
        is_selection(live@, n),
        is_selection(rows@, height),
        rows@.len() == live@.len(),
        vals@.len() == live@.len(),
    ensures
        is_selection(r.0@, n),
        is_selection(r.1@, n),
        forall|q: usize| #[trigger] r.0@.contains(q) ==> live@.contains(q),
        forall|q: usize| #[trigger] r.1@.contains(q) ==> live@.contains(q),
        forall|j: int|
            0 <= j < live@.len() ==> r.0@.contains(live@[j]) == ((#[trigger] vals@[j]).deep_view()
                == Val::Bool(true)) && r.1@.contains(live@[j]) == (vals@[j].deep_view()
                == Val::Bool(false)),
        final(errors).least() == recorded(
            old(errors).least(),
            rows@,
            |j: int| no_truth(vals@[j].deep_view(), span),
        ),
{
    let ghost mid = errors.least();
    let ghost late = |j: int| no_truth(vals@[j].deep_view(), span);
    let mut taken: Vec<usize> = Vec::new();
    let mut passed: Vec<usize> = Vec::new();
    let mut j: usize = 0;
    proof {
        lemma_none_recorded(mid, rows@.take(0), late);
    }
    while j < live.len()
        invariant
            j <= live@.len(),
            is_selection(live@, n),
            is_selection(rows@, height),
            rows@.len() == live@.len(),
            vals@.len() == live@.len(),
            late == (|i: int| no_truth(vals@[i].deep_view(), span)),
            errors.least() == recorded(mid, rows@.take(j as int), late),
            is_selection(taken@, n),
            is_selection(passed@, n),
            forall|q: usize| #[trigger]
                taken@.contains(q) ==> exists|i: int|
                    0 <= i < j && #[trigger] live@[i] == q && vals@[i].deep_view() == Val::Bool(
                        true,
                    ),
            forall|q: usize| #[trigger]
                passed@.contains(q) ==> exists|i: int|
                    0 <= i < j && #[trigger] live@[i] == q && vals@[i].deep_view() == Val::Bool(
                        false,
                    ),
            forall|i: int|
                0 <= i < j && (#[trigger] vals@[i]).deep_view() == Val::Bool(true)
                    ==> taken@.contains(live@[i]),
            forall|i: int|
                0 <= i < j && (#[trigger] vals@[i]).deep_view() == Val::Bool(false)
                    ==> passed@.contains(live@[i]),
        decreases live.len() - j,
    {
        let pos: usize = live[j];
        let ghost t0 = taken@;
        let ghost p0 = passed@;
        proof {
            lemma_record_next(mid, rows@, height, late, j as int);
            assert forall|i: int| 0 <= i < t0.len() implies (#[trigger] t0[i]) < pos by {
                assert(t0.contains(t0[i]));
                let w = choose|w: int|
                    0 <= w < j && #[trigger] live@[w] == t0[i] && vals@[w].deep_view()
                        == Val::Bool(true);
                assert(live@[w] < live@[j as int]);
            }
            assert forall|i: int| 0 <= i < p0.len() implies (#[trigger] p0[i]) < pos by {
                assert(p0.contains(p0[i]));
                let w = choose|w: int|
                    0 <= w < j && #[trigger] live@[w] == p0[i] && vals@[w].deep_view()
                        == Val::Bool(false);
                assert(live@[w] < live@[j as int]);
            }
        }
        match &vals[j] {
            DataValue::Bool(b) => if *b {
                proof {
                    lemma_push_selection(t0, pos, n);
                }
                taken.push(pos);
            } else {
                proof {
                    lemma_push_selection(p0, pos, n);
                }
                passed.push(pos);
            },
            _ => {
                errors.offer(rows[j], EvalError::PredicateType { value: vals[j].clone(), span });
            },
        }
        proof {
            assert forall|q: usize| #[trigger] taken@.contains(q) implies exists|i: int|
                0 <= i < j + 1 && #[trigger] live@[i] == q && vals@[i].deep_view() == Val::Bool(
                    true,
                ) by {
                if t0.contains(q) {
                    let w = choose|w: int|
                        0 <= w < j && #[trigger] live@[w] == q && vals@[w].deep_view()
                            == Val::Bool(true);
                    assert(live@[w] == q);
                } else {
                    assert(live@[j as int] == q);
                }
            }
            assert forall|q: usize| #[trigger] passed@.contains(q) implies exists|i: int|
                0 <= i < j + 1 && #[trigger] live@[i] == q && vals@[i].deep_view() == Val::Bool(
                    false,
                ) by {
                if p0.contains(q) {
                    let w = choose|w: int|
                        0 <= w < j && #[trigger] live@[w] == q && vals@[w].deep_view()
                            == Val::Bool(false);
                    assert(live@[w] == q);
                } else {
                    assert(live@[j as int] == q);
                }
            }
        }
        j = j + 1;
    }
    proof {
        assert(rows@.take(j as int) =~= rows@);
        assert forall|q: usize| #[trigger] taken@.contains(q) implies live@.contains(q) by {
            let w = choose|w: int|
                0 <= w < j && #[trigger] live@[w] == q && vals@[w].deep_view() == Val::Bool(true);
            assert(live@.contains(live@[w]));
        }
        assert forall|q: usize| #[trigger] passed@.contains(q) implies live@.contains(q) by {
            let w = choose|w: int|
                0 <= w < j && #[trigger] live@[w] == q && vals@[w].deep_view() == Val::Bool(false);
            assert(live@.contains(live@[w]));
        }
        assert forall|i: int| 0 <= i < live@.len() implies taken@.contains(live@[i]) == ((
        #[trigger] vals@[i]).deep_view() == Val::Bool(true)) && passed@.contains(live@[i]) == (
        vals@[i].deep_view() == Val::Bool(false)) by {
            lemma_position(live@, n, i);
            if taken@.contains(live@[i]) {
                let w = choose|w: int|
                    0 <= w < j && #[trigger] live@[w] == live@[i] && vals@[w].deep_view()
                        == Val::Bool(true);
                lemma_position(live@, n, w);
            }
            if passed@.contains(live@[i]) {
                let w = choose|w: int|
                    0 <= w < j && #[trigger] live@[w] == live@[i] && vals@[w].deep_view()
                        == Val::Bool(false);
                lemma_position(live@, n, w);
            }
        }
    }
    (taken, passed)
}

/// Put the values of a part of the rows at their positions.
fn stitch(values: &mut Vec<DataValue>, taken: &Vec<usize>, arm: &Vec<DataValue>)
    requires
        is_selection(taken@, old(values)@.len() as int),
        arm@.len() == taken@.len(),
    ensures
        final(values)@.len() == old(values)@.len(),
        forall|i: int|
            0 <= i < taken@.len() ==> final(values)@[(#[trigger] taken@[i]) as int].deep_view()
                == arm@[i].deep_view(),
        forall|p: int|
            0 <= p < old(values)@.len() && !taken@.contains(p as usize)
                ==> (#[trigger] final(values)@[p]) == old(values)@[p],
{
    let ghost before = values@;
    let mut i: usize = 0;
    while i < taken.len()
        invariant
            i <= taken@.len(),
            is_selection(taken@, before.len() as int),
            before == old(values)@,
            values@.len() == before.len(),
            arm@.len() == taken@.len(),
            forall|j: int|
                0 <= j < i ==> values@[(#[trigger] taken@[j]) as int].deep_view()
                    == arm@[j].deep_view(),
            forall|p: int|
                0 <= p < before.len() && !taken@.contains(p as usize) ==> #[trigger] values@[p]
                    == before[p],
        decreases taken.len() - i,
    {
        let pos: usize = taken[i];
        let ghost v0 = values@;
        let copy = arm[i].clone();
        values.set(pos, copy);
        proof {
            assert forall|j: int| 0 <= j < i + 1 implies values@[(
            #[trigger] taken@[j]) as int].deep_view() == arm@[j].deep_view() by {
                if j < i {
                    assert(taken@[j] < taken@[i as int]);
                }
            }
            assert forall|p: int|
                0 <= p < before.len() && !taken@.contains(p as usize) implies #[trigger] values@[p]
                == before[p] by {
                assert(taken@.contains(taken@[i as int]));
                assert(v0[p] == before[p]);
            }
        }
        i = i + 1;
    }
}

fn eval_cond(
    clauses: &Vec<(Expr, Expr)>,
    batch: &ColumnBatch,
    sel: &Vec<usize>,
    errors: &mut ErrorMin,
) -> (out: Vec<DataValue>)
    requires
        batch.wf(),
        is_selection(sel@, batch.height as int),
    ensures
        out@.len() == sel@.len(),
        forall|i: int|
            0 <= i < sel@.len() && finished(
                cond_upto(clauses@, batch.row(sel@[i] as int)),
                Val::Null,
            ) is Ok ==> (#[trigger] out@[i]).deep_view() == finished(
                cond_upto(clauses@, batch.row(sel@[i] as int)),
                Val::Null,
            )->Ok_0,
        final(errors).least() == recorded(
            old(errors).least(),
            sel@,
            |i: int|
                failure(
                    finished(cond_upto(clauses@, batch.row(sel@[i] as int)), Val::Null),
                ),
        ),
    decreases clauses,
{
    let ghost start = errors.least();
    let ghost height = batch.height as int;
    let n: usize = sel.len();
    let mut values = nulls(n);
    let mut live = select_all(n);
    let mut k: usize = 0;
    proof {
        assert(clauses@.take(0) =~= Seq::<(Expr, Expr)>::empty());
        let pr = cond_progress(clauses@.take(0), *batch, sel@);
        assert forall|p: int| 0 <= p < n implies #[trigger] pr(p) == Progress::Pending
            && live@.contains(p as usize) by {
            assert(live@[p] == p);
        }
        lemma_none_recorded(start, sel@, failing(pr));
    }
    while k < clauses.len() && live.len() > 0
        invariant
            k <= clauses@.len(),
            n == sel@.len(),
            batch.wf(),
            height == batch.height as int,
            is_selection(sel@, height),
            tracks(
                cond_progress(clauses@.take(k as int), *batch, sel@),
                n as int,
                live@,
                values@,
            ),
            errors.least() == recorded(
                start,
                sel@,
                failing(cond_progress(clauses@.take(k as int), *batch, sel@)),
            ),
        decreases clauses.len() - k,
    {
        let rows = sub_selection(sel, &live);
        proof {
            lemma_recorded_within(
                errors.least(),
                sel@,
                height,
                live@,
                failures(clauses@[k as int].0, *batch, rows@),
            );
        }
        let vals = eval_node(&clauses[k].0, batch, &rows, errors);
        let span = clauses[k].0.span();
        let (taken, passed) = split_live(
            &live,
            &vals,
            &rows,
            span,
            errors,
            Ghost(n as int),
            Ghost(height),
        );
        let tub = sub_selection(sel, &taken);
        let ghost mid = errors.least();
        proof {
            lemma_recorded_within(
                mid,
                sel@,
                height,
                taken@,
                failures(clauses@[k as int].1, *batch, tub@),
            );
        }
        let arm = if taken.len() > 0 {
            eval_node(&clauses[k].1, batch, &tub, errors)
        } else {
            proof {
                lemma_none_recorded(mid, tub@, failures(clauses@[k as int].1, *batch, tub@));
            }
            Vec::new()
        };
        let ghost old_values = values@;
        stitch(&mut values, &taken, &arm);
        proof {
            lemma_cond_step(
                start,
                clauses@,
                k as int,
                *batch,
                sel@,
                live@,
                old_values,
                vals@,
                taken@,
                passed@,
                arm@,
                values@,
            );
        }
        live = passed;
        k = k + 1;
    }
    let ghost part = cond_progress(clauses@.take(k as int), *batch, sel@);
    let ghost decided = values@;
    let rest = nulls(live.len());
    stitch(&mut values, &live, &rest);
    proof {
        let whole = |i: int|
            failure(finished(cond_upto(clauses@, batch.row(sel@[i] as int)), Val::Null));
        assert forall|p: int| 0 <= p < n implies #[trigger] failing(part)(p) == whole(p) && (
        finished(cond_upto(clauses@, batch.row(sel@[p] as int)), Val::Null) is Ok
            ==> values@[p].deep_view() == finished(
            cond_upto(clauses@, batch.row(sel@[p] as int)),
            Val::Null,
        )->Ok_0) by {
            let row = batch.row(sel@[p] as int);
            match part(p) {
                Progress::Pending => {
                    assert(live@.contains(p as usize));
                    assert(live@.len() > 0);
                    assert(k == clauses@.len());
                    assert(clauses@.take(k as int) =~= clauses@);
                    let i = live@.index_of(p as usize);
                    assert(live@[i] == p as usize);
                },
                Progress::Done(d) => {
                    lemma_cond_done(clauses@, k as int, row);
                    if d is Ok {
                        assert(!live@.contains(p as usize));
                        assert(values@[p] == decided[p]);
                    }
                },
            }
        }
        lemma_recorded_ext(start, sel@, failing(part), whole);
        assert forall|i: int|
            0 <= i < sel@.len() && finished(
                cond_upto(clauses@, batch.row(sel@[i] as int)),
                Val::Null,
            ) is Ok implies (#[trigger] values@[i]).deep_view() == finished(
            cond_upto(clauses@, batch.row(sel@[i] as int)),
            Val::Null,
        )->Ok_0 by {
            assert(failing(part)(i) == whole(i));
        }
    }
    values
}

/// The values of an expression at the rows of a selection, in order, or the
/// failure of the first row that fails.
pub open spec fn eval_rows(e: Expr, batch: ColumnBatch, sel: Seq<usize>) -> Result<
    Seq<Val>,
    EvalFault,
> {
    let k = first_failing(failures(e, batch, sel), 0, sel.len() as int);
    if k < sel.len() {
        Err(failures(e, batch, sel)(k)->Some_0)
    } else {
        Ok(Seq::new(sel.len(), |i: int| eval(e, batch.row(sel[i] as int))->Ok_0))
    }
}

/// Evaluate an expression over the live rows of a batch: the values in
/// selection order, or the error that evaluating row by row would raise first.
pub fn eval_expr_batched(e: &Expr, batch: &ColumnBatch, selection: &Vec<usize>) -> (r: Result<
    Vec<DataValue>,
    EvalError,
>)
    requires
        batch.wf(),
        is_selection(selection@, batch.height as int),
    ensures
        match r {
            Ok(vals) => eval_rows(*e, *batch, selection@) == Ok::<Seq<Val>, EvalFault>(
                vals.deep_view(),
            ),
            Err(err) => eval_rows(*e, *batch, selection@) == Err::<Seq<Val>, EvalFault>(
                err.deep_view(),
            ),
        },
{
    let mut errors = ErrorMin { min: None };
    let out = eval_node(e, batch, selection, &mut errors);
    let ghost fails = failures(*e, *batch, selection@);
    proof {
        lemma_first_failing(fails, 0, selection@.len() as int);
    }
    match errors.min {
        Some(m) => Err(m.1),
        None => {
            proof {
                assert(first_failing(fails, 0, selection@.len() as int) == selection@.len());
                let want = Seq::new(
                    selection@.len(),
                    |i: int| eval(*e, batch.row(selection@[i] as int))->Ok_0,
                );
                assert forall|i: int| 0 <= i < selection@.len() implies out.deep_view()[i]
                    == want[i] by {
                    assert(fails(i) is None);
                    assert(out@[i].deep_view() == eval(*e, batch.row(selection@[i] as int))->Ok_0);
                }
                assert(out.deep_view() =~= want);
            }
            Ok(out)
        },
    }
}

/// Columnar evaluation is row-by-row evaluation: for every expression and every
/// batch its result is the values of the rows in order, or the error of the
/// first row that fails.
pub proof fn law_columnar_is_row_by_row(
    e: Expr,
    batch: ColumnBatch,
    selection: Seq<usize>,
    r: Result<Seq<Val>, EvalFault>,
)
    requires
        r == eval_rows(e, batch, selection),
    ensures
        match r {
            Ok(vals) => {
                &&& vals.len() == selection.len()
                &&& forall|i: int|
                    0 <= i < selection.len() ==> eval(e, batch.row(selection[i] as int)) == Ok::<
                        Val,
                        EvalFault,
                    >(#[trigger] vals[i])
            },
            Err(err) => exists|k: int|
                0 <= k < selection.len() && (#[trigger] eval(e, batch.row(selection[k] as int)))
                    == Err::<Val, EvalFault>(err) && forall|j: int|
                    0 <= j < k ==> (#[trigger] eval(e, batch.row(selection[j] as int))) is Ok,
        },
{
    let fails = failures(e, batch, selection);
    let n = selection.len() as int;
    lemma_first_failing(fails, 0, n);
    let k = first_failing(fails, 0, n);
    match r {
        Ok(vals) => {
            assert forall|i: int| 0 <= i < selection.len() implies eval(
                e,
                batch.row(selection[i] as int),
            ) == Ok::<Val, EvalFault>(#[trigger] vals[i]) by {
                assert(fails(i) is None);
            }
        },
        Err(err) => {
            assert(eval(e, batch.row(selection[k] as int)) == Err::<Val, EvalFault>(err));
            assert forall|j: int| 0 <= j < k implies (#[trigger] eval(
                e,
                batch.row(selection[j] as int),
            )) is Ok by {
                assert(fails(j) is None);
            }
        },
    }
}

/// The rows of a selection at which a predicate is true.
pub open spec fn is_refined(
    keep: Seq<usize>,
    e: Expr,
    batch: ColumnBatch,
    sel: Seq<usize>,
) -> bool {
    &&& is_selection(keep, batch.height as int)
    &&& forall|r: usize| #[trigger]
        keep.contains(r) == (sel.contains(r) && eval(e, batch.row(r as int)) == Ok::<
            Val,
            EvalFault,
        >(Val::Bool(true)))
}

/// How a predicate fails at a row: as its evaluation does, or by a value that
/// is no truth value.
pub open spec fn pred_failure(e: Expr, row: Row) -> Option<EvalFault> {
    match eval(e, row) {
        Err(err) => Some(err),
        Ok(Val::Bool(_)) => None,
        Ok(v) => Some(EvalFault::PredicateType { value: v, span: e.at() }),
    }
}

/// How a predicate fails at each row of a selection.
pub open spec fn pred_failures(
    e: Expr,
    batch: ColumnBatch,
    sel: Seq<usize>,
) -> spec_fn(int) -> Option<EvalFault> {
    |i: int| pred_failure(e, batch.row(sel[i] as int))
}

/// Evaluate a predicate over the live rows: the rows where it is true, or the
/// failure of the first row that fails, be it that its evaluation fails or that
/// its value is no truth value.
pub fn eval_pred_batched(e: &Expr, batch: &ColumnBatch, selection: &Vec<usize>) -> (r: Result<
    Vec<usize>,
    EvalError,
>)
    requires
        batch.wf(),
        is_selection(selection@, batch.height as int),
    ensures
        match r {
            Ok(keep) => {
                &&& is_refined(keep@, *e, *batch, selection@)
                &&& forall|i: int|
                    0 <= i < selection@.len() ==> #[trigger] pred_failures(
                        *e,
                        *batch,
                        selection@,
                    )(i) is None
            },
            Err(err) => exists|k: int|
                0 <= k < selection@.len() && #[trigger] pred_failures(*e, *batch, selection@)(k)
                    == Some(err.deep_view()) && forall|j: int|
                    0 <= j < k ==> #[trigger] pred_failures(*e, *batch, selection@)(j) is None,
        },
{
    let mut errors = ErrorMin { min: None };
    let values = eval_node(e, batch, selection, &mut errors);
    let ghost sel = selection@;
    let ghost fails = failures(*e, *batch, sel);
    let ghost faults = pred_failures(*e, *batch, sel);
    let ghost bad = first_failing(fails, 0, sel.len() as int);
    let mut keep: Vec<usize> = Vec::new();
    let mut i: usize = 0;
    proof {
        lemma_first_failing(fails, 0, sel.len() as int);
    }
    while i < values.len()
        invariant
            i <= values@.len(),
            sel == selection@,
            values_of(values@, *e, *batch, sel),
            fails == failures(*e, *batch, sel),
            faults == pred_failures(*e, *batch, sel),
            bad == first_failing(fails, 0, sel.len() as int),
            i <= bad <= sel.len(),
            forall|j: int| 0 <= j < bad ==> #[trigger] fails(j) is None,
            bad < sel.len() ==> fails(bad) is Some,
            errors.least() == (if bad < sel.len() {
                Some((sel[bad], fails(bad)->Some_0))
            } else {
                None
            }),
            is_selection(sel, batch.height as int),
            forall|j: int| 0 <= j < i ==> #[trigger] faults(j) is None,
            is_selection(keep@, batch.height as int),
            forall|r: usize| #[trigger]
                keep@.contains(r) == exists|j: int|
                    0 <= j < i && #[trigger] sel[j] == r && eval(*e, batch.row(sel[j] as int))
                        == Ok::<Val, EvalFault>(Val::Bool(true)),
        decreases values.len() - i,
    {
        let ghost k0 = keep@;
        let row: usize = selection[i];
        proof {
            assert forall|j: int| 0 <= j < k0.len() implies (#[trigger] k0[j]) < row by {
                assert(k0.contains(k0[j]));
                let w = choose|w: int|
                    0 <= w < i && #[trigger] sel[w] == k0[j] && eval(
                        *e,
                        batch.row(sel[w] as int),
                    ) == Ok::<Val, EvalFault>(Val::Bool(true));
                assert(sel[w] < sel[i as int]);
            }
            if i < bad && bad < sel.len() {
                assert(sel[i as int] < sel[bad]);
            }
        }
        match &errors.min {
            Some(m) => {
                if m.0 == row {
                    proof {
                        assert(i == bad);
                        assert(faults(i as int) == Some(m.1.deep_view()));
                    }
                    return Err(m.1.clone());
                }
            },
            None => {},
        }
        proof {
            assert(i < bad);
            assert(fails(i as int) is None);
            assert(values@[i as int].deep_view() == eval(*e, batch.row(row as int))->Ok_0);
        }
        match &values[i] {
            DataValue::Bool(b) => {
                if *b {
                    proof {
                        lemma_push_selection(k0, row, batch.height as int);
                    }
                    keep.push(row);
                }
                proof {
                    assert(faults(i as int) is None);
                    assert forall|r: usize| #[trigger] keep@.contains(r) == exists|j: int|
                        0 <= j < i + 1 && #[trigger] sel[j] == r && eval(
                            *e,
                            batch.row(sel[j] as int),
                        ) == Ok::<Val, EvalFault>(Val::Bool(true)) by {
                        if k0.contains(r) {
                            let w = choose|w: int|
                                0 <= w < i && #[trigger] sel[w] == r && eval(
                                    *e,
                                    batch.row(sel[w] as int),
                                ) == Ok::<Val, EvalFault>(Val::Bool(true));
                            assert(sel[w] == r);
                        }
                        if *b && r == row {
                            assert(sel[i as int] == r);
                        }
                        if exists|j: int|
                            0 <= j < i + 1 && #[trigger] sel[j] == r && eval(
                                *e,
                                batch.row(sel[j] as int),
                            ) == Ok::<Val, EvalFault>(Val::Bool(true)) {
                            let w = choose|w: int|
                                0 <= w < i + 1 && #[trigger] sel[w] == r && eval(
                                    *e,
                                    batch.row(sel[w] as int),
                                ) == Ok::<Val, EvalFault>(Val::Bool(true));
                            if w < i {
                                assert(k0.contains(r));
                            }
                        }
                    }
                }
            },
            _ => {
                proof {
                    let value = values@[i as int].deep_view();
                    assert(faults(i as int) == Some(
                        EvalFault::PredicateType { value, span: e.at() },
                    ));
                }
                return Err(EvalError::PredicateType { value: values[i].clone(), span: e.span() });
            },
        }
        i = i + 1;
    }
    proof {
        assert forall|r: usize| #[trigger] keep@.contains(r) == (sel.contains(r) && eval(
            *e,
            batch.row(r as int),
        ) == Ok::<Val, EvalFault>(Val::Bool(true))) by {
            if keep@.contains(r) {
                let w = choose|w: int|
                    0 <= w < i && #[trigger] sel[w] == r && eval(*e, batch.row(sel[w] as int))
                        == Ok::<Val, EvalFault>(Val::Bool(true));
                assert(sel.contains(sel[w]));
            }
            if sel.contains(r) && eval(*e, batch.row(r as int)) == Ok::<Val, EvalFault>(
                Val::Bool(true),
            ) {
                let w = sel.index_of(r);
                assert(sel[w] == r);
            }
        }
    }
    Ok(keep)
}

} // verus!
