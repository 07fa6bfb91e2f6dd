//! Unification a batch at a time: the bound expression is evaluated over the
//! columns of the whole batch before any row is extended.

use vstd::prelude::*;
use crate::expr::{eval, EvalError, EvalFault, Expr, SourceSpan};
use crate::groups::GroupStep;
use crate::meaning::unified;
use crate::names::{places_set, Name};
use crate::resolve::{eval_named, lemma_placed, placed};
use crate::steps::unify_row;
use crate::stream::{flow, lemma_flow_step, QueryError, QueryFault, Stream, TupleStream};
use crate::value::{DataValue, Row, Tuple, Val};
use crate::vm::{eval_expr_batched, law_columnar_is_row_by_row, select_all, ColumnBatch};

verus! {

/// The first failure of an expression over rows.
pub open spec fn first_fault(e: Expr, frame: Seq<Name>, rows: Seq<Row>) -> Option<EvalFault>
    decreases rows.len(),
{
    if rows.len() == 0 {
        None
    } else {
        match first_fault(e, frame, rows.drop_last()) {
            Some(err) => Some(err),
            None => match eval_named(e, frame, rows.last()) {
                Err(err) => Some(err),
                Ok(_) => None,
            },
        }
    }
}

/// What comes of a batch under a unification: a failure to evaluate any of its
/// rows comes before everything else.
pub open spec fn unified_group(
    e: Expr,
    frame: Seq<Name>,
    is_multi: bool,
    span: SourceSpan,
    drop: Set<int>,
    rows: Seq<Row>,
) -> Stream {
    match first_fault(e, frame, rows) {
        Some(err) => Stream::failed(QueryFault::Eval(err)),
        None => flow(
            rows,
            |row: Row| unified(row, eval_named(e, frame, row), is_multi, span, drop),
        ),
    }
}

proof fn lemma_first_fault_at(e: Expr, frame: Seq<Name>, rows: Seq<Row>, k: int, err: EvalFault)
    requires
        0 <= k < rows.len(),
        eval_named(e, frame, rows[k]) == Err::<Val, EvalFault>(err),
        forall|j: int| 0 <= j < k ==> (#[trigger] eval_named(e, frame, rows[j])) is Ok,
    ensures
        first_fault(e, frame, rows) == Some(err),
    decreases rows.len(),
{
    let rest = rows.drop_last();
    if k < rows.len() - 1 {
        assert forall|j: int| 0 <= j < k implies (#[trigger] eval_named(
            e,
            frame,
            rest[j],
        )) is Ok by {
            assert(eval_named(e, frame, rows[j]) is Ok);
        }
        lemma_first_fault_at(e, frame, rest, k, err);
    } else {
        assert forall|j: int| 0 <= j < rest.len() implies (#[trigger] eval_named(
            e,
            frame,
            rest[j],
        )) is Ok by {
            assert(eval_named(e, frame, rows[j]) is Ok);
        }
        lemma_no_fault(e, frame, rest);
    }
}

proof fn lemma_no_fault(e: Expr, frame: Seq<Name>, rows: Seq<Row>)
    requires
        forall|j: int| 0 <= j < rows.len() ==> (#[trigger] eval_named(e, frame, rows[j])) is Ok,
    ensures
        first_fault(e, frame, rows) is None,
    decreases rows.len(),
{
    if rows.len() > 0 {
        let rest = rows.drop_last();
        assert forall|j: int| 0 <= j < rest.len() implies (#[trigger] eval_named(
            e,
            frame,
            rest[j],
        )) is Ok by {
            assert(eval_named(e, frame, rows[j]) is Ok);
        }
        lemma_no_fault(e, frame, rest);
        assert(eval_named(e, frame, rows[rows.len() - 1]) is Ok);
    }
}

/// Where no row fails, the batch is unified row by row.
pub proof fn lemma_fault_free(e: Expr, frame: Seq<Name>, rows: Seq<Row>)
    ensures
        first_fault(e, frame, rows) is None <==> forall|j: int|
            0 <= j < rows.len() ==> (#[trigger] eval_named(e, frame, rows[j])) is Ok,
    decreases rows.len(),
{
    if forall|j: int| 0 <= j < rows.len() ==> (#[trigger] eval_named(e, frame, rows[j])) is Ok {
        lemma_no_fault(e, frame, rows);
    }
    if rows.len() > 0 && first_fault(e, frame, rows) is None {
        let rest = rows.drop_last();
        lemma_fault_free(e, frame, rest);
        assert forall|j: int| 0 <= j < rows.len() implies (#[trigger] eval_named(
            e,
            frame,
            rows[j],
        )) is Ok by {
            if j < rest.len() {
                assert(eval_named(e, frame, rest[j]) is Ok);
            }
        }
    }
}

/// A computed column over batches.
pub struct ColumnUnify<'a> {
    pub expr: &'a Expr,
    pub is_multi: bool,
    pub span: SourceSpan,
    pub eliminate: Vec<usize>,
    pub frame: Ghost<Seq<Name>>,
}

impl<'a> ColumnUnify<'a> {
    /// The value of the expression on every row.
    fn values(&self, rows: &Vec<Tuple>) -> (r: Result<Vec<DataValue>, EvalError>)
        requires
            self.takes(rows.deep_view()),
        ensures
            match r {
                Ok(vals) => {
                    &&& first_fault(*self.expr, self.frame@, rows.deep_view()) is None
                    &&& vals.deep_view().len() == rows.deep_view().len()
                    &&& forall|i: int|
                        0 <= i < vals.deep_view().len() ==> eval_named(
                            *self.expr,
                            self.frame@,
                            rows.deep_view()[i],
                        ) == Ok::<Val, EvalFault>(#[trigger] vals.deep_view()[i])
                },
                Err(err) => first_fault(*self.expr, self.frame@, rows.deep_view()) == Some(
                    err.deep_view(),
                ),
            },
    {
        let ghost all = rows.deep_view();
        let ghost frame = self.frame@;
        let ghost e = *self.expr;
        proof {
            assert(all.len() == rows@.len());
        }
        if rows.len() == 0 {
            let none: Vec<DataValue> = Vec::new();
            proof {
                assert(none.deep_view() =~= Seq::<Val>::empty());
            }
            return Ok(none);
        }
        let width: usize = rows[0].len();
        proof {
            assert(all[0] == rows@[0].deep_view());
            assert(rows@[0]@.len() == all[0].len());
            assert forall|i: int| 0 <= i < rows@.len() implies (#[trigger] rows@[i])@.len()
                == width by {
                assert(all[i] == rows@[i].deep_view());
                assert(rows@[i]@.len() == all[i].len());
            }
        }
        let batch = ColumnBatch::from_rows(rows, width);
        let selection = select_all(rows.len());
        let r = eval_expr_batched(self.expr, &batch, &selection);
        proof {
            let m = if r is Ok {
                Ok::<Seq<Val>, EvalFault>(r->Ok_0.deep_view())
            } else {
                Err(r->Err_0.deep_view())
            };
            law_columnar_is_row_by_row(e, batch, selection@, m);
            assert forall|i: int| 0 <= i < all.len() implies #[trigger] eval_named(
                e,
                frame,
                all[i],
            ) == eval(e, batch.row(selection@[i] as int)) by {
                assert(selection@[i] == i);
                assert(batch.row(i) == rows@[i].deep_view());
                lemma_placed(e, frame, all[i]);
            }
            match m {
                Ok(vals) => {
                    assert forall|j: int| 0 <= j < all.len() implies (#[trigger] eval_named(
                        e,
                        frame,
                        all[j],
                    )) is Ok by {
                        assert(eval(e, batch.row(selection@[j] as int)) == Ok::<Val, EvalFault>(
                            vals[j],
                        ));
                    }
                    lemma_no_fault(e, frame, all);
                },
                Err(err) => {
                    let k = choose|k: int|
                        0 <= k < selection@.len() && (#[trigger] eval(
                            e,
                            batch.row(selection@[k] as int),
                        )) == Err::<Val, EvalFault>(err) && forall|j: int|
                            0 <= j < k ==> (#[trigger] eval(
                                e,
                                batch.row(selection@[j] as int),
                            )) is Ok;
                    assert(eval_named(e, frame, all[k]) == Err::<Val, EvalFault>(err));
                    assert forall|j: int| 0 <= j < k implies (#[trigger] eval_named(
                        e,
                        frame,
                        all[j],
                    )) is Ok by {
                        assert(eval(e, batch.row(selection@[j] as int)) is Ok);
                    }
                    lemma_first_fault_at(e, frame, all, k, err);
                },
            }
        }
        r
    }
}

impl<'a> GroupStep for ColumnUnify<'a> {
    open spec fn takes(&self, rows: Seq<Row>) -> bool {
        &&& placed(*self.expr, self.frame@)
        &&& forall|i: int| 0 <= i < rows.len() ==> (#[trigger] rows[i]).len() == self.frame@.len()
    }

    open spec fn gives(&self, rows: Seq<Row>) -> Stream {
        unified_group(
            *self.expr,
            self.frame@,
            self.is_multi,
            self.span,
            places_set(self.eliminate@),
            rows,
        )
    }

    fn step(&self, rows: Vec<Tuple>) -> (r: TupleStream) {
        let ghost all = rows.deep_view();
        let mut values = match self.values(&rows) {
            Ok(v) => v,
            Err(err) => {
                return TupleStream::failed(QueryError::Eval(err));
            },
        };
        let ghost vals = values.deep_view();
        let ghost drop = places_set(self.eliminate@);
        let ghost g = |row: Row|
            unified(
                row,
                eval_named(*self.expr, self.frame@, row),
                self.is_multi,
                self.span,
                drop,
            );
        let mut out = TupleStream::nothing();
        let mut i: usize = 0;
        proof {
            assert(all.len() == rows@.len());
            assert(vals.len() == values@.len());
            assert(all.take(0) =~= Seq::<Row>::empty());
            assert(values.deep_view() =~= vals.skip(0));
        }
        while i < rows.len()
            invariant
                i <= rows@.len(),
                all == rows.deep_view(),
                all.len() == rows@.len(),
                vals.len() == all.len(),
                values.deep_view() == vals.skip(i as int),
                drop == places_set(self.eliminate@),
                g == (|row: Row|
                    unified(
                        row,
                        eval_named(*self.expr, self.frame@, row),
                        self.is_multi,
                        self.span,
                        drop,
                    )),
                forall|k: int|
                    0 <= k < vals.len() ==> eval_named(*self.expr, self.frame@, all[k]) == Ok::<
                        Val,
                        EvalFault,
                    >(#[trigger] vals[k]),
                first_fault(*self.expr, self.frame@, all) is None,
                out.deep_view() == flow(all.take(i as int), g),
            decreases rows.len() - i,
        {
            proof {
                assert(values.deep_view().len() == values@.len());
                assert(all[i as int] == rows@[i as int].deep_view());
                lemma_flow_step(all, g, i as int);
            }
            let ghost before = values.deep_view();
            let ghost held = values@;
            let v = values.remove(0);
            proof {
                assert(v.deep_view() == before[0]);
                assert(values@ =~= held.skip(1));
                assert(values.deep_view() =~= before.skip(1));
                assert(v.deep_view() == vals[i as int]);
                assert(values.deep_view() =~= vals.skip(i + 1));
            }
            out.append(unify_row(&rows[i], v, self.is_multi, self.span, &self.eliminate));
            i = i + 1;
        }
        proof {
            assert(all.take(i as int) =~= all);
        }
        out
    }
}

} // verus!
