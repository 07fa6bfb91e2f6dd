//! Runs of rows: the currency of the batched execution path.

use vstd::prelude::*;
use vstd::slice::slice_subrange;
use crate::value::{DataValue, Row, Tuple};

verus! {

/// The target number of rows per [`Batch`].
pub const BATCH_ROWS: usize = 1024;

/// An order-preserving window over a stream of rows, flattened: the values of
/// all rows end to end, and the end offset of each row.
#[derive(Debug)]
pub struct Batch {
    values: Vec<DataValue>,
    offsets: Vec<usize>,
}

impl DeepView for Batch {
    type V = Seq<Row>;

    closed spec fn deep_view(&self) -> Seq<Row> {
        Seq::new(
            self.offsets@.len(),
            |i: int| self.values.deep_view().subrange(self.start(i), self.offsets@[i] as int),
        )
    }
}

impl Batch {
    /// Where row `i` starts in the flattened values.
    spec fn start(&self, i: int) -> int {
        if i <= 0 {
            0
        } else {
            self.offsets@[i - 1] as int
        }
    }

    /// The offsets are non-decreasing and the last one ends the values.
    pub closed spec fn wf(&self) -> bool {
        &&& forall|i: int, j: int|
            0 <= i <= j < self.offsets@.len() ==> self.offsets@[i] <= self.offsets@[j]
        &&& forall|i: int|
            0 <= i < self.offsets@.len() ==> #[trigger] self.offsets@[i] <= self.values@.len()
        &&& self.values@.len() == self.start(self.offsets@.len() as int)
    }

    pub fn new() -> (r: Self)
        ensures
            r.wf(),
            r.deep_view() == Seq::<Row>::empty(),
    {
        let r = Batch { values: Vec::new(), offsets: Vec::new() };
        assert(r.deep_view() =~= Seq::<Row>::empty());
        r
    }

    /// The values of row `i`.
    pub fn row(&self, i: usize) -> (r: &[DataValue])
        requires
            self.wf(),
            i < self.deep_view().len(),
        ensures
            r.deep_view() == self.deep_view()[i as int],
    {
        let start: usize = if i == 0 {
            0
        } else {
            self.offsets[i - 1]
        };
        let r = slice_subrange(self.values.as_slice(), start, self.offsets[i]);
        assert(r.deep_view() =~= self.deep_view()[i as int]);
        r
    }

    /// The rows as slices, in stream order.
    pub fn iter_rows(&self) -> (r: Vec<&[DataValue]>)
        requires
            self.wf(),
        ensures
            r@.len() == self.deep_view().len(),
            forall|i: int|
                0 <= i < r@.len() ==> (#[trigger] r@[i]).deep_view() == self.deep_view()[i],
    {
        let mut out: Vec<&[DataValue]> = Vec::new();
        let mut i: usize = 0;
        while i < self.offsets.len()
            invariant
                self.wf(),
                i <= self.offsets.len(),
                self.deep_view().len() == self.offsets@.len(),
                out@.len() == i,
                forall|j: int|
                    0 <= j < i ==> (#[trigger] out@[j]).deep_view() == self.deep_view()[j],
            decreases self.offsets.len() - i,
        {
            out.push(self.row(i));
            i = i + 1;
        }
        out
    }

    pub fn len(&self) -> (r: usize)
        ensures
            r == self.deep_view().len(),
    {
        self.offsets.len()
    }

    pub fn is_empty(&self) -> (r: bool)
        ensures
            r == (self.deep_view().len() == 0),
    {
        self.offsets.len() == 0
    }

    /// Whether the batch has reached its target size.
    pub fn is_full(&self) -> (r: bool)
        ensures
            r == (self.deep_view().len() >= BATCH_ROWS),
    {
        self.offsets.len() >= BATCH_ROWS
    }

    /// Append a row.
    pub fn push(&mut self, row: Tuple)
        requires
            old(self).wf(),
        ensures
            final(self).wf(),
            final(self).deep_view() == old(self).deep_view().push(row.deep_view()),
    {
        let ghost before = *self;
        let ghost added = row.deep_view();
        let mut row = row;
        self.values.append(&mut row);
        let end: usize = self.values.len();
        self.offsets.push(end);
        proof {
            let n = before.offsets@.len() as int;
            assert(self.values.deep_view() =~= before.values.deep_view() + added);
            assert forall|i: int| 0 <= i < n implies #[trigger] self.deep_view()[i]
                == before.deep_view()[i] by {
                assert(self.offsets@[i] == before.offsets@[i]);
                assert(self.start(i) == before.start(i));
                if i > 0 {
                    assert(before.offsets@[i - 1] <= before.offsets@[i]);
                }
                assert(self.deep_view()[i] =~= before.deep_view()[i]);
            }
            assert(self.start(n) == before.start(n));
            assert(self.deep_view()[n] =~= added);
            assert(self.deep_view() =~= before.deep_view().push(added));
        }
    }

    /// Append the row that `filled` holds, or pass its error on.
    pub fn push_with<E>(&mut self, filled: Result<Tuple, E>) -> (r: Result<(), E>)
        requires
            old(self).wf(),
        ensures
            final(self).wf(),
            match filled {
                Ok(row) => r is Ok && final(self).deep_view() == old(self).deep_view().push(
                    row.deep_view(),
                ),
                Err(e) => r == Err::<(), E>(e) && final(self).deep_view() == old(
                    self,
                ).deep_view(),
            },
    {
        match filled {
            Ok(row) => {
                self.push(row);
                Ok(())
            },
            Err(e) => Err(e),
        }
    }

    /// Drop the most recently pushed row, if there is one.
    pub fn pop(&mut self)
        requires
            old(self).wf(),
        ensures
            final(self).wf(),
            final(self).deep_view() == (if old(self).deep_view().len() == 0 {
                old(self).deep_view()
            } else {
                old(self).deep_view().drop_last()
            }),
    {
        let ghost before = *self;
        if let Some(_end) = self.offsets.pop() {
            let n: usize = self.offsets.len();
            let start: usize = if n == 0 {
                0
            } else {
                self.offsets[n - 1]
            };
            self.values.truncate(start);
            proof {
                assert(before.start(n as int) == start);
                assert forall|i: int| 0 <= i < n implies #[trigger] self.deep_view()[i]
                    == before.deep_view()[i] by {
                    assert(self.offsets@[i] == before.offsets@[i]);
                    assert(self.start(i) == before.start(i));
                    if i > 0 {
                        assert(before.offsets@[i - 1] <= before.offsets@[i]);
                    }
                    assert(before.offsets@[i] <= before.offsets@[n - 1]);
                    assert(self.deep_view()[i] =~= before.deep_view()[i]);
                }
                assert(self.deep_view() =~= before.deep_view().drop_last());
            }
        }
    }

    /// The batch of the given rows.
    pub fn with_rows(rows: Vec<Tuple>) -> (r: Self)
        ensures
            r.wf(),
            r.deep_view() == rows.deep_view(),
    {
        let mut b = Batch::new();
        let mut i: usize = 0;
        while i < rows.len()
            invariant
                b.wf(),
                i <= rows.len(),
                b.deep_view() == rows.deep_view().take(i as int),
            decreases rows.len() - i,
        {
            b.push(crate::value::copy_row(&rows[i]));
            assert(b.deep_view() =~= rows.deep_view().take(i + 1));
            i = i + 1;
        }
        assert(b.deep_view() =~= rows.deep_view());
        b
    }

    /// The rows of the batch, in stream order.
    pub fn into_rows(self) -> (r: Vec<Tuple>)
        requires
            self.wf(),
        ensures
            r.deep_view() == self.deep_view(),
    {
        let mut values = self.values;
        let offsets = self.offsets;
        let ghost whole = self;
        let ghost rows = self.deep_view();
        let mut reversed: Vec<Tuple> = Vec::new();
        let mut n: usize = offsets.len();
        assert(rows.skip(n as int) =~= reversed.deep_view().reverse());
        assert(whole.values.deep_view().take(whole.start(n as int)) =~= values.deep_view());
        while n > 0
            invariant
                n <= offsets.len(),
                whole.wf(),
                whole.offsets == offsets,
                rows == whole.deep_view(),
                values.deep_view() == whole.values.deep_view().take(whole.start(n as int)),
                whole.start(n as int) <= whole.values@.len(),
                reversed.deep_view().reverse() == rows.skip(n as int),
            decreases n,
        {
            let start: usize = if n == 1 {
                0
            } else {
                offsets[n - 2]
            };
            assert(start == whole.start(n - 1));
            assert(start <= whole.start(n as int)) by {
                if n >= 2 {
                    assert(offsets@[n - 2] <= offsets@[n - 1]);
                }
            }
            assert(values@.len() == values.deep_view().len());
            let ghost flat = values.deep_view();
            let row = values.split_off(start);
            let ghost tail = reversed.deep_view();
            proof {
                assert(row.deep_view() =~= flat.subrange(start as int, flat.len() as int));
                assert(row.deep_view() =~= rows[n - 1]);
                assert(values.deep_view() =~= whole.values.deep_view().take(start as int));
            }
            let ghost model = row.deep_view();
            reversed.push(row);
            proof {
                assert(reversed.deep_view() =~= tail.push(model));
                assert(reversed.deep_view().reverse() =~= seq![model] + tail.reverse());
                assert(rows.skip(n - 1) =~= seq![rows[n - 1]] + rows.skip(n as int));
            }
            n = n - 1;
        }
        assert(rows.skip(0) =~= rows);
        reverse_rows(reversed)
    }
}

/// The rows of a vector in the opposite order.
fn reverse_rows(rows: Vec<Tuple>) -> (r: Vec<Tuple>)
    ensures
        r.deep_view() == rows.deep_view().reverse(),
{
    let mut rest = rows;
    let mut out: Vec<Tuple> = Vec::new();
    let ghost all = rows.deep_view();
    while rest.len() > 0
        invariant
            rest.deep_view() == all.take(rest.len() as int),
            rest.len() <= all.len(),
            out.deep_view() == all.skip(rest.len() as int).reverse(),
        decreases rest.len(),
    {
        let ghost n = rest.len() as int;
        let ghost before = rest.deep_view();
        let ghost prev = out.deep_view();
        if let Some(row) = rest.pop() {
            assert(row.deep_view() == before[n - 1]);
            assert(rest.deep_view() =~= all.take(n - 1));
            out.push(row);
            assert(out.deep_view() =~= prev.push(all[n - 1]));
            assert(all.skip(n - 1).reverse() =~= all.skip(n).reverse().push(all[n - 1]));
        }
    }
    assert(all.skip(0) =~= all);
    out
}

/// A finite row sequence handed out in batches.
pub struct RowChunks {
    rows: Vec<Tuple>,
    at: usize,
}

impl RowChunks {
    pub closed spec fn wf(&self) -> bool {
        self.at <= self.rows@.len()
    }

    /// The rows not handed out yet.
    pub closed spec fn remaining(&self) -> Seq<Row> {
        self.rows.deep_view().skip(self.at as int)
    }

    pub fn new(rows: Vec<Tuple>) -> (r: Self)
        ensures
            r.wf(),
            r.remaining() == rows.deep_view(),
    {
        let r = RowChunks { rows, at: 0 };
        assert(r.remaining() =~= rows.deep_view());
        r
    }

    /// The next batch: the first [`BATCH_ROWS`] remaining rows, or all of them
    /// if they are fewer, or nothing once none are left.
    pub fn next(&mut self) -> (r: Option<Batch>)
        requires
            old(self).wf(),
        ensures
            final(self).wf(),
            match r {
                Some(b) => {
                    let n = if old(self).remaining().len() < BATCH_ROWS {
                        old(self).remaining().len() as int
                    } else {
                        BATCH_ROWS as int
                    };
                    &&& n > 0
                    &&& b.wf()
                    &&& b.deep_view() == old(self).remaining().take(n)
                    &&& final(self).remaining() == old(self).remaining().skip(n)
                },
                None => old(self).remaining().len() == 0 && final(self).remaining() == old(
                    self,
                ).remaining(),
            },
    {
        let ghost all = self.rows.deep_view();
        let ghost from = self.at as int;
        let ghost rest = self.remaining();
        let mut out = Batch::new();
        assert(all.skip(from).skip(0) =~= all.skip(from));
        while self.at < self.rows.len() && !out.is_full()
            invariant
                self.rows.deep_view() == all,
                all.len() == self.rows@.len(),
                rest == all.skip(from),
                0 <= from <= self.at <= self.rows@.len(),
                out.wf(),
                out.deep_view() == rest.take(self.at - from),
                self.at - from <= BATCH_ROWS,
            decreases self.rows.len() - self.at,
        {
            out.push(crate::value::copy_row(&self.rows[self.at]));
            assert(out.deep_view() =~= rest.take(self.at + 1 - from));
            self.at = self.at + 1;
        }
        assert(self.remaining() =~= rest.skip(self.at - from));
        if out.is_empty() {
            assert(rest.skip(0) =~= rest);
            None
        } else {
            Some(out)
        }
    }
}

} // verus!
