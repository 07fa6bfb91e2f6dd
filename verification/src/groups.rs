//! Streams in batches: how rows are grouped on the batched path, and the
//! operators that work a batch at a time.

use vstd::prelude::*;
use crate::batch::{Batch, BATCH_ROWS};
use crate::stream::{
    flow, item_model, lemma_failed, lemma_failure, lemma_flow_concat, lemma_flow_one,
    lemma_flow_step, lemma_followed, lemma_of_rows, lemma_sound_rows, lemma_through_of, Item,
    QueryError, QueryFault, RowStep, Stream, TupleStream,
};
use crate::value::{copy_row, Row, Tuple};

verus! {

/// What an operator yields in batches: batches and failures, in the order they
/// come.
#[derive(Debug)]
pub struct BatchStream {
    pub items: Vec<Result<Batch, QueryError>>,
}

/// One place of a stream in batches.
pub type GroupItem = Result<Seq<Row>, QueryFault>;

/// The mathematical form of a stream in batches.
#[verifier::ext_equal]
pub struct Groups {
    pub items: Seq<GroupItem>,
}

/// The mathematical form of one place of a stream in batches.
pub open spec fn group_model(item: Result<Batch, QueryError>) -> GroupItem {
    match item {
        Ok(b) => Ok(b.deep_view()),
        Err(e) => Err(e.deep_view()),
    }
}

/// The rows of a batch one by one.
pub open spec fn ungrouped() -> spec_fn(GroupItem) -> Stream {
    |item: GroupItem|
        match item {
            Ok(rows) => Stream::of(rows),
            Err(e) => Stream::failed(e),
        }
}

impl Groups {
    /// No batches.
    pub open spec fn nothing() -> Groups {
        Groups { items: Seq::empty() }
    }

    /// The rows without their grouping.
    pub open spec fn stream(self) -> Stream {
        flow(self.items, ungrouped())
    }

    /// Nothing fails.
    pub open spec fn sound(self) -> bool {
        forall|i: int| 0 <= i < self.items.len() ==> (#[trigger] self.items[i]) is Ok
    }

    /// No batch is empty.
    pub open spec fn full(self) -> bool {
        forall|i: int|
            0 <= i < self.items.len() && (#[trigger] self.items[i]) is Ok
                ==> self.items[i]->Ok_0.len() > 0
    }
}

impl DeepView for BatchStream {
    type V = Groups;

    open spec fn deep_view(&self) -> Groups {
        Groups { items: Seq::new(self.items@.len(), |i: int| group_model(self.items@[i])) }
    }
}

impl BatchStream {
    pub open spec fn wf(&self) -> bool {
        &&& forall|i: int|
            0 <= i < self.items@.len() && (#[trigger] self.items@[i]) is Ok
                ==> self.items@[i]->Ok_0.wf()
        &&& self.deep_view().full()
    }
}

/// The number of rows at the head of a stream, at most those of a batch.
pub open spec fn head_rows(items: Seq<Item>, i: int) -> int
    decreases BATCH_ROWS - i,
{
    if i < items.len() && i < BATCH_ROWS && items[i] is Ok {
        head_rows(items, i + 1)
    } else {
        i
    }
}

pub proof fn lemma_head_rows(items: Seq<Item>, i: int)
    requires
        0 <= i <= items.len(),
        i <= BATCH_ROWS,
    ensures
        ({
            let n = head_rows(items, i);
            &&& i <= n <= items.len()
            &&& n <= BATCH_ROWS
            &&& forall|j: int| i <= j < n ==> (#[trigger] items[j]) is Ok
            &&& n < items.len() && n < BATCH_ROWS ==> items[n] is Err
        }),
    decreases BATCH_ROWS - i,
{
    if i < items.len() && i < BATCH_ROWS && items[i] is Ok {
        lemma_head_rows(items, i + 1);
    }
}

/// The rows at the head of a stream end where a batch is full, where something
/// fails, or where nothing is left.
pub proof fn lemma_head_rows_are(items: Seq<Item>, n: int)
    requires
        0 <= n <= items.len(),
        n <= BATCH_ROWS,
        forall|j: int| 0 <= j < n ==> (#[trigger] items[j]) is Ok,
        n < items.len() && n < BATCH_ROWS ==> items[n] is Err,
    ensures
        head_rows(items, 0) == n,
{
    lemma_head_rows(items, 0);
    let m = head_rows(items, 0);
    if m < n {
        assert(items[m] is Ok);
    }
    if n < m {
        assert(items[n] is Ok);
    }
}

/// The first batch of a stream that has something left, and what comes after
/// it. Rows that would share a batch with a failure are lost to it.
pub open spec fn first_chunk(s: Stream) -> (GroupItem, Stream) {
    let n = head_rows(s.items, 0);
    if n < s.items.len() && n < BATCH_ROWS {
        (Err(s.items[n]->Err_0), Stream { items: s.items.skip(n + 1) })
    } else {
        (
            Ok((Stream { items: s.items.take(n) }).rows()),
            Stream { items: s.items.skip(n) },
        )
    }
}

/// Rows in batches of the target size. The last batch may be smaller, and so
/// is one that a failure cuts short: its rows are lost to the failure, and the
/// next batch begins after it.
pub open spec fn chunked(s: Stream) -> Groups
    decreases s.items.len(),
{
    if s.items.len() == 0 {
        Groups::nothing()
    } else {
        proof {
            lemma_head_rows(s.items, 0);
        }
        Groups { items: seq![first_chunk(s).0] + chunked(first_chunk(s).1).items }
    }
}

/// What comes of groups, each turned into a stream. A group of which no row
/// comes is left out; one of which a failure comes is replaced by the first
/// such failure; a failure keeps its place.
pub open spec fn group_flow(items: Seq<GroupItem>, f: spec_fn(Seq<Row>) -> Stream) -> Groups
    decreases items.len(),
{
    if items.len() == 0 {
        Groups::nothing()
    } else {
        let before = group_flow(items.drop_last(), f).items;
        match items.last() {
            Err(e) => Groups { items: before.push(Err(e)) },
            Ok(rows) => match f(rows).failure() {
                Some(e) => Groups { items: before.push(Err(e)) },
                None => if f(rows).items.len() == 0 {
                    Groups { items: before }
                } else {
                    Groups { items: before.push(Ok(f(rows).rows())) }
                },
            },
        }
    }
}

/// What comes of a stream in batches, each batch turned into a stream.
pub open spec fn each_group(g: Groups, f: spec_fn(Seq<Row>) -> Stream) -> Groups {
    group_flow(g.items, f)
}

/// The failures among items, in their order.
pub open spec fn faults<A>(items: Seq<Result<A, QueryFault>>) -> Seq<QueryFault>
    decreases items.len(),
{
    if items.len() == 0 {
        Seq::empty()
    } else {
        match items.last() {
            Ok(_) => faults(items.drop_last()),
            Err(e) => faults(items.drop_last()).push(e),
        }
    }
}

proof fn lemma_faults_concat<A>(a: Seq<Result<A, QueryFault>>, b: Seq<Result<A, QueryFault>>)
    ensures
        faults(a + b) == faults(a) + faults(b),
    decreases b.len(),
{
    if b.len() == 0 {
        assert(a + b =~= a);
        assert(faults(a) + faults(b) =~= faults(a));
    } else {
        lemma_faults_concat(a, b.drop_last());
        assert((a + b).drop_last() =~= a + b.drop_last());
        assert((a + b).last() == b.last());
        assert(faults(a + b) =~= faults(a) + faults(b));
    }
}

proof fn lemma_no_faults<A>(items: Seq<Result<A, QueryFault>>)
    requires
        forall|i: int| 0 <= i < items.len() ==> (#[trigger] items[i]) is Ok,
    ensures
        faults(items) == Seq::<QueryFault>::empty(),
    decreases items.len(),
{
    if items.len() > 0 {
        let rest = items.drop_last();
        assert forall|i: int| 0 <= i < rest.len() implies (#[trigger] rest[i]) is Ok by {
            assert(items[i] is Ok);
        }
        lemma_no_faults(rest);
        assert(items[items.len() - 1] is Ok);
    }
}

proof fn lemma_one_item<A>(item: Result<A, QueryFault>)
    ensures
        faults(seq![item]) == (match item {
            Ok(_) => Seq::<QueryFault>::empty(),
            Err(e) => seq![e],
        }),
{
    reveal_with_fuel(faults, 2);
    assert(seq![item].drop_last() =~= Seq::<Result<A, QueryFault>>::empty());
    assert(seq![item].last() == item);
    if item is Err {
        assert(faults(seq![item]) =~= seq![item->Err_0]);
    }
}

/// The first batch of a stream, and what comes after it, have its failures;
/// where nothing fails, they have its rows.
proof fn lemma_first_chunk(s: Stream)
    requires
        s.items.len() > 0,
    ensures
        ({
            let (first, rest) = first_chunk(s);
            &&& faults(seq![first]) + faults(rest.items) == faults(s.items)
            &&& first is Ok ==> 0 < first->Ok_0.len() <= BATCH_ROWS
            &&& s.sound() ==> first is Ok && rest.sound() && Stream::of(first->Ok_0).followed_by(
                rest,
            ) == s
            &&& rest.sound() && first is Ok ==> s.sound()
        }),
{
    lemma_head_rows(s.items, 0);
    let n = head_rows(s.items, 0);
    let (first, rest) = first_chunk(s);
    let head = s.items.take(n);
    assert forall|i: int| 0 <= i < head.len() implies (#[trigger] head[i]) is Ok by {
        assert(s.items[i] is Ok);
    }
    lemma_no_faults(head);
    lemma_one_item(first);
    if n < s.items.len() && n < BATCH_ROWS {
        let tail = s.items.skip(n + 1);
        assert(s.items =~= head + (seq![s.items[n]] + tail));
        lemma_faults_concat(head, seq![s.items[n]] + tail);
        lemma_faults_concat(seq![s.items[n]], tail);
        lemma_one_item(s.items[n]);
        assert(faults(seq![first]) + faults(tail) =~= faults(s.items));
    } else {
        let tail = s.items.skip(n);
        assert(s.items =~= head + tail);
        lemma_faults_concat(head, tail);
        assert(faults(seq![first]) + faults(tail) =~= faults(s.items));
        lemma_sound_rows(Stream { items: head });
        if s.sound() {
            assert forall|i: int| 0 <= i < tail.len() implies (#[trigger] tail[i]) is Ok by {
                assert(s.items[n + i] is Ok);
            }
        }
        if rest.sound() {
            assert forall|i: int| 0 <= i < s.items.len() implies (#[trigger] s.items[i]) is Ok by {
                if i >= n {
                    assert(tail[i - n] is Ok);
                }
            }
        }
        assert(Stream::of(first->Ok_0).followed_by(rest).items =~= s.items);
    }
}

/// Where nothing fails, every batch but the last has the target size.
pub proof fn law_chunks_are_full(s: Stream, i: int)
    requires
        s.sound(),
        0 <= i < chunked(s).items.len() - 1,
    ensures
        chunked(s).items[i] is Ok,
        chunked(s).items[i]->Ok_0.len() == BATCH_ROWS,
    decreases s.items.len(),
{
    lemma_head_rows(s.items, 0);
    let n = head_rows(s.items, 0);
    if n < s.items.len() {
        assert(s.items[n] is Ok);
    }
    let (first, rest) = first_chunk(s);
    assert(chunked(s).items =~= seq![first] + chunked(rest).items);
    if i > 0 {
        assert(rest.sound()) by {
            assert forall|k: int| 0 <= k < rest.items.len() implies (#[trigger] rest.items[k]) is Ok by {
                assert(s.items[n + k] is Ok);
            }
        }
        law_chunks_are_full(rest, i - 1);
    } else {
        assert(rest.items.len() > 0);
    }
}

/// Grouping rows keeps them: where nothing fails, the batches hold the rows of
/// the stream in its order. What fails in the stream fails in the batches, in
/// the same order. No batch is empty, and none is larger than the target size.
pub proof fn law_chunks_keep_rows(s: Stream)
    ensures
        chunked(s).full(),
        forall|i: int|
            0 <= i < chunked(s).items.len() && (#[trigger] chunked(s).items[i]) is Ok
                ==> chunked(s).items[i]->Ok_0.len() <= BATCH_ROWS,
        s.sound() <==> chunked(s).sound(),
        s.sound() ==> chunked(s).stream() == s,
        faults(chunked(s).items) == faults(s.items),
    decreases s.items.len(),
{
    if s.items.len() > 0 {
        lemma_head_rows(s.items, 0);
        lemma_first_chunk(s);
        let (first, rest) = first_chunk(s);
        law_chunks_keep_rows(rest);
        let all = chunked(s).items;
        let tail = chunked(rest).items;
        assert(all =~= seq![first] + tail);
        lemma_faults_concat(seq![first], tail);
        lemma_flow_concat(seq![first], tail, ungrouped());
        lemma_flow_one(first, ungrouped());
        assert forall|i: int| 0 <= i < all.len() && (#[trigger] all[i]) is Ok implies 0
            < all[i]->Ok_0.len() <= BATCH_ROWS by {
            if i > 0 {
                assert(all[i] == tail[i - 1]);
            }
        }
        if s.sound() {
            assert forall|i: int| 0 <= i < all.len() implies (#[trigger] all[i]) is Ok by {
                if i > 0 {
                    assert(tail[i - 1] is Ok);
                }
            }
        }
        if chunked(s).sound() {
            assert(all[0] is Ok);
            assert forall|i: int| 0 <= i < tail.len() implies (#[trigger] tail[i]) is Ok by {
                assert(all[i + 1] is Ok);
            }
        }
    } else {
        assert(chunked(s).stream() =~= s);
        assert(faults(chunked(s).items) =~= faults(s.items));
    }
}

/// Nothing fails in batches unless something fails in their rows.
pub proof fn lemma_stream_sound(g: Groups)
    ensures
        g.sound() <==> g.stream().sound(),
    decreases g.items.len(),
{
    if g.items.len() > 0 {
        let rest = Groups { items: g.items.drop_last() };
        let last = g.items.last();
        lemma_stream_sound(rest);
        lemma_followed(rest.stream(), ungrouped()(last));
        match last {
            Ok(rows) => lemma_of_rows(rows),
            Err(e) => lemma_failed(e),
        }
        assert(g.items[g.items.len() - 1] == last);
        if g.sound() {
            assert forall|i: int| 0 <= i < rest.items.len() implies (
            #[trigger] rest.items[i]) is Ok by {
                assert(g.items[i] is Ok);
            }
        }
        if g.stream().sound() {
            assert forall|i: int| 0 <= i < g.items.len() implies (#[trigger] g.items[i]) is Ok by {
                if i < rest.items.len() {
                    assert(rest.items[i] is Ok);
                }
            }
        }
    }
}

impl BatchStream {
    /// No batches.
    pub fn nothing() -> (r: Self)
        ensures
            r.wf(),
            r.deep_view() == Groups::nothing(),
    {
        let r = BatchStream { items: Vec::new() };
        assert(r.deep_view().items =~= Seq::<GroupItem>::empty());
        r
    }

    /// One more batch, or one more failure.
    pub fn push(&mut self, item: Result<Batch, QueryError>)
        requires
            old(self).wf(),
            item is Ok ==> item->Ok_0.wf() && item->Ok_0.deep_view().len() > 0,
        ensures
            final(self).wf(),
            final(self).deep_view() == (Groups {
                items: old(self).deep_view().items.push(group_model(item)),
            }),
    {
        let ghost before = self.deep_view().items;
        let ghost held = self.items@;
        let ghost m = group_model(item);
        self.items.push(item);
        proof {
            let now = self.deep_view().items;
            assert(now =~= before.push(m));
            assert forall|i: int| 0 <= i < self.items@.len() && (
            #[trigger] self.items@[i]) is Ok implies self.items@[i]->Ok_0.wf() by {
                if i < held.len() {
                    assert(held[i] is Ok);
                }
            }
            assert forall|i: int| 0 <= i < now.len() && (#[trigger] now[i]) is Ok implies (
            now[i]->Ok_0).len() > 0 by {
                if i < before.len() {
                    assert(before[i] is Ok);
                }
            }
        }
    }

    /// The rows without their grouping.
    pub fn into_rows(self) -> (r: TupleStream)
        requires
            self.wf(),
        ensures
            r.deep_view() == self.deep_view().stream(),
    {
        let ghost groups = self.deep_view().items;
        let ghost g = ungrouped();
        let mut out = TupleStream::nothing();
        let mut rest = self.items;
        let ghost mut k: int = 0;
        proof {
            assert(groups.take(0) =~= Seq::<GroupItem>::empty());
            assert(rest@ =~= self.items@.skip(0));
        }
        while rest.len() > 0
            invariant
                0 <= k <= groups.len(),
                self.wf(),
                groups == self.deep_view().items,
                g == ungrouped(),
                rest@ == self.items@.skip(k),
                out.deep_view() == flow(groups.take(k), g),
            decreases rest@.len(),
        {
            let item = rest.remove(0);
            proof {
                assert(item == self.items@[k]);
                assert(groups[k] == group_model(item));
                lemma_flow_step(groups, g, k);
                assert(rest@ =~= self.items@.skip(k + 1));
            }
            match item {
                Ok(b) => {
                    out.append(TupleStream::of(b.into_rows()));
                },
                Err(e) => {
                    out.append(TupleStream::failed(e));
                },
            }
            proof {
                k = k + 1;
            }
        }
        proof {
            assert(groups.take(k) =~= groups);
        }
        out
    }
}

/// The first batch of what is left of a stream, and the place after it.
fn next_chunk(s: &TupleStream, from: usize) -> (r: (Result<Batch, QueryError>, usize))
    requires
        from < s.items@.len(),
    ensures
        from < r.1 <= s.items@.len(),
        r.0 is Ok ==> r.0->Ok_0.wf() && r.0->Ok_0.deep_view().len() > 0,
        first_chunk(Stream { items: s.deep_view().items.skip(from as int) }) == (
            group_model(r.0),
            Stream { items: s.deep_view().items.skip(r.1 as int) },
        ),
{
    let ghost all = s.deep_view().items;
    let ghost rest = all.skip(from as int);
    let mut b = Batch::new();
    let mut i: usize = from;
    let n: usize = s.items.len();
    proof {
        assert(b.deep_view() =~= (Stream { items: rest.take(0) }).rows());
    }
    while i < n && b.len() < BATCH_ROWS
        invariant
            from <= i <= n,
            n == s.items@.len(),
            all == s.deep_view().items,
            rest == all.skip(from as int),
            b.wf(),
            b.deep_view().len() == i - from,
            b.deep_view() == (Stream { items: rest.take(i - from) }).rows(),
            b.deep_view().len() <= BATCH_ROWS,
            forall|j: int| 0 <= j < i - from ==> (#[trigger] rest[j]) is Ok,
        decreases n - i,
    {
        let ghost k = i - from;
        proof {
            assert(rest[k] == all[i as int]);
            assert(all[i as int] == item_model(s.items@[i as int]));
        }
        match &s.items[i] {
            Ok(row) => {
                b.push(copy_row(row));
                proof {
                    assert(b.deep_view() =~= (Stream { items: rest.take(k + 1) }).rows());
                }
            },
            Err(e) => {
                proof {
                    lemma_head_rows_are(rest, k);
                    assert(rest.skip(k + 1) =~= all.skip(i + 1));
                }
                return (Err(e.clone()), i + 1);
            },
        }
        i = i + 1;
    }
    proof {
        lemma_head_rows_are(rest, i - from);
        assert(rest.skip(i - from) =~= all.skip(i as int));
    }
    (Ok(b), i)
}

/// Rows in batches of the target size.
pub fn chunk_stream(s: TupleStream) -> (r: BatchStream)
    ensures
        r.wf(),
        r.deep_view() == chunked(s.deep_view()),
{
    let ghost whole = s.deep_view();
    let mut out = BatchStream::nothing();
    let mut i: usize = 0;
    let n: usize = s.items.len();
    proof {
        assert(whole.items.skip(0) =~= whole.items);
        assert(out.deep_view().items + chunked(whole).items =~= chunked(whole).items);
    }
    while i < n
        invariant
            i <= n,
            n == s.items@.len(),
            whole == s.deep_view(),
            out.wf(),
            chunked(whole).items == out.deep_view().items + chunked(
                Stream { items: whole.items.skip(i as int) },
            ).items,
        decreases n - i,
    {
        let ghost here = Stream { items: whole.items.skip(i as int) };
        let ghost before = out.deep_view().items;
        let (item, next) = next_chunk(&s, i);
        let ghost m = group_model(item);
        out.push(item);
        proof {
            lemma_head_rows(here.items, 0);
            let rest = Stream { items: whole.items.skip(next as int) };
            assert(chunked(here).items == seq![m] + chunked(rest).items);
            assert(before + (seq![m] + chunked(rest).items) =~= before.push(m) + chunked(
                rest,
            ).items);
        }
        i = next;
    }
    proof {
        assert(whole.items.skip(i as int) =~= Seq::<Item>::empty());
        assert(out.deep_view().items + Seq::<GroupItem>::empty() =~= out.deep_view().items);
        assert(out.deep_view() =~= chunked(whole));
    }
    out
}

/// What an operator makes of one batch.
pub trait GroupStep {
    /// Whether the operator can take the rows of a batch.
    spec fn takes(&self, rows: Seq<Row>) -> bool;

    /// The stream that comes of the rows of a batch.
    spec fn gives(&self, rows: Seq<Row>) -> Stream;

    fn step(&self, rows: Vec<Tuple>) -> (r: TupleStream)
        requires
            self.takes(rows.deep_view()),
        ensures
            r.deep_view() == self.gives(rows.deep_view()),
    ;
}

/// An operator on rows, a batch at a time.
pub struct RowsStep<S> {
    pub op: S,
}

impl<S: RowStep> GroupStep for RowsStep<S> {
    open spec fn takes(&self, rows: Seq<Row>) -> bool {
        forall|i: int| 0 <= i < rows.len() ==> self.op.takes(#[trigger] rows[i])
    }

    open spec fn gives(&self, rows: Seq<Row>) -> Stream {
        flow(rows, |row: Row| self.op.gives(row))
    }

    fn step(&self, rows: Vec<Tuple>) -> (r: TupleStream) {
        let ghost all = rows.deep_view();
        let s = TupleStream::of(rows);
        proof {
            lemma_through_of(all, |row: Row| self.op.gives(row));
            let p = |row: Row| self.op.takes(row);
            assert forall|i: int| 0 <= i < s.deep_view().items.len() && (
            #[trigger] s.deep_view().items[i]) is Ok implies p(s.deep_view().items[i]->Ok_0) by {
                assert(self.op.takes(all[i]));
            }
        }
        crate::stream::pipe(s, &self.op)
    }
}

/// Turn each batch of a stream into a stream.
pub fn pipe_groups<S: GroupStep>(s: BatchStream, op: &S) -> (r: BatchStream)
    requires
        s.wf(),
        forall|i: int|
            0 <= i < s.deep_view().items.len() && (#[trigger] s.deep_view().items[i]) is Ok
                ==> op.takes(s.deep_view().items[i]->Ok_0),
    ensures
        r.wf(),
        r.deep_view() == each_group(s.deep_view(), |rows: Seq<Row>| op.gives(rows)),
{
    let ghost groups = s.deep_view().items;
    let ghost g = |rows: Seq<Row>| op.gives(rows);
    let mut out = BatchStream::nothing();
    let mut rest = s.items;
    let ghost mut k: int = 0;
    proof {
        assert(groups.take(0) =~= Seq::<GroupItem>::empty());
        assert(rest@ =~= s.items@.skip(0));
    }
    while rest.len() > 0
        invariant
            0 <= k <= groups.len(),
            s.wf(),
            groups == s.deep_view().items,
            g == (|rows: Seq<Row>| op.gives(rows)),
            rest@ == s.items@.skip(k),
            out.wf(),
            out.deep_view() == group_flow(groups.take(k), g),
            forall|i: int|
                0 <= i < groups.len() && (#[trigger] groups[i]) is Ok ==> op.takes(
                    groups[i]->Ok_0,
                ),
        decreases rest@.len(),
    {
        let item = rest.remove(0);
        proof {
            assert(item == s.items@[k]);
            assert(groups[k] == group_model(item));
            assert(groups.take(k + 1).drop_last() =~= groups.take(k));
            assert(groups.take(k + 1).last() == groups[k]);
            assert(rest@ =~= s.items@.skip(k + 1));
        }
        match item {
            Err(e) => {
                out.push(Err(e));
            },
            Ok(b) => {
                let rows = b.into_rows();
                let next = op.step(rows);
                let ghost made = next.deep_view();
                proof {
                    lemma_failure(made);
                }
                match next.collect() {
                    Err(e) => {
                        out.push(Err(e));
                    },
                    Ok(rows) => {
                        proof {
                            assert(rows.deep_view().len() == rows@.len());
                        }
                        if rows.len() > 0 {
                            out.push(Ok(Batch::with_rows(rows)));
                        }
                    },
                }
            },
        }
        proof {
            k = k + 1;
        }
    }
    proof {
        assert(groups.take(k) =~= groups);
    }
    out
}

} // verus!
