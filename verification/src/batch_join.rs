//! The join of a batched left side with a probed right side: left rows are
//! probed one after the other, and what they meet is handed out in batches.

use vstd::prelude::*;
use crate::batch::{Batch, BATCH_ROWS};
use crate::groups::{
    chunked, first_chunk, group_model, lemma_head_rows, lemma_head_rows_are, ungrouped, BatchStream,
    GroupItem,
};
use crate::stream::{
    flow, item_model, lemma_flow_concat, lemma_flow_one, on_items, through, Item, QueryError,
    QueryFault, RowStep, Stream, TupleStream,
};
use crate::value::{copy_row, Row, Tuple};

verus! {

/// A join on its way: the left batches still to come, the left rows at hand,
/// and the matches of the row that is being probed.
pub struct PrefixProbeBatchJoin<'a, S: RowStep> {
    left: BatchStream,
    probe: &'a S,
    /// The left rows at hand, and the place of the next one to probe.
    cur: Option<(Vec<Tuple>, usize)>,
    /// What the row last probed meets, and how many of it are handed out.
    active: Option<(TupleStream, usize)>,
}

impl<'a, S: RowStep> PrefixProbeBatchJoin<'a, S> {
    /// The left rows at hand that are still to be probed.
    pub closed spec fn at_hand(&self) -> Seq<Row> {
        match self.cur {
            Some(c) => c.0.deep_view().skip(c.1 as int),
            None => Seq::empty(),
        }
    }

    /// All that is left of the left side.
    pub closed spec fn left_rest(&self) -> Stream {
        Stream::of(self.at_hand()).followed_by(self.left.deep_view().stream())
    }

    /// What is still to be handed out of the row last probed.
    pub closed spec fn active_rest(&self) -> Stream {
        match self.active {
            Some(a) => Stream { items: a.0.deep_view().items.skip(a.1 as int) },
            None => Stream::nothing(),
        }
    }

    pub open spec fn gives(&self) -> spec_fn(Row) -> Stream {
        |row: Row| self.probe().gives(row)
    }

    pub closed spec fn probe(&self) -> S {
        *self.probe
    }

    /// The rows and failures still to come.
    pub open spec fn remaining(&self) -> Stream {
        self.active_rest().followed_by(through(self.left_rest(), self.gives()))
    }

    pub closed spec fn wf(&self) -> bool {
        &&& self.left.wf()
        &&& self.cur matches Some(c) ==> c.1 <= c.0@.len()
        &&& self.active matches Some(a) ==> a.1 <= a.0.items@.len()
        &&& self.left_rest().every(|row: Row| self.probe.takes(row))
    }

    /// Start a join.
    pub fn new(left: BatchStream, probe: &'a S) -> (r: Self)
        requires
            left.wf(),
            left.deep_view().stream().every(|row: Row| probe.takes(row)),
        ensures
            r.wf(),
            r.remaining() == through(left.deep_view().stream(), |row: Row| probe.gives(row)),
    {
        let r = PrefixProbeBatchJoin { left, probe, cur: None, active: None };
        proof {
            assert(r.left_rest().items =~= left.deep_view().stream().items);
            assert(r.left_rest() == left.deep_view().stream());
            let whole = through(left.deep_view().stream(), |row: Row| probe.gives(row));
            assert(Stream::nothing().followed_by(whole).items =~= whole.items);
        }
        r
    }

    /// Take the next left batch in hand. `false` once there is none; a failure
    /// on the left is handed on, and what comes after it is still there.
    fn advance_left_batch(&mut self) -> (r: Result<bool, QueryError>)
        requires
            old(self).wf(),
            old(self).at_hand().len() == 0,
            old(self).active is None,
        ensures
            final(self).wf(),
            final(self).active is None,
            final(self).probe() == old(self).probe(),
            match r {
                Ok(true) => {
                    &&& final(self).at_hand().len() > 0
                    &&& final(self).left_rest() == old(self).left_rest()
                },
                Ok(false) => {
                    &&& old(self).left_rest() == Stream::nothing()
                    &&& final(self).left_rest() == Stream::nothing()
                },
                Err(e) => Stream::failed(e.deep_view()).followed_by(final(self).left_rest())
                    == old(self).left_rest(),
            },
    {
        let ghost groups = self.left.deep_view().items;
        let ghost before = self.left_rest();
        let ghost held = self.left.items@;
        let ghost takes = |row: Row| self.probe.takes(row);
        proof {
            assert(Stream::of(self.at_hand()).items =~= Seq::<Item>::empty());
            assert(before.items =~= flow(groups, ungrouped()).items);
        }
        if self.left.items.len() == 0 {
            self.cur = None;
            proof {
                assert(groups =~= Seq::<GroupItem>::empty());
                assert(before.items =~= Seq::<Item>::empty());
                assert(self.left_rest().items =~= Seq::<Item>::empty());
            }
            return Ok(false);
        }
        let item = self.left.items.remove(0);
        proof {
            let rest = groups.skip(1);
            assert(item == held[0]);
            assert(groups[0] == group_model(item));
            assert(groups =~= seq![groups[0]] + rest);
            lemma_flow_concat(seq![groups[0]], rest, ungrouped());
            lemma_flow_one(groups[0], ungrouped());
            assert(self.left.items@ =~= held.skip(1));
            assert(self.left.deep_view().items =~= rest);
            assert forall|i: int| 0 <= i < self.left.items@.len() && (
            #[trigger] self.left.items@[i]) is Ok implies self.left.items@[i]->Ok_0.wf() by {
                assert(held[i + 1] is Ok);
            }
            assert forall|i: int| 0 <= i < rest.len() && (#[trigger] rest[i]) is Ok implies (
            rest[i]->Ok_0).len() > 0 by {
                assert(groups[i + 1] is Ok);
            }
        }
        match item {
            Ok(b) => {
                let rows = b.into_rows();
                let ghost m = rows.deep_view();
                self.cur = Some((rows, 0));
                proof {
                    assert(held[0] is Ok);
                    assert(groups[0] is Ok);
                    assert(m.skip(0) =~= m);
                    assert(self.left_rest().items =~= before.items);
                    assert(self.left_rest() == before);
                }
                Ok(true)
            },
            Err(e) => {
                self.cur = None;
                proof {
                    let now = self.left_rest();
                    assert(now.items =~= flow(groups.skip(1), ungrouped()).items);
                    assert(Stream::failed(e.deep_view()).followed_by(now).items =~= before.items);
                    lemma_every_tail(Stream::failed(e.deep_view()), now, takes);
                }
                Err(e)
            },
        }
    }

    /// Probe with the next left row at hand.
    fn start_row(&mut self)
        requires
            old(self).wf(),
            old(self).at_hand().len() > 0,
            old(self).active is None,
        ensures
            final(self).wf(),
            final(self).active is Some,
            final(self).probe() == old(self).probe(),
            final(self).remaining() == old(self).remaining(),
            final(self).left_rest().items.len() == old(self).left_rest().items.len() - 1,
    {
        let ghost rest = self.left_rest();
        let ghost g = self.gives();
        let ghost hand = self.at_hand();
        let ghost takes = |row: Row| self.probe.takes(row);
        let mut cur = None;
        std::mem::swap(&mut cur, &mut self.cur);
        if let Some((rows, at)) = cur {
            proof {
                assert(rows.deep_view().len() == rows@.len());
                assert(hand == rows.deep_view().skip(at as int));
                assert(hand[0] == rows@[at as int].deep_view());
                assert(rest.items[0] == Stream::of(hand).items[0]);
                assert(rest.items[0] is Ok);
                assert(takes(rest.items[0]->Ok_0));
            }
            let n: usize = rows.len();
            let found = self.probe.step(&rows[at]);
            let ghost made = found.deep_view();
            self.active = Some((found, 0));
            proof {
                assert(at < n);
            }
            self.cur = Some((rows, at + 1));
            proof {
                let now = self.left_rest();
                let first = Stream::one(hand[0]);
                assert(self.at_hand() =~= hand.skip(1));
                assert(first.followed_by(now).items =~= rest.items);
                assert(made == g(hand[0]));
                assert(self.active_rest().items =~= made.items);
                lemma_flow_concat(first.items, now.items, on_items(g));
                lemma_flow_one(first.items[0], on_items(g));
                assert(first.items =~= seq![first.items[0]]);
                assert(Stream::nothing().followed_by(through(rest, g)).items
                    =~= through(rest, g).items);
                lemma_every_tail(first, now, takes);
                assert(self.gives() =~= g);
            }
        }
    }

    /// The next batch of joined rows: as many of the rows still to come as
    /// make a batch, or all of them. Rows that would share a batch with a
    /// failure are lost to it, and the next call goes on after the failure:
    /// with the next match of the same left row, where a match failed.
    pub fn next(&mut self) -> (r: Option<Result<Batch, QueryError>>)
        requires
            old(self).wf(),
        ensures
            final(self).wf(),
            match r {
                None => {
                    &&& old(self).remaining() == Stream::nothing()
                    &&& final(self).remaining() == Stream::nothing()
                },
                Some(item) => {
                    &&& old(self).remaining().items.len() > 0
                    &&& (group_model(item), final(self).remaining()) == first_chunk(
                        old(self).remaining(),
                    )
                    &&& item is Ok ==> item->Ok_0.wf() && item->Ok_0.deep_view().len() > 0
                },
            },
    {
        let mut out = Batch::new();
        let ghost rem = self.remaining();
        proof {
            assert(Stream::of(out.deep_view()).followed_by(self.remaining()).items =~= rem.items);
        }
        loop
            invariant
                self.wf(),
                out.wf(),
                rem == old(self).remaining(),
                out.deep_view().len() < BATCH_ROWS,
                Stream::of(out.deep_view()).followed_by(self.remaining()) == rem,
            decreases
                    self.left_rest().items.len() + (if self.active is Some {
                        1int
                    } else {
                        0int
                    }),
        {
            if self.active.is_none() {
                let need_new_batch = match &self.cur {
                    Some(c) => c.1 >= c.0.len(),
                    None => true,
                };
                let ghost before = *self;
                if need_new_batch {
                    proof {
                        assert(self.at_hand().len() == 0) by {
                            if self.cur is Some {
                                let c = self.cur->Some_0;
                                assert(c.0.deep_view().len() == c.0@.len());
                            }
                        }
                    }
                    let advanced = self.advance_left_batch();
                    proof {
                        assert(self.gives() =~= before.gives());
                        assert(before.remaining().items =~= through(
                            before.left_rest(),
                            before.gives(),
                        ).items);
                        assert(self.remaining().items =~= through(
                            self.left_rest(),
                            self.gives(),
                        ).items);
                    }
                    match advanced {
                        Ok(false) => {
                            proof {
                                assert(self.remaining() =~= Stream::nothing());
                                assert(before.remaining() =~= Stream::nothing());
                                assert(rem.items =~= Stream::of(out.deep_view()).items);
                            }
                            return if out.is_empty() {
                                proof {
                                    assert(rem =~= Stream::nothing());
                                }
                                None
                            } else {
                                proof {
                                    lemma_batch_first(rem, out.deep_view(), self.remaining());
                                }
                                Some(Ok(out))
                            };
                        },
                        Ok(true) => {
                            proof {
                                assert(self.remaining() == before.remaining());
                            }
                        },
                        Err(e) => {
                            proof {
                                let f = Stream::failed(e.deep_view());
                                let g = self.gives();
                                lemma_flow_concat(f.items, self.left_rest().items, on_items(g));
                                lemma_flow_one(f.items[0], on_items(g));
                                assert(f.items =~= seq![f.items[0]]);
                                assert(before.remaining().items =~= f.followed_by(
                                    self.remaining(),
                                ).items);
                                lemma_failure_first(
                                    rem,
                                    out.deep_view(),
                                    e.deep_view(),
                                    self.remaining(),
                                );
                            }
                            return Some(Err(e));
                        },
                    }
                } else {
                    proof {
                        let c = self.cur->Some_0;
                        assert(c.0.deep_view().len() == c.0@.len());
                    }
                }
                self.start_row();
            }
            let ghost left = self.left_rest();
            let ghost g = self.gives();
            let ghost later = through(left, g);
            let mut active = None;
            std::mem::swap(&mut active, &mut self.active);
            let (found, at) = match active {
                Some(a) => a,
                None => {
                    return None;
                },
            };
            let mut at: usize = at;
            let ghost all = found.deep_view().items;
            while at < found.items.len() && out.len() < BATCH_ROWS
                invariant
                    self.wf(),
                    self.active is None,
                    self.left_rest() == left,
                    self.gives() == g,
                    later == through(left, g),
                    rem == old(self).remaining(),
                    at <= found.items@.len(),
                    all == found.deep_view().items,
                    out.wf(),
                    out.deep_view().len() <= BATCH_ROWS,
                    Stream::of(out.deep_view()).followed_by(
                        (Stream { items: all.skip(at as int) }).followed_by(later),
                    ) == rem,
                decreases found.items.len() - at,
            {
                let ghost before = out.deep_view();
                let ghost here = all[at as int];
                proof {
                    assert(here == item_model(found.items@[at as int]));
                    assert(all.skip(at as int) =~= seq![here] + all.skip(at + 1));
                }
                match &found.items[at] {
                    Ok(row) => {
                        out.push(copy_row(row));
                        proof {
                            let less = Stream { items: all.skip(at + 1) };
                            assert(out.deep_view() =~= before.push(row.deep_view()));
                            assert(Stream::of(out.deep_view()).followed_by(
                                less.followed_by(later),
                            ).items =~= rem.items);
                        }
                    },
                    Err(e) => {
                        let e = e.clone();
                        let ghost rest = Stream { items: all.skip(at + 1) };
                        self.active = Some((found, at + 1));
                        proof {
                            assert(self.left_rest() == left);
                            assert(self.gives() =~= g);
                            assert(self.active_rest() == rest);
                            let now = self.remaining();
                            assert(now == rest.followed_by(later));
                            assert(Stream::of(before).followed_by(
                                Stream::failed(e.deep_view()).followed_by(now),
                            ).items =~= rem.items);
                            lemma_failure_first(rem, before, e.deep_view(), now);
                        }
                        return Some(Err(e));
                    },
                }
                at = at + 1;
            }
            if out.len() >= BATCH_ROWS {
                let ghost rest = Stream { items: all.skip(at as int) };
                self.active = Some((found, at));
                proof {
                    assert(self.left_rest() == left);
                    assert(self.gives() =~= g);
                    assert(self.active_rest() == rest);
                    let now = self.remaining();
                    assert(now == rest.followed_by(later));
                    lemma_batch_first(rem, out.deep_view(), now);
                }
                return Some(Ok(out));
            }
            proof {
                assert(all.skip(at as int) =~= Seq::<Item>::empty());
                let spent = Stream { items: all.skip(at as int) };
                assert(spent.followed_by(later).items =~= later.items);
                assert(self.left_rest() == left);
                assert(self.remaining().items =~= later.items);
            }
        }
    }

    /// All the batches still to come.
    pub fn collect(self) -> (r: BatchStream)
        requires
            self.wf(),
        ensures
            r.wf(),
            r.deep_view() == chunked(self.remaining()),
    {
        let ghost whole = self.remaining();
        let mut this = self;
        let mut out = BatchStream::nothing();
        proof {
            assert(Seq::<GroupItem>::empty() + chunked(whole).items =~= chunked(whole).items);
        }
        loop
            invariant
                this.wf(),
                out.wf(),
                whole == self.remaining(),
                chunked(whole).items == out.deep_view().items + chunked(this.remaining()).items,
            decreases this.remaining().items.len(),
        {
            let ghost rem = this.remaining();
            match this.next() {
                None => {
                    proof {
                        assert(out.deep_view().items =~= chunked(whole).items);
                    }
                    return out;
                },
                Some(item) => {
                    let ghost m = group_model(item);
                    let ghost before = out.deep_view().items;
                    proof {
                        lemma_head_rows(rem.items, 0);
                        let rest = chunked(this.remaining()).items;
                        assert(chunked(rem).items == seq![m] + rest);
                        assert(before + (seq![m] + rest) =~= before.push(m) + rest);
                    }
                    out.push(item);
                },
            }
        }
    }
}

/// What holds of the rows of two streams one after the other holds of the
/// rows of the second.
proof fn lemma_every_tail(a: Stream, b: Stream, p: spec_fn(Row) -> bool)
    requires
        a.followed_by(b).every(p),
    ensures
        b.every(p),
{
    let c = a.followed_by(b);
    assert forall|i: int| 0 <= i < b.items.len() && (#[trigger] b.items[i]) is Ok implies p(
        b.items[i]->Ok_0,
    ) by {
        assert(c.items[a.items.len() + i] == b.items[i]);
    }
}

/// Rows that fill a batch, or after which nothing comes, are the first batch.
proof fn lemma_batch_first(s: Stream, rows: Seq<Row>, rest: Stream)
    requires
        s == Stream::of(rows).followed_by(rest),
        0 < rows.len() <= BATCH_ROWS,
        rows.len() == BATCH_ROWS || rest.items.len() == 0,
    ensures
        s.items.len() > 0,
        first_chunk(s) == (Ok::<Seq<Row>, QueryFault>(rows), rest),
{
    let n = rows.len() as int;
    assert forall|j: int| 0 <= j < n implies (#[trigger] s.items[j]) is Ok by {
        assert(s.items[j] == Stream::of(rows).items[j]);
    }
    lemma_head_rows_are(s.items, n);
    assert((Stream { items: s.items.take(n) }).rows() =~= rows);
    assert(s.items.skip(n) =~= rest.items);
}

/// A failure before a batch is full is handed on in the place of the batch.
proof fn lemma_failure_first(
    s: Stream,
    rows: Seq<Row>,
    e: QueryFault,
    rest: Stream,
)
    requires
        s == Stream::of(rows).followed_by(Stream::failed(e).followed_by(rest)),
        rows.len() < BATCH_ROWS,
    ensures
        s.items.len() > 0,
        first_chunk(s) == (Err::<Seq<Row>, QueryFault>(e), rest),
{
    let n = rows.len() as int;
    assert forall|j: int| 0 <= j < n implies (#[trigger] s.items[j]) is Ok by {
        assert(s.items[j] == Stream::of(rows).items[j]);
    }
    assert(s.items[n] == Err::<Row, QueryFault>(e));
    lemma_head_rows_are(s.items, n);
    assert(s.items.skip(n + 1) =~= rest.items);
}

} // verus!
