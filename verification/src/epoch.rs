//! The total and the delta of one rule across evaluation epochs.
//!
//! An epoch's output is merged into the total at the epoch's end. What the
//! merge adds to the total, or changes in it, is the epoch's delta: the only
//! tuples the next epoch has to look at. An empty delta everywhere means that
//! the fixpoint is reached.

use vstd::prelude::*;
use vstd::slice::slice_subrange;
use crate::aggr::{AggrTypeError, Aggregation};
use crate::order::{
    lemma_map_of_at, lemma_sorted_no_duplicates, lemma_take_step, strictly_sorted, OrderedMap,
    OrderedSet, Rank,
};
use crate::temp_store::{
    admissible, first_untyped, fold_vals, group_rows, law_suffix_is_concatenation,
    lemma_meet_rows_associative, lemma_meet_rows_commutative, lemma_meet_rows_idempotent,
    lemma_meet_rows_typed, meet_rows, typed_groups, typed_row, Layout, MeetAggrStore, MeetLayout,
    NotAMeet, RegularTempStore, TempStore, TupleInIter,
};
use crate::value::{
    copy_row, lemma_row_irreflexive, lemma_row_transitive, lemma_rows_sorted, rank_rows, row_before,
    Row, Tuple,
};

verus! {

/// The number of derivations one merge admitted.
#[derive(Clone, Copy, Debug, PartialEq, Eq, Structural)]
pub struct Admitted(pub usize);

/// An observer of admissions: it is shown every admitted tuple, in the order
/// of the keys.
pub trait AdmissionSink {
    /// The tuples shown so far.
    spec fn seen(&self) -> Seq<Row>;

    /// What has been seen once more tuples are shown.
    spec fn seeing(before: Seq<Row>, shown: Seq<Row>) -> Seq<Row>;

    proof fn seeing_nothing(before: Seq<Row>)
        ensures
            Self::seeing(before, Seq::empty()) == before,
    ;

    proof fn seeing_one_more(before: Seq<Row>, shown: Seq<Row>, row: Row)
        ensures
            Self::seeing(Self::seeing(before, shown), seq![row]) == Self::seeing(
                before,
                shown.push(row),
            ),
    ;

    fn observe(&mut self, tuple: &Tuple)
        ensures
            final(self).seen() == Self::seeing(old(self).seen(), seq![tuple.deep_view()]),
    ;
}

/// Recording off.
impl AdmissionSink for () {
    open spec fn seen(&self) -> Seq<Row> {
        Seq::empty()
    }

    open spec fn seeing(before: Seq<Row>, shown: Seq<Row>) -> Seq<Row> {
        before
    }

    proof fn seeing_nothing(before: Seq<Row>) {
    }

    proof fn seeing_one_more(before: Seq<Row>, shown: Seq<Row>, row: Row) {
    }

    fn observe(&mut self, tuple: &Tuple) {
    }
}

/// A sink that keeps every admitted tuple.
#[derive(Debug)]
pub struct Recorder {
    pub tuples: Vec<Tuple>,
}

impl Recorder {
    pub fn new() -> (r: Self)
        ensures
            r.seen() == Seq::<Row>::empty(),
    {
        let r = Recorder { tuples: Vec::new() };
        assert(r.seen() =~= Seq::<Row>::empty());
        r
    }
}

impl AdmissionSink for Recorder {
    open spec fn seen(&self) -> Seq<Row> {
        self.tuples.deep_view()
    }

    open spec fn seeing(before: Seq<Row>, shown: Seq<Row>) -> Seq<Row> {
        before + shown
    }

    proof fn seeing_nothing(before: Seq<Row>) {
        assert(before + Seq::<Row>::empty() =~= before);
    }

    proof fn seeing_one_more(before: Seq<Row>, shown: Seq<Row>, row: Row) {
        assert(before + shown + seq![row] =~= before + shown.push(row));
    }

    fn observe(&mut self, tuple: &Tuple) {
        let ghost prev = self.tuples.deep_view();
        self.tuples.push(copy_row(tuple));
        assert(self.tuples.deep_view() =~= prev + seq![tuple.deep_view()]);
    }
}

/// Why a merge was refused.
#[derive(Clone, Copy, Debug, PartialEq, Eq, Structural)]
pub enum MergeError {
    /// The output is not of the store's kind.
    KindMismatch,
    /// A group's values cannot be folded into the total's.
    Untyped(AggrTypeError),
}

/// The total and the delta of one rule.
#[derive(Debug)]
pub struct EpochStore {
    pub arity: usize,
    pub total: TempStore,
    pub delta: TempStore,
}

/// Two meet stores of one rule head.
pub open spec fn same_head(a: MeetAggrStore, b: MeetAggrStore) -> bool {
    a.meets@ == b.meets@ && a.layout@ == b.layout@
}

impl EpochStore {
    /// Total and delta are of one kind; a delta is part of its total.
    pub open spec fn wf(&self) -> bool {
        match (self.total, self.delta) {
            (TempStore::Normal(t), TempStore::Normal(d)) => {
                &&& t.wf()
                &&& d.wf()
                &&& d.rows().subset_of(t.rows())
            },
            (TempStore::MeetAggr(t), TempStore::MeetAggr(d)) => {
                &&& t.wf()
                &&& d.wf()
                &&& same_head(t, d)
                &&& t.layout.arity == self.arity
                &&& forall|k: Row| #[trigger]
                    d.groups().contains_key(k) ==> t.groups().contains_key(k) && d.groups()[k]
                        == t.groups()[k]
            },
            _ => false,
        }
    }

    /// The store of a rule without meet aggregations.
    pub fn new_normal(arity: usize) -> (r: Self)
        ensures
            r.wf(),
            r.arity == arity,
            r.total is Normal,
            r.rows() == Set::<Row>::empty(),
            r.delta_rows() == Set::<Row>::empty(),
    {
        EpochStore {
            arity,
            total: TempStore::Normal(RegularTempStore::new()),
            delta: TempStore::Normal(RegularTempStore::new()),
        }
    }

    /// The store of a rule whose head aggregations are all meets.
    pub fn new_meet(aggrs: &Vec<Option<Aggregation>>) -> (r: Result<Self, NotAMeet>)
        ensures
            match r {
                Ok(s) => {
                    &&& s.wf()
                    &&& s.arity == aggrs@.len()
                    &&& s.total is MeetAggr
                    &&& s.total->MeetAggr_0.layout@.lays_out(aggrs@)
                    &&& s.total->MeetAggr_0.meets@ == crate::temp_store::aggregated(aggrs@)
                    &&& s.rows() == Set::<Row>::empty()
                    &&& s.delta_rows() == Set::<Row>::empty()
                    &&& forall|i: int|
                        0 <= i < aggrs@.len() && (#[trigger] aggrs@[i]) is Some
                            ==> aggrs@[i]->Some_0.meets()
                },
                Err(e) => exists|i: int|
                    0 <= i < aggrs@.len() && #[trigger] aggrs@[i] == Some(e.aggr)
                        && !e.aggr.meets() && forall|j: int|
                        0 <= j < i && (#[trigger] aggrs@[j]) is Some ==> aggrs@[j]->Some_0.meets(),
            },
    {
        let total = MeetAggrStore::new(aggrs.clone())?;
        let delta = total.fresh();
        let arity: usize = total.layout.arity;
        let r = EpochStore {
            arity,
            total: TempStore::MeetAggr(total),
            delta: TempStore::MeetAggr(delta),
        };
        proof {
            assert(group_rows(total.layout@, total.groups()) =~= Set::<Row>::empty());
            assert(group_rows(delta.layout@, delta.groups()) =~= Set::<Row>::empty());
        }
        Ok(r)
    }

    /// The tuples of the total.
    pub open spec fn rows(&self) -> Set<Row> {
        store_rows(self.total)
    }

    /// The tuples of the delta.
    pub open spec fn delta_rows(&self) -> Set<Row> {
        store_rows(self.delta)
    }
}

/// The head tuples of a store.
pub open spec fn store_rows(store: TempStore) -> Set<Row> {
    match store {
        TempStore::Normal(s) => s.rows(),
        TempStore::MeetAggr(s) => group_rows(s.layout@, s.groups()),
    }
}

impl MeetLayout {
    /// A copy of the layout.
    pub fn copy(&self) -> (r: Self)
        ensures
            r@ == self@,
    {
        let key_positions = self.key_positions.clone();
        let val_positions = self.val_positions.clone();
        assert(key_positions@ =~= self.key_positions@);
        assert(val_positions@ =~= self.val_positions@);
        MeetLayout { key_positions, val_positions, arity: self.arity }
    }
}

impl MeetAggrStore {
    /// An empty store for the same rule head.
    pub fn fresh(&self) -> (r: Self)
        requires
            self.wf(),
        ensures
            r.wf(),
            same_head(*self, r),
            r.groups() == Map::<Row, Row>::empty(),
    {
        let meets = self.meets.clone();
        assert(meets@ =~= self.meets@);
        let r = MeetAggrStore {
            by_group: OrderedMap::new(),
            by_row: OrderedSet::new(),
            meets,
            layout: self.layout.copy(),
        };
        proof {
            assert(r.groups() =~= Map::<Row, Row>::empty());
            assert(group_rows(r.layout@, r.groups()) =~= Set::<Row>::empty());
        }
        r
    }
}

/// Appending the next row of a sorted sequence to rows taken from before it
/// keeps them sorted.
proof fn lemma_push_next(rows: Seq<Row>, i: int, taken: Seq<Row>)
    requires
        strictly_sorted::<Tuple>(rows),
        0 <= i < rows.len(),
        strictly_sorted::<Tuple>(taken),
        forall|j: int| 0 <= j < taken.len() ==> rows.take(i).contains(#[trigger] taken[j]),
    ensures
        strictly_sorted::<Tuple>(taken.push(rows[i])),
        taken.push(rows[i]).to_set() == taken.to_set().insert(rows[i]),
{
    let next = taken.push(rows[i]);
    let head = rows.take(i);
    crate::value::lemma_rows_sorted(rows);
    crate::value::lemma_rows_sorted(taken);
    crate::value::lemma_rows_sorted(next);
    assert forall|a: int, b: int| 0 <= a < b < next.len() implies row_before(
        #[trigger] next[a],
        #[trigger] next[b],
    ) by {
        if b == taken.len() {
            assert(head.contains(taken[a]));
            let j = choose|j: int| 0 <= j < head.len() && head[j] == taken[a];
            assert(row_before(rows[j], rows[i]));
        }
    }
    lemma_take_step(next, taken.len() as int);
    assert(next.take(taken.len() as int) =~= taken);
    assert(next.take(next.len() as int) =~= next);
}

impl MeetAggrStore {
    /// Give a group its values, in place of those it had.
    fn set_group(&mut self, key: &Tuple, vals: &Tuple)
        requires
            old(self).wf(),
            key@.len() == old(self).layout.key_positions@.len(),
            vals@.len() == old(self).layout.val_positions@.len(),
        ensures
            final(self).wf(),
            final(self).layout == old(self).layout,
            final(self).meets == old(self).meets,
            final(self).groups() == old(self).groups().insert(key.deep_view(), vals.deep_view()),
    {
        let ghost groups = self.groups();
        let ghost k = key.deep_view();
        let ghost v = vals.deep_view();
        proof {
            crate::temp_store::lemma_rows_replace(self.layout@, groups, k, v);
        }
        if !self.layout.is_suffix() {
            let (found, at) = crate::order::place_of(&self.by_group.keys, key);
            if found {
                proof {
                    lemma_sorted_no_duplicates::<Tuple>(self.by_group.keys.deep_view());
                    lemma_map_of_at(self.by_group.keys.deep_view(), self.by_group.vals@, at as int);
                    assert(groups.contains_key(k));
                    assert(groups[k] == self.by_group.vals@[at as int].deep_view());
                }
                let old_row = self.layout.interleave(key, &self.by_group.vals[at]);
                self.by_row.remove(&old_row);
            } else {
                assert(!groups.contains_key(k));
            }
            let new_row = self.layout.interleave(key, vals);
            self.by_row.insert(new_row);
        }
        self.by_group.insert(copy_row(key), copy_row(vals));
        assert(self.groups() =~= groups.insert(k, v));
    }
}

/// The values of a group once an epoch's output is merged into a total.
pub open spec fn merged_vals(
    ops: Seq<Aggregation>,
    total: Map<Row, Row>,
    out: Map<Row, Row>,
    key: Row,
) -> Row {
    if total.contains_key(key) && out.contains_key(key) {
        meet_rows(ops, total[key], out[key])->Some_0
    } else if total.contains_key(key) {
        total[key]
    } else {
        out[key]
    }
}

/// The groups of a total once an epoch's output is merged into it.
pub open spec fn merged_groups(
    ops: Seq<Aggregation>,
    total: Map<Row, Row>,
    out: Map<Row, Row>,
) -> Map<Row, Row> {
    Map::new(
        |k: Row| total.contains_key(k) || out.contains_key(k),
        |k: Row| merged_vals(ops, total, out, k),
    )
}

/// The groups that a merge added or changed, with their values after it.
pub open spec fn delta_groups(
    ops: Seq<Aggregation>,
    total: Map<Row, Row>,
    out: Map<Row, Row>,
) -> Map<Row, Row> {
    Map::new(
        |k: Row| admissible(ops, total, out).contains(k),
        |k: Row| merged_vals(ops, total, out, k),
    )
}

/// Every group that total and output share can be folded.
pub open spec fn mergeable(
    ops: Seq<Aggregation>,
    total: Map<Row, Row>,
    out: Map<Row, Row>,
) -> bool {
    forall|k: Row| #[trigger]
        out.contains_key(k) && total.contains_key(k) ==> meet_rows(ops, total[k], out[k]) is Some
}

/// The state of a merge once the groups in `done` are merged.
spec fn merging(
    ops: Seq<Aggregation>,
    before: Map<Row, Row>,
    out: Map<Row, Row>,
    done: Set<Row>,
    total: Map<Row, Row>,
    delta: Map<Row, Row>,
) -> bool {
    &&& forall|k: Row| #[trigger]
        total.contains_key(k) == (before.contains_key(k) || (out.contains_key(k) && done.contains(
            k,
        )))
    &&& forall|k: Row| #[trigger]
        total.contains_key(k) ==> total[k] == (if done.contains(k) {
            merged_vals(ops, before, out, k)
        } else {
            before[k]
        })
    &&& forall|k: Row| #[trigger]
        delta.contains_key(k) == (done.contains(k) && admissible(ops, before, out).contains(k))
    &&& forall|k: Row| #[trigger]
        delta.contains_key(k) ==> delta[k] == merged_vals(ops, before, out, k)
}

/// The head tuples of groups, in the order of the keys.
pub open spec fn rows_by_key(layout: Layout, keys: Seq<Row>, groups: Map<Row, Row>) -> Seq<Row> {
    Seq::new(keys.len(), |i: int| layout.interleaved(keys[i], groups[keys[i]]))
}

/// The first group of an output, by its key, that cannot be folded into the
/// total, and the error of its first value that cannot.
pub open spec fn first_unmergeable(
    ops: Seq<Aggregation>,
    total: Map<Row, Row>,
    out: Map<Row, Row>,
    key: Row,
    e: AggrTypeError,
) -> bool {
    &&& out.contains_key(key)
    &&& total.contains_key(key)
    &&& meet_rows(ops, total[key], out[key]) is None
    &&& first_untyped(ops, total[key], out[key], e)
    &&& forall|k: Row| #[trigger]
        out.contains_key(k) && total.contains_key(k) && row_before(k, key) ==> meet_rows(
            ops,
            total[k],
            out[k],
        ) is Some
}

/// The first group of the output that cannot be folded into the total.
fn check_mergeable(total: &MeetAggrStore, out: &MeetAggrStore) -> (r: Result<(), AggrTypeError>)
    requires
        total.wf(),
        out.wf(),
        same_head(*total, *out),
    ensures
        match r {
            Ok(_) => mergeable(total.meets@, total.groups(), out.groups()),
            Err(e) => exists|k: Row| #[trigger]
                first_unmergeable(total.meets@, total.groups(), out.groups(), k, e),
        },
{
    let ghost ks = out.by_group.keys.deep_view();
    let ghost ops = total.meets@;
    let mut i: usize = 0;
    while i < out.by_group.keys.len()
        invariant
            i <= out.by_group.keys@.len(),
            total.wf(),
            out.wf(),
            same_head(*total, *out),
            ks == out.by_group.keys.deep_view(),
            ops == total.meets@,
            forall|j: int|
                0 <= j < i && total.groups().contains_key(#[trigger] ks[j]) ==> meet_rows(
                    ops,
                    total.groups()[ks[j]],
                    out.groups()[ks[j]],
                ) is Some,
        decreases out.by_group.keys.len() - i,
    {
        proof {
            lemma_sorted_no_duplicates::<Tuple>(ks);
            lemma_map_of_at(ks, out.by_group.vals@, i as int);
            assert(out.groups().contains_key(ks[i as int]));
            assert(out.by_group.vals@[i as int]@.len() == out.groups()[ks[i as int]].len());
        }
        match total.would_admit(&out.by_group.keys[i], &out.by_group.vals[i]) {
            Ok(_) => {},
            Err(e) => {
                proof {
                    let key = ks[i as int];
                    lemma_rows_sorted(ks);
                    assert forall|k: Row| #[trigger]
                        out.groups().contains_key(k) && total.groups().contains_key(k)
                            && row_before(k, key) implies meet_rows(
                        ops,
                        total.groups()[k],
                        out.groups()[k],
                    ) is Some by {
                        let j = ks.index_of(k);
                        assert(ks[j] == k);
                        if j == i {
                            lemma_row_irreflexive(key);
                        } else if j > i {
                            assert(row_before(ks[i as int], ks[j]));
                            lemma_row_transitive(key, k, key);
                            lemma_row_irreflexive(key);
                        }
                    }
                    assert(first_unmergeable(ops, total.groups(), out.groups(), key, e));
                }
                return Err(e);
            },
        }
        i = i + 1;
    }
    proof {
        assert forall|k: Row| #[trigger]
            out.groups().contains_key(k) && total.groups().contains_key(k) implies meet_rows(
            ops,
            total.groups()[k],
            out.groups()[k],
        ) is Some by {
            let j = ks.index_of(k);
            assert(ks[j] == k);
        }
    }
    Ok(())
}

/// Merge an epoch's groups into the total: the delta.
fn merge_meet<S: AdmissionSink>(
    total: &mut MeetAggrStore,
    out: &MeetAggrStore,
    sink: &mut S,
) -> (delta: MeetAggrStore)
    requires
        old(total).wf(),
        out.wf(),
        same_head(*old(total), *out),
        mergeable(old(total).meets@, old(total).groups(), out.groups()),
    ensures
        final(total).wf(),
        final(total).layout == old(total).layout,
        final(total).meets == old(total).meets,
        delta.wf(),
        same_head(*final(total), delta),
        final(total).groups() == merged_groups(
            old(total).meets@,
            old(total).groups(),
            out.groups(),
        ),
        delta.groups() == delta_groups(old(total).meets@, old(total).groups(), out.groups()),
        final(sink).seen() == S::seeing(
            old(sink).seen(),
            rows_by_key(
                delta.layout@,
                delta.by_group.keys.deep_view(),
                delta.groups(),
            ),
        ),
{
    let ghost ops = total.meets@;
    let ghost before = total.groups();
    let ghost outs = out.groups();
    let ghost ks = out.by_group.keys.deep_view();
    let ghost layout = total.layout@;
    let mut delta = total.fresh();
    let ghost mut done_keys: Seq<Row> = Seq::empty();
    let ghost mut shown: Seq<Row> = Seq::empty();
    let mut i: usize = 0;
    proof {
        S::seeing_nothing(sink.seen());
        assert(ks.take(0).to_set() =~= Set::<Row>::empty());
    }
    while i < out.by_group.keys.len()
        invariant
            i <= out.by_group.keys@.len(),
            total.wf(),
            out.wf(),
            delta.wf(),
            same_head(*total, *out),
            same_head(*total, delta),
            total.layout == old(total).layout,
            total.meets == old(total).meets,
            ops == total.meets@,
            layout == total.layout@,
            before == old(total).groups(),
            outs == out.groups(),
            ks == out.by_group.keys.deep_view(),
            mergeable(ops, before, outs),
            merging(
                ops,
                before,
                outs,
                ks.take(i as int).to_set(),
                total.groups(),
                delta.groups(),
            ),
            strictly_sorted::<Tuple>(done_keys),
            forall|j: int|
                0 <= j < done_keys.len() ==> ks.take(i as int).contains(#[trigger] done_keys[j]),
            forall|k: Row| #[trigger] delta.groups().contains_key(k) == done_keys.contains(k),
            shown == rows_by_key(layout, done_keys, delta.groups()),
            sink.seen() == S::seeing(old(sink).seen(), shown),
        decreases out.by_group.keys.len() - i,
    {
        let key = &out.by_group.keys[i];
        let vals = &out.by_group.vals[i];
        let ghost k = key.deep_view();
        let ghost total0 = total.groups();
        let ghost delta0 = delta.groups();
        proof {
            lemma_sorted_no_duplicates::<Tuple>(ks);
            lemma_map_of_at(ks, out.by_group.vals@, i as int);
            assert(ks[i as int] == k);
            assert(outs.contains_key(k));
            assert(outs[k] == vals.deep_view());
            assert(vals@.len() == outs[k].len());
            assert(key@.len() == k.len());
            lemma_take_step(ks, i as int);
            if ks.take(i as int).contains(k) {
                let j = choose|j: int| 0 <= j < i && #[trigger] ks.take(i as int)[j] == k;
                assert(ks[j] == ks[i as int]);
            }
            assert(!ks.take(i as int).to_set().contains(k));
            assert(total0.contains_key(k) == before.contains_key(k));
        }
        let folded: Option<Tuple> = match total.by_group.get(key) {
            Some(current) => {
                proof {
                    assert(total0.contains_key(k));
                    assert(total0[k] == before[k]);
                    assert(current@.len() == current.deep_view().len());
                }
                match fold_vals(&total.meets, current, vals) {
                    Ok(vc) => if vc.1 {
                        Some(vc.0)
                    } else {
                        None
                    },
                    Err(_) => {
                        assert(false);
                        None
                    },
                }
            },
            None => {
                assert(!total0.contains_key(k));
                Some(copy_row(vals))
            },
        };
        if let Some(now) = folded {
            let ghost v = now.deep_view();
            proof {
                assert(v == merged_vals(ops, before, outs, k));
                assert(admissible(ops, before, outs).contains(k));
                assert(now@.len() == v.len());
                assert(v.len() == ops.len());
            }
            let row = total.layout.interleave(key, &now);
            total.set_group(key, &now);
            delta.set_group(key, &now);
            sink.observe(&row);
            proof {
                let next = done_keys.push(k);
                assert forall|a: int, b: int| 0 <= a < b < next.len() implies row_before(
                    #[trigger] next[a],
                    #[trigger] next[b],
                ) by {
                    if b == done_keys.len() {
                        assert(ks.take(i as int).contains(done_keys[a]));
                        let j = choose|j: int|
                            0 <= j < i && #[trigger] ks.take(i as int)[j] == done_keys[a];
                        assert(row_before(ks[j], ks[i as int]));
                    }
                }
                assert(strictly_sorted::<Tuple>(next));
                S::seeing_one_more(old(sink).seen(), shown, row.deep_view());
                assert forall|j: int| 0 <= j < done_keys.len() implies delta0[done_keys[j]]
                    == delta.groups()[done_keys[j]] by {
                    assert(done_keys.contains(done_keys[j]));
                    assert(delta0.contains_key(done_keys[j]));
                    assert(done_keys[j] != k) by {
                        assert(ks.take(i as int).contains(done_keys[j]));
                    }
                }
                assert(shown.push(row.deep_view()) =~= rows_by_key(layout, next, delta.groups()));
                assert forall|q: Row| #[trigger]
                    delta.groups().contains_key(q) == next.contains(q) by {
                    crate::order::lemma_take_step(next, done_keys.len() as int);
                    assert(next.take(done_keys.len() as int) =~= done_keys);
                    assert(next.take(next.len() as int) =~= next);
                    assert(next.to_set().contains(q) == done_keys.to_set().insert(k).contains(q));
                    assert(delta0.contains_key(q) == done_keys.contains(q));
                }
                assert forall|j: int| 0 <= j < next.len() implies ks.take(i + 1).contains(
                    #[trigger] next[j],
                ) by {
                    if j < done_keys.len() {
                        assert(ks.take(i as int).contains(done_keys[j]));
                        assert(ks.take(i as int).to_set().contains(done_keys[j]));
                    }
                    assert(ks.take(i + 1).to_set().contains(next[j]));
                }
                done_keys = next;
                shown = shown.push(row.deep_view());
            }
        } else {
            proof {
                assert(before.contains_key(k));
                assert(merged_vals(ops, before, outs, k) == before[k]);
                assert(!admissible(ops, before, outs).contains(k));
                assert forall|j: int| 0 <= j < done_keys.len() implies ks.take(i + 1).contains(
                    #[trigger] done_keys[j],
                ) by {
                    assert(ks.take(i as int).to_set().contains(done_keys[j]));
                    assert(ks.take(i + 1).to_set().contains(done_keys[j]));
                }
            }
        }
        proof {
            let d0 = ks.take(i as int).to_set();
            let d1 = ks.take(i + 1).to_set();
            assert(d1 == d0.insert(k));
            assert(merging(ops, before, outs, d1, total.groups(), delta.groups()));
        }
        i = i + 1;
    }
    proof {
        assert(ks.take(i as int) =~= ks);
        assert forall|k: Row| outs.contains_key(k) == ks.to_set().contains(k) by {}
        assert(total.groups() =~= merged_groups(ops, before, outs));
        assert(delta.groups() =~= delta_groups(ops, before, outs));
        let dk = delta.by_group.keys.deep_view();
        assert(dk.to_set() =~= done_keys.to_set()) by {
            assert forall|k: Row| dk.contains(k) == done_keys.contains(k) by {
                assert(delta.groups().contains_key(k) == dk.contains(k));
            }
        }
        crate::order::lemma_sorted_unique::<Tuple>(dk, done_keys);
    }
    delta
}

/// Merge an epoch's tuples into the total: the delta.
fn merge_normal<S: AdmissionSink>(
    total: &mut RegularTempStore,
    out: &RegularTempStore,
    sink: &mut S,
) -> (delta: RegularTempStore)
    requires
        old(total).wf(),
        out.wf(),
    ensures
        final(total).wf(),
        delta.wf(),
        final(total).rows() == old(total).rows().union(out.rows()),
        final(total).flags() == out.flags().union_prefer_right(old(total).flags()),
        delta.rows() == out.rows().difference(old(total).rows()),
        delta.flags() == out.flags().restrict(delta.rows()),
        final(sink).seen() == S::seeing(
            old(sink).seen(),
            delta.inner.keys.deep_view(),
        ),
{
    let ghost ks = out.inner.keys.deep_view();
    let ghost before = total.rows();
    let ghost flags0 = total.flags();
    let ghost outf = out.flags();
    let mut delta = RegularTempStore::new();
    let ghost mut shown: Seq<Row> = Seq::empty();
    let mut i: usize = 0;
    proof {
        S::seeing_nothing(sink.seen());
        assert(ks.take(0).to_set() =~= Set::<Row>::empty());
        assert(total.rows() =~= before.union(ks.take(0).to_set()));
        assert(shown.to_set() =~= Set::<Row>::empty());
        lemma_flags_dom(*total);
        lemma_flags_dom(*out);
    }
    while i < out.inner.keys.len()
        invariant
            i <= out.inner.keys@.len(),
            total.wf(),
            out.wf(),
            delta.wf(),
            before == old(total).rows(),
            flags0 == old(total).flags(),
            flags0.dom() == before,
            outf == out.flags(),
            ks == out.inner.keys.deep_view(),
            total.rows() == before.union(ks.take(i as int).to_set()),
            forall|k: Row| #[trigger]
                total.flags().contains_key(k) ==> total.flags()[k] == (if before.contains(k) {
                    flags0[k]
                } else {
                    outf[k]
                }),
            delta.rows() == ks.take(i as int).to_set().difference(before),
            forall|k: Row| #[trigger]
                delta.flags().contains_key(k) ==> delta.flags()[k] == outf[k],
            strictly_sorted::<Tuple>(shown),
            shown.to_set() == delta.rows(),
            forall|j: int|
                0 <= j < shown.len() ==> ks.take(i as int).contains(#[trigger] shown[j]),
            sink.seen() == S::seeing(old(sink).seen(), shown),
        decreases out.inner.keys.len() - i,
    {
        let key = &out.inner.keys[i];
        let skip = out.inner.vals[i];
        let ghost k = key.deep_view();
        proof {
            lemma_sorted_no_duplicates::<Tuple>(ks);
            lemma_map_of_at(ks, out.inner.vals@, i as int);
            assert(ks[i as int] == k);
            assert(outf[k] == skip);
            lemma_take_step(ks, i as int);
            if ks.take(i as int).contains(k) {
                let j = choose|j: int| 0 <= j < i && #[trigger] ks.take(i as int)[j] == k;
                assert(ks[j] == ks[i as int]);
            }
            assert(!ks.take(i as int).to_set().contains(k));
            assert forall|j: int| 0 <= j < shown.len() implies ks.take(i + 1).contains(
                #[trigger] shown[j],
            ) by {
                assert(ks.take(i as int).to_set().contains(shown[j]));
                assert(ks.take(i + 1).to_set().contains(shown[j]));
            }
        }
        if !total.contains(key) {
            let ghost t0 = total.rows();
            let ghost d0 = delta.rows();
            if skip {
                total.put_with_skip(copy_row(key));
                delta.put_with_skip(copy_row(key));
            } else {
                total.put(copy_row(key));
                delta.put(copy_row(key));
            }
            sink.observe(key);
            proof {
                let next = shown.push(k);
                assert forall|a: int, b: int| 0 <= a < b < next.len() implies row_before(
                    #[trigger] next[a],
                    #[trigger] next[b],
                ) by {
                    if b == shown.len() {
                        assert(ks.take(i as int).contains(shown[a]));
                        let j = choose|j: int|
                            0 <= j < i && #[trigger] ks.take(i as int)[j] == shown[a];
                        assert(row_before(ks[j], ks[i as int]));
                    }
                }
                assert(strictly_sorted::<Tuple>(next));
                lemma_take_step(next, shown.len() as int);
                assert(next.take(shown.len() as int) =~= shown);
                assert(next.take(next.len() as int) =~= next);
                S::seeing_one_more(old(sink).seen(), shown, k);
                assert(ks.take(i + 1).to_set().contains(k));
                shown = next;
            }
        }
        proof {
            assert(total.rows() =~= before.union(ks.take(i + 1).to_set()));
            assert(delta.rows() =~= ks.take(i + 1).to_set().difference(before));
        }
        i = i + 1;
    }
    proof {
        assert(ks.take(i as int) =~= ks);
        lemma_flags_dom(*total);
        lemma_flags_dom(delta);
        lemma_flags_dom(*out);
        assert(total.flags() =~= outf.union_prefer_right(flags0));
        assert(delta.flags() =~= outf.restrict(delta.rows()));
        crate::order::lemma_sorted_unique::<Tuple>(delta.inner.keys.deep_view(), shown);
    }
    delta
}

/// The flagged tuples of a store are its tuples.
pub proof fn lemma_flags_dom(store: RegularTempStore)
    requires
        store.wf(),
    ensures
        store.flags().dom() == store.rows(),
{
    assert(store.flags().dom() =~= store.rows());
}

/// The strictly increasing enumeration of a set of rows.
pub open spec fn ordered(rows: Set<Row>) -> Seq<Row> {
    choose|m: Seq<Row>| strictly_sorted::<Tuple>(m) && m.to_set() == rows
}

/// The enumeration of a set that has one.
pub proof fn lemma_ordered(m: Seq<Row>)
    requires
        strictly_sorted::<Tuple>(m),
    ensures
        ordered(m.to_set()) == m,
{
    let s = m.to_set();
    assert(strictly_sorted::<Tuple>(m) && m.to_set() == s);
    let c = ordered(s);
    assert(strictly_sorted::<Tuple>(c) && c.to_set() == s);
    crate::order::lemma_sorted_unique::<Tuple>(c, m);
}

/// A finite set of rows has its enumeration.
pub proof fn lemma_enumerable(rows: Set<Row>)
    requires
        rows.finite(),
    ensures
        strictly_sorted::<Tuple>(ordered(rows)),
        ordered(rows).to_set() == rows,
{
    let m = crate::order::lemma_finite_sorted::<Tuple>(rows);
    lemma_ordered(m);
}

/// The tuples of a store have their enumeration.
pub proof fn lemma_store_enumerable(store: TempStore)
    requires
        match store {
            TempStore::Normal(s) => s.wf(),
            TempStore::MeetAggr(s) => s.wf(),
        },
    ensures
        strictly_sorted::<Tuple>(ordered(store_rows(store))),
        ordered(store_rows(store)).to_set() == store_rows(store),
{
    match store {
        TempStore::Normal(s) => {
            let ks = s.inner.keys.deep_view();
            assert(ks.to_set() =~= s.rows());
            lemma_ordered(ks);
        },
        TempStore::MeetAggr(s) => {
            let ks = s.by_group.keys.deep_view();
            let groups = s.groups();
            vstd::seq_lib::seq_to_set_is_finite(ks);
            let f = |k: Row| s.layout@.interleaved(k, groups[k]);
            let image = ks.to_set().map(f);
            ks.to_set().lemma_map_finite(f);
            assert(image =~= store_rows(store)) by {
                assert forall|r: Row| image.contains(r) == store_rows(store).contains(r) by {
                    if image.contains(r) {
                        let k = choose|k: Row| ks.to_set().contains(k) && r == f(k);
                        assert(groups.contains_key(k));
                    }
                    if store_rows(store).contains(r) {
                        let k = choose|k: Row| #[trigger]
                            groups.contains_key(k) && r == s.layout@.interleaved(k, groups[k]);
                        assert(ks.to_set().contains(k));
                        assert(image.contains(f(k)));
                    }
                }
            }
            lemma_enumerable(store_rows(store));
        },
    }
}

/// Rows of equal width keep their order whatever follows them.
pub proof fn lemma_before_extends(a: Row, b: Row, x: Row, y: Row)
    requires
        row_before(a, b),
        a.len() == b.len(),
    ensures
        row_before(a + x, b + y),
    decreases a.len(),
{
    if a.len() > 0 {
        assert((a + x)[0] == a[0]);
        assert((b + y)[0] == b[0]);
        assert((a + x).drop_first() =~= a.drop_first() + x);
        assert((b + y).drop_first() =~= b.drop_first() + y);
        if a[0] == b[0] {
            lemma_before_extends(a.drop_first(), b.drop_first(), x, y);
        }
    }
}

/// Whether a row begins with another.
pub open spec fn starts_with(row: Row, prefix: Row) -> bool {
    prefix.len() <= row.len() && row.take(prefix.len() as int) == prefix
}

/// Whether a row lies between two bounds, the upper one included or not.
pub open spec fn in_range(row: Row, lower: Row, upper: Row, inclusive: bool) -> bool {
    &&& !row_before(row, lower)
    &&& row_before(row, upper) || (inclusive && row == upper)
}

/// Which tuples of a store to enumerate.
pub enum Selection<'a> {
    All,
    Prefix(&'a Tuple),
    Range { lower: &'a Tuple, upper: &'a Tuple, inclusive: bool },
}

impl<'a> Selection<'a> {
    pub open spec fn takes(self, row: Row) -> bool {
        match self {
            Selection::All => true,
            Selection::Prefix(p) => starts_with(row, p.deep_view()),
            Selection::Range { lower, upper, inclusive } => in_range(
                row,
                lower.deep_view(),
                upper.deep_view(),
                inclusive,
            ),
        }
    }

    fn wants(&self, row: &TupleInIter<'_>) -> (r: bool)
        ensures
            r == self.takes(row.deep_view()),
    {
        match self {
            Selection::All => true,
            Selection::Prefix(p) => {
                let full = row.into_tuple();
                if p.len() > full.len() {
                    return false;
                }
                let head = crate::history::row_prefix(&full, p.len());
                crate::value::same_row(&head, p)
            },
            Selection::Range { lower, upper, inclusive } => {
                let full = row.into_tuple();
                let low = rank_rows(&full, lower);
                let high = rank_rows(&full, upper);
                proof {
                    crate::value::lemma_row_irreflexive(full.deep_view());
                }
                match low {
                    Rank::Before => false,
                    _ => match high {
                        Rank::Before => true,
                        Rank::Same => *inclusive,
                        Rank::After => false,
                    },
                }
            },
        }
    }
}

/// A view over the tuple at a position of a plain store.
fn normal_view(store: &RegularTempStore, i: usize) -> (r: TupleInIter<'_>)
    requires
        store.wf(),
        i < store.inner.keys@.len(),
    ensures
        r.deep_view() == store.inner.keys.deep_view()[i as int],
        r.skip == store.inner.vals@[i as int],
{
    let key = store.inner.keys[i].as_slice();
    let none = slice_subrange(key, 0, 0);
    let r = TupleInIter::new(key, none, store.inner.vals[i]);
    assert(r.deep_view() =~= store.inner.keys.deep_view()[i as int]);
    r
}

/// The tuple views of a store, in tuple order.
pub fn views(store: &TempStore) -> (r: Vec<TupleInIter<'_>>)
    requires
        match store {
            TempStore::Normal(s) => s.wf(),
            TempStore::MeetAggr(s) => s.wf(),
        },
    ensures
        strictly_sorted::<Tuple>(r.deep_view()),
        r.deep_view().to_set() == store_rows(*store),
        match store {
            TempStore::Normal(s) => forall|i: int|
                0 <= i < r@.len() ==> (#[trigger] r@[i]).skip == s.flags()[r@[i].deep_view()],
            TempStore::MeetAggr(_) => forall|i: int|
                0 <= i < r@.len() ==> !(#[trigger] r@[i]).skip,
        },
{
    let mut out: Vec<TupleInIter<'_>> = Vec::new();
    match store {
        TempStore::Normal(s) => {
            let ghost ks = s.inner.keys.deep_view();
            proof {
                lemma_sorted_no_duplicates::<Tuple>(ks);
            }
            let mut i: usize = 0;
            while i < s.inner.keys.len()
                invariant
                    i <= s.inner.keys@.len(),
                    s.wf(),
                    ks == s.inner.keys.deep_view(),
                    ks.no_duplicates(),
                    out.deep_view() == ks.take(i as int),
                    forall|j: int|
                        0 <= j < out@.len() ==> (#[trigger] out@[j]).skip
                            == s.flags()[out@[j].deep_view()],
                decreases s.inner.keys.len() - i,
            {
                let ghost prev = out.deep_view();
                let v = normal_view(s, i);
                proof {
                    lemma_map_of_at(ks, s.inner.vals@, i as int);
                }
                out.push(v);
                assert(out.deep_view() =~= prev.push(ks[i as int]));
                assert(out.deep_view() =~= ks.take(i + 1));
                i = i + 1;
            }
            assert(ks.take(i as int) =~= ks);
        },
        TempStore::MeetAggr(s) => {
            if s.layout.is_suffix() {
                let ghost ks = s.by_group.keys.deep_view();
                let ghost layout = s.layout@;
                let ghost rows = rows_by_key(layout, ks, s.groups());
                proof {
                    lemma_sorted_no_duplicates::<Tuple>(ks);
                }
                let mut i: usize = 0;
                while i < s.by_group.keys.len()
                    invariant
                        i <= s.by_group.keys@.len(),
                        s.wf(),
                        s.layout@.suffix(),
                        layout == s.layout@,
                        ks == s.by_group.keys.deep_view(),
                        ks.no_duplicates(),
                        rows == rows_by_key(layout, ks, s.groups()),
                        out.deep_view() == rows.take(i as int),
                        forall|j: int| 0 <= j < out@.len() ==> !(#[trigger] out@[j]).skip,
                    decreases s.by_group.keys.len() - i,
                {
                    let ghost prev = out.deep_view();
                    let key = s.by_group.keys[i].as_slice();
                    let val = s.by_group.vals[i].as_slice();
                    let v = TupleInIter::new(key, val, false);
                    proof {
                        let k = ks[i as int];
                        lemma_map_of_at(ks, s.by_group.vals@, i as int);
                        assert(s.groups().contains_key(k));
                        law_suffix_is_concatenation(layout, k, s.groups()[k]);
                        assert(key.deep_view() =~= k);
                        assert(val.deep_view() =~= s.groups()[k]);
                        assert(v.deep_view() == rows[i as int]);
                    }
                    out.push(v);
                    assert(out.deep_view() =~= prev.push(rows[i as int]));
                    assert(out.deep_view() =~= rows.take(i + 1));
                    i = i + 1;
                }
                proof {
                    assert(rows.take(i as int) =~= rows);
                    lemma_group_rows_by_key(*s);
                    assert forall|a: int, b: int| 0 <= a < b < rows.len() implies row_before(
                        #[trigger] rows[a],
                        #[trigger] rows[b],
                    ) by {
                        let x = ks[a];
                        let y = ks[b];
                        assert(ks.contains(x) && ks.contains(y));
                        assert(s.groups().contains_key(x) && s.groups().contains_key(y));
                        law_suffix_is_concatenation(layout, x, s.groups()[x]);
                        law_suffix_is_concatenation(layout, y, s.groups()[y]);
                        lemma_before_extends(x, y, s.groups()[x], s.groups()[y]);
                    }
                }
            } else {
                let ghost rows = s.by_row.items.deep_view();
                let mut i: usize = 0;
                while i < s.by_row.items.len()
                    invariant
                        i <= s.by_row.items@.len(),
                        s.wf(),
                        rows == s.by_row.items.deep_view(),
                        out.deep_view() == rows.take(i as int),
                        forall|j: int| 0 <= j < out@.len() ==> !(#[trigger] out@[j]).skip,
                    decreases s.by_row.items.len() - i,
                {
                    let ghost prev = out.deep_view();
                    let row = s.by_row.items[i].as_slice();
                    let none = slice_subrange(row, 0, 0);
                    let v = TupleInIter::new(row, none, false);
                    assert(v.deep_view() =~= rows[i as int]);
                    out.push(v);
                    assert(out.deep_view() =~= prev.push(rows[i as int]));
                    assert(out.deep_view() =~= rows.take(i + 1));
                    i = i + 1;
                }
                assert(rows.take(i as int) =~= rows);
            }
        },
    }
    out
}

/// The head tuples of a store, listed by group key.
proof fn lemma_group_rows_by_key(s: MeetAggrStore)
    requires
        s.wf(),
    ensures
        rows_by_key(s.layout@, s.by_group.keys.deep_view(), s.groups()).to_set() == group_rows(
            s.layout@,
            s.groups(),
        ),
{
    let ks = s.by_group.keys.deep_view();
    let rows = rows_by_key(s.layout@, ks, s.groups());
    let set = group_rows(s.layout@, s.groups());
    assert forall|r: Row| rows.to_set().contains(r) == set.contains(r) by {
        if rows.contains(r) {
            let i = choose|i: int| 0 <= i < rows.len() && rows[i] == r;
            assert(ks.contains(ks[i]));
            assert(s.groups().contains_key(ks[i]));
        }
        if set.contains(r) {
            let k = choose|k: Row| #[trigger]
                s.groups().contains_key(k) && r == s.layout@.interleaved(k, s.groups()[k]);
            let i = ks.index_of(k);
            assert(rows[i] == r);
        }
    }
    assert(rows.to_set() =~= set);
}

/// The tuples of a store that a selection takes, in tuple order.
pub fn select<'a>(store: &'a TempStore, selection: Selection<'_>) -> (r: Vec<TupleInIter<'a>>)
    requires
        match store {
            TempStore::Normal(s) => s.wf(),
            TempStore::MeetAggr(s) => s.wf(),
        },
    ensures
        r.deep_view() == ordered(
            store_rows(*store).filter(|row: Row| selection.takes(row)),
        ),
        strictly_sorted::<Tuple>(r.deep_view()),
        forall|row: Row| #[trigger]
            r.deep_view().contains(row) == (store_rows(*store).contains(row) && selection.takes(
                row,
            )),
{
    let all = views(store);
    let ghost rows = all.deep_view();
    let mut out: Vec<TupleInIter<'a>> = Vec::new();
    let mut i: usize = 0;
    while i < all.len()
        invariant
            i <= all@.len(),
            rows == all.deep_view(),
            strictly_sorted::<Tuple>(rows),
            strictly_sorted::<Tuple>(out.deep_view()),
            forall|row: Row| #[trigger]
                out.deep_view().contains(row) == (rows.take(i as int).contains(row)
                    && selection.takes(row)),
        decreases all.len() - i,
    {
        let v = all[i];
        let ghost row = rows[i as int];
        let ghost prev = out.deep_view();
        proof {
            assert(rows.len() == all@.len());
            lemma_take_step(rows, i as int);
        }
        let keep = selection.wants(&v);
        if keep {
            out.push(v);
            proof {
                assert forall|j: int| 0 <= j < prev.len() implies rows.take(i as int).contains(
                    #[trigger] prev[j],
                ) by {
                    assert(prev.contains(prev[j]));
                }
                lemma_push_next(rows, i as int, prev);
                assert(out.deep_view() =~= prev.push(row));
            }
        }
        proof {
            assert forall|q: Row| #[trigger]
                out.deep_view().contains(q) == (rows.take(i + 1).contains(q) && selection.takes(
                    q,
                )) by {
                assert(rows.take(i + 1).to_set().contains(q) == rows.take(i as int).to_set().insert(
                    row,
                ).contains(q));
                assert(prev.contains(q) == (rows.take(i as int).contains(q) && selection.takes(q)));
                if keep {
                    assert(out.deep_view().to_set().contains(q) == prev.to_set().insert(
                        row,
                    ).contains(q));
                }
            }
        }
        i = i + 1;
    }
    proof {
        assert(rows.take(i as int) =~= rows);
        let want = store_rows(*store).filter(|row: Row| selection.takes(row));
        assert forall|row: Row| #[trigger]
            out.deep_view().contains(row) == (store_rows(*store).contains(row)
                && selection.takes(row)) by {
            assert(rows.to_set().contains(row) == store_rows(*store).contains(row));
        }
        assert(out.deep_view().to_set() =~= want);
        lemma_ordered(out.deep_view());
    }
    out
}

impl EpochStore {
    /// An output that can be merged into this store, if it is of its kind.
    pub open spec fn fits(&self, out: TempStore) -> bool {
        match out {
            TempStore::Normal(o) => o.wf(),
            TempStore::MeetAggr(o) => o.wf() && (self.total is MeetAggr ==> same_head(
                self.total->MeetAggr_0,
                o,
            )),
        }
    }

    /// What merging an output does to the total and the delta.
    pub open spec fn merged(before: EpochStore, out: TempStore, after: EpochStore) -> bool {
        &&& after.arity == before.arity
        &&& match (before.total, out, after.total, after.delta) {
            (
                TempStore::Normal(t),
                TempStore::Normal(o),
                TempStore::Normal(t2),
                TempStore::Normal(d2),
            ) => {
                &&& t2.rows() == t.rows().union(o.rows())
                &&& t2.flags() == o.flags().union_prefer_right(t.flags())
                &&& d2.rows() == o.rows().difference(t.rows())
                &&& d2.flags() == o.flags().restrict(d2.rows())
            },
            (
                TempStore::MeetAggr(t),
                TempStore::MeetAggr(o),
                TempStore::MeetAggr(t2),
                TempStore::MeetAggr(d2),
            ) => {
                &&& same_head(t, t2)
                &&& t2.groups() == merged_groups(t.meets@, t.groups(), o.groups())
                &&& d2.groups() == delta_groups(t.meets@, t.groups(), o.groups())
            },
            _ => false,
        }
    }

    /// The tuples of the delta in admission order: by tuple, or by group key.
    pub open spec fn admissions(&self) -> Seq<Row> {
        match self.delta {
            TempStore::Normal(d) => d.inner.keys.deep_view(),
            TempStore::MeetAggr(d) => rows_by_key(
                d.layout@,
                d.by_group.keys.deep_view(),
                d.groups(),
            ),
        }
    }

    /// Merge an epoch's output into the total. What it adds or changes becomes
    /// the delta, and is shown to the sink in admission order. An output of
    /// another kind, or one whose values cannot be folded, is refused and
    /// changes nothing.
    pub fn merge_in<S: AdmissionSink>(&mut self, out: TempStore, sink: &mut S) -> (r: Result<
        Admitted,
        MergeError,
    >)
        requires
            old(self).wf(),
            old(self).fits(out),
        ensures
            final(self).wf(),
            match r {
                Ok(n) => {
                    &&& Self::merged(*old(self), out, *final(self))
                    &&& n.0 == final(self).admissions().len()
                    &&& final(sink).seen() == S::seeing(
                        old(sink).seen(),
                        final(self).admissions(),
                    )
                },
                Err(MergeError::KindMismatch) => {
                    &&& (old(self).total is Normal) != (out is Normal)
                    &&& *final(self) == *old(self)
                    &&& final(sink).seen() == old(sink).seen()
                },
                Err(MergeError::Untyped(e)) => {
                    &&& old(self).total is MeetAggr
                    &&& out is MeetAggr
                    &&& exists|k: Row| #[trigger]
                        first_unmergeable(
                            old(self).total->MeetAggr_0.meets@,
                            old(self).total->MeetAggr_0.groups(),
                            out->MeetAggr_0.groups(),
                            k,
                            e,
                        )
                    &&& *final(self) == *old(self)
                    &&& final(sink).seen() == old(sink).seen()
                },
            },
    {
        match out {
            TempStore::Normal(o) => match &mut self.total {
                TempStore::Normal(t) => {
                    let delta = merge_normal(t, &o, sink);
                    let n: usize = delta.inner.keys.len();
                    self.delta = TempStore::Normal(delta);
                    Ok(Admitted(n))
                },
                TempStore::MeetAggr(_) => Err(MergeError::KindMismatch),
            },
            TempStore::MeetAggr(o) => match &mut self.total {
                TempStore::Normal(_) => Err(MergeError::KindMismatch),
                TempStore::MeetAggr(t) => {
                    match check_mergeable(t, &o) {
                        Ok(_) => {},
                        Err(e) => {
                            return Err(MergeError::Untyped(e));
                        },
                    }
                    let delta = merge_meet(t, &o, sink);
                    let n: usize = delta.by_group.keys.len();
                    self.delta = TempStore::MeetAggr(delta);
                    Ok(Admitted(n))
                },
            },
        }
    }

    /// Whether the last merge added or changed anything.
    pub fn has_delta(&self) -> (r: bool)
        requires
            self.wf(),
        ensures
            r == (self.delta_rows() != Set::<Row>::empty()),
    {
        match &self.delta {
            TempStore::Normal(d) => {
                let r = d.inner.keys.len() > 0;
                proof {
                    let ks = d.inner.keys.deep_view();
                    if r {
                        assert(ks.contains(ks[0]));
                        assert(d.rows().contains(ks[0]));
                    } else {
                        assert(d.rows() =~= Set::<Row>::empty());
                    }
                }
                r
            },
            TempStore::MeetAggr(d) => {
                let r = d.by_group.keys.len() > 0;
                proof {
                    lemma_group_rows_by_key(*d);
                    let rows = rows_by_key(d.layout@, d.by_group.keys.deep_view(), d.groups());
                    if r {
                        assert(rows.contains(rows[0]));
                        assert(rows.to_set().contains(rows[0]));
                    } else {
                        assert(rows.to_set() =~= Set::<Row>::empty());
                    }
                }
                r
            },
        }
    }

    /// Whether a tuple is in the total; for a meet store, whether its group is.
    pub open spec fn holds(&self, row: Row) -> bool {
        match self.total {
            TempStore::Normal(t) => t.rows().contains(row),
            TempStore::MeetAggr(t) => t.groups().contains_key(
                crate::temp_store::project(row, t.layout@.key_positions),
            ),
        }
    }

    pub fn contains(&self, row: &Tuple) -> (r: bool)
        requires
            self.wf(),
            row@.len() == self.arity,
        ensures
            r == self.holds(row.deep_view()),
    {
        match &self.total {
            TempStore::Normal(t) => t.contains(row),
            TempStore::MeetAggr(t) => t.contains(row),
        }
    }

    /// Every tuple of the total, in tuple order.
    pub fn all_iter(&self) -> (r: Vec<TupleInIter<'_>>)
        requires
            self.wf(),
        ensures
            r.deep_view() == ordered(self.rows()),
            strictly_sorted::<Tuple>(r.deep_view()),
            r.deep_view().to_set() == self.rows(),
    {
        let r = views(&self.total);
        proof {
            lemma_ordered(r.deep_view());
        }
        r
    }

    /// Every tuple of the delta, in tuple order.
    pub fn delta_all_iter(&self) -> (r: Vec<TupleInIter<'_>>)
        requires
            self.wf(),
        ensures
            r.deep_view() == ordered(self.delta_rows()),
            strictly_sorted::<Tuple>(r.deep_view()),
            r.deep_view().to_set() == self.delta_rows(),
    {
        let r = views(&self.delta);
        proof {
            lemma_ordered(r.deep_view());
        }
        r
    }

    /// The tuples of the total that begin with a prefix, in tuple order.
    pub fn prefix_iter(&self, prefix: &Tuple) -> (r: Vec<TupleInIter<'_>>)
        requires
            self.wf(),
        ensures
            r.deep_view() == ordered(
                self.rows().filter(|row: Row| starts_with(row, prefix.deep_view())),
            ),
            strictly_sorted::<Tuple>(r.deep_view()),
            forall|row: Row| #[trigger]
                r.deep_view().contains(row) == (self.rows().contains(row) && starts_with(
                    row,
                    prefix.deep_view(),
                )),
    {
        let r = select(&self.total, Selection::Prefix(prefix));
        proof {
            assert(r.deep_view().to_set() =~= self.rows().filter(
                |row: Row| starts_with(row, prefix.deep_view()),
            ));
            lemma_ordered(r.deep_view());
        }
        r
    }

    /// The tuples of the delta that begin with a prefix, in tuple order.
    pub fn delta_prefix_iter(&self, prefix: &Tuple) -> (r: Vec<TupleInIter<'_>>)
        requires
            self.wf(),
        ensures
            r.deep_view() == ordered(
                self.delta_rows().filter(|row: Row| starts_with(row, prefix.deep_view())),
            ),
            strictly_sorted::<Tuple>(r.deep_view()),
            forall|row: Row| #[trigger]
                r.deep_view().contains(row) == (self.delta_rows().contains(row) && starts_with(
                    row,
                    prefix.deep_view(),
                )),
    {
        let r = select(&self.delta, Selection::Prefix(prefix));
        proof {
            assert(r.deep_view().to_set() =~= self.delta_rows().filter(
                |row: Row| starts_with(row, prefix.deep_view()),
            ));
            lemma_ordered(r.deep_view());
        }
        r
    }

    /// The tuples of the total between two bounds, in tuple order.
    pub fn range_iter(&self, lower: &Tuple, upper: &Tuple, inclusive: bool) -> (r: Vec<
        TupleInIter<'_>,
    >)
        requires
            self.wf(),
        ensures
            r.deep_view() == ordered(
                self.rows().filter(
                    |row: Row| in_range(row, lower.deep_view(), upper.deep_view(), inclusive),
                ),
            ),
            strictly_sorted::<Tuple>(r.deep_view()),
            forall|row: Row| #[trigger]
                r.deep_view().contains(row) == (self.rows().contains(row) && in_range(
                    row,
                    lower.deep_view(),
                    upper.deep_view(),
                    inclusive,
                )),
    {
        let r = select(&self.total, Selection::Range { lower, upper, inclusive });
        proof {
            assert(r.deep_view().to_set() =~= self.rows().filter(
                |row: Row| in_range(row, lower.deep_view(), upper.deep_view(), inclusive),
            ));
            lemma_ordered(r.deep_view());
        }
        r
    }

    /// The tuples of the delta between two bounds, in tuple order.
    pub fn delta_range_iter(&self, lower: &Tuple, upper: &Tuple, inclusive: bool) -> (r: Vec<
        TupleInIter<'_>,
    >)
        requires
            self.wf(),
        ensures
            r.deep_view() == ordered(
                self.delta_rows().filter(
                    |row: Row| in_range(row, lower.deep_view(), upper.deep_view(), inclusive),
                ),
            ),
            strictly_sorted::<Tuple>(r.deep_view()),
            forall|row: Row| #[trigger]
                r.deep_view().contains(row) == (self.delta_rows().contains(row) && in_range(
                    row,
                    lower.deep_view(),
                    upper.deep_view(),
                    inclusive,
                )),
    {
        let r = select(&self.delta, Selection::Range { lower, upper, inclusive });
        proof {
            assert(r.deep_view().to_set() =~= self.delta_rows().filter(
                |row: Row| in_range(row, lower.deep_view(), upper.deep_view(), inclusive),
            ));
            lemma_ordered(r.deep_view());
        }
        r
    }

    /// The tuples that are returned early: those not flagged to be skipped.
    pub open spec fn returned(&self) -> Set<Row> {
        match self.total {
            TempStore::Normal(t) => t.rows().filter(|row: Row| !t.flags()[row]),
            TempStore::MeetAggr(_) => self.rows(),
        }
    }

    pub fn early_returned_iter(&self) -> (r: Vec<TupleInIter<'_>>)
        requires
            self.wf(),
        ensures
            r.deep_view() == ordered(self.returned()),
    {
        let all = views(&self.total);
        let ghost rows = all.deep_view();
        let mut out: Vec<TupleInIter<'_>> = Vec::new();
        let mut i: usize = 0;
        while i < all.len()
            invariant
                i <= all@.len(),
                rows == all.deep_view(),
                strictly_sorted::<Tuple>(rows),
                strictly_sorted::<Tuple>(out.deep_view()),
                rows.to_set() == self.rows(),
                match self.total {
                    TempStore::Normal(s) => forall|j: int|
                        0 <= j < all@.len() ==> (#[trigger] all@[j]).skip
                            == s.flags()[all@[j].deep_view()],
                    TempStore::MeetAggr(_) => forall|j: int|
                        0 <= j < all@.len() ==> !(#[trigger] all@[j]).skip,
                },
                forall|row: Row| #[trigger]
                    out.deep_view().contains(row) == (rows.take(i as int).contains(row)
                        && self.returned().contains(row)),
            decreases all.len() - i,
        {
            let v = all[i];
            let ghost row = rows[i as int];
            let ghost prev = out.deep_view();
            proof {
                lemma_take_step(rows, i as int);
                assert(rows.contains(row));
                assert(rows.to_set().contains(row));
                assert(all@[i as int].deep_view() == row);
                assert(self.returned().contains(row) == !v.skip);
            }
            if !v.should_skip() {
                out.push(v);
                proof {
                    assert forall|j: int|
                        0 <= j < prev.len() implies rows.take(i as int).contains(
                        #[trigger] prev[j],
                    ) by {
                        assert(prev.contains(prev[j]));
                    }
                    lemma_push_next(rows, i as int, prev);
                    assert(out.deep_view() =~= prev.push(row));
                }
            }
            proof {
                assert forall|q: Row| #[trigger]
                    out.deep_view().contains(q) == (rows.take(i + 1).contains(q)
                        && self.returned().contains(q)) by {
                    assert(rows.take(i + 1).to_set().contains(q) == rows.take(
                        i as int,
                    ).to_set().insert(row).contains(q));
                    assert(prev.contains(q) == (rows.take(i as int).contains(q)
                        && self.returned().contains(q)));
                    if !v.skip {
                        assert(out.deep_view().to_set().contains(q) == prev.to_set().insert(
                            row,
                        ).contains(q));
                    }
                }
            }
            i = i + 1;
        }
        proof {
            assert(rows.take(i as int) =~= rows);
            assert forall|row: Row| out.deep_view().to_set().contains(row)
                == self.returned().contains(row) by {
                assert(rows.to_set().contains(row) == self.rows().contains(row));
                assert(out.deep_view().contains(row) == (rows.contains(row)
                    && self.returned().contains(row)));
            }
            assert(out.deep_view().to_set() =~= self.returned());
            lemma_ordered(out.deep_view());
        }
        out
    }
}

/// Merging keeps the groups foldable.
proof fn lemma_merge_typed(ops: Seq<Aggregation>, total: Map<Row, Row>, out: Map<Row, Row>)
    requires
        typed_groups(ops, total),
        typed_groups(ops, out),
    ensures
        mergeable(ops, total, out),
        typed_groups(ops, merged_groups(ops, total, out)),
{
    assert forall|k: Row| #[trigger]
        out.contains_key(k) && total.contains_key(k) implies meet_rows(ops, total[k], out[k])
        is Some by {
        lemma_meet_rows_typed(ops, total[k], out[k]);
    }
    let m = merged_groups(ops, total, out);
    assert forall|k: Row| #[trigger] m.contains_key(k) implies typed_row(ops, m[k]) by {
        if total.contains_key(k) && out.contains_key(k) {
            lemma_meet_rows_typed(ops, total[k], out[k]);
        }
    }
}

/// Merging an output a second time changes nothing: its delta is empty.
pub proof fn law_remerge_is_fixpoint(
    ops: Seq<Aggregation>,
    total: Map<Row, Row>,
    out: Map<Row, Row>,
)
    requires
        typed_groups(ops, total),
        typed_groups(ops, out),
    ensures
        ({
            let once = merged_groups(ops, total, out);
            &&& merged_groups(ops, once, out) == once
            &&& delta_groups(ops, once, out) == Map::<Row, Row>::empty()
        }),
{
    let once = merged_groups(ops, total, out);
    lemma_merge_typed(ops, total, out);
    lemma_merge_typed(ops, once, out);
    assert forall|k: Row| out.contains_key(k) implies meet_rows(ops, once[k], out[k]) == Some(
        once[k],
    ) by {
        if total.contains_key(k) {
            lemma_meet_rows_typed(ops, total[k], out[k]);
            lemma_meet_rows_associative(ops, total[k], out[k], out[k]);
            lemma_meet_rows_idempotent(ops, out[k]);
        } else {
            lemma_meet_rows_idempotent(ops, out[k]);
        }
    }
    assert(merged_groups(ops, once, out) =~= once);
    assert(delta_groups(ops, once, out) =~= Map::<Row, Row>::empty());
}

/// A first output is all delta, and an empty output leaves none.
pub proof fn law_first_and_empty_epochs(ops: Seq<Aggregation>, groups: Map<Row, Row>)
    ensures
        merged_groups(ops, Map::empty(), groups) == groups,
        delta_groups(ops, Map::empty(), groups) == groups,
        merged_groups(ops, groups, Map::empty()) == groups,
        delta_groups(ops, groups, Map::empty()) == Map::<Row, Row>::empty(),
{
    assert(merged_groups(ops, Map::empty(), groups) =~= groups);
    assert(delta_groups(ops, Map::empty(), groups) =~= groups);
    assert(merged_groups(ops, groups, Map::empty()) =~= groups);
    assert(delta_groups(ops, groups, Map::empty()) =~= Map::<Row, Row>::empty());
}

/// The delta is exactly what the merge changed: a group outside it is as it
/// was, and a group inside it is new or has other values.
pub proof fn law_delta_is_the_change(
    ops: Seq<Aggregation>,
    total: Map<Row, Row>,
    out: Map<Row, Row>,
    key: Row,
)
    requires
        mergeable(ops, total, out),
    ensures
        ({
            let after = merged_groups(ops, total, out);
            let delta = delta_groups(ops, total, out);
            &&& delta.contains_key(key) == (after.contains_key(key) && (!total.contains_key(key)
                || after[key] != total[key]))
            &&& delta.contains_key(key) ==> delta[key] == after[key]
        }),
{
    if out.contains_key(key) && total.contains_key(key) {
        assert(meet_rows(ops, total[key], out[key]) is Some);
    }
}

/// The order in which two outputs are merged does not matter to the total.
pub proof fn law_merges_commute(
    ops: Seq<Aggregation>,
    total: Map<Row, Row>,
    a: Map<Row, Row>,
    b: Map<Row, Row>,
)
    requires
        typed_groups(ops, total),
        typed_groups(ops, a),
        typed_groups(ops, b),
    ensures
        merged_groups(ops, merged_groups(ops, total, a), b) == merged_groups(
            ops,
            merged_groups(ops, total, b),
            a,
        ),
{
    let ta = merged_groups(ops, total, a);
    let tb = merged_groups(ops, total, b);
    let x = merged_groups(ops, ta, b);
    let y = merged_groups(ops, tb, a);
    assert forall|k: Row| x.contains_key(k) implies x[k] == y[k] by {
        if a.contains_key(k) && b.contains_key(k) {
            lemma_meet_rows_commutative(ops, a[k], b[k]);
            if total.contains_key(k) {
                lemma_meet_rows_associative(ops, total[k], a[k], b[k]);
                lemma_meet_rows_associative(ops, total[k], b[k], a[k]);
            }
        }
    }
    assert(x =~= y);
}

} // verus!
