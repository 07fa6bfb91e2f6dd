//! The stores that hold derived tuples during evaluation: plain sets of
//! tuples, and groups folded through meet aggregations.

use vstd::prelude::*;
use vstd::slice::slice_subrange;
use crate::aggr::{
    law_meet_associative, law_meet_commutative, law_meet_idempotent, lemma_meet_typed, meet,
    meet_values, typed, AggrTypeError, Aggregation,
};
use crate::order::{
    lemma_map_of_at, lemma_sorted_no_duplicates, place_of, OrderedMap, OrderedSet, Rank,
};
use crate::value::{rank_rows, row_rank, DataValue, Row, Tuple};

verus! {

/// A set of tuples, each with a flag that keeps it out of the returned rows:
/// such a tuple takes part in joins, but was derived past an entry limit.
#[derive(Debug, PartialEq, Eq)]
pub struct RegularTempStore {
    pub inner: OrderedMap<Tuple, bool>,
}

impl RegularTempStore {
    pub open spec fn wf(&self) -> bool {
        self.inner.wf()
    }

    /// The tuples of the store.
    pub open spec fn rows(&self) -> Set<Row> {
        self.inner.keys.deep_view().to_set()
    }

    /// Each tuple with its skip flag.
    pub open spec fn flags(&self) -> Map<Row, bool> {
        self.inner@
    }

    pub fn new() -> (r: Self)
        ensures
            r.wf(),
            r.rows() == Set::<Row>::empty(),
            r.flags() == Map::<Row, bool>::empty(),
    {
        let r = RegularTempStore { inner: OrderedMap::new() };
        assert(r.rows() =~= Set::<Row>::empty());
        r
    }

    /// The store as one epoch's output.
    pub fn wrap(self) -> (r: TempStore)
        ensures
            r == TempStore::Normal(self),
    {
        TempStore::Normal(self)
    }

    /// Whether a tuple is in the store.
    pub fn contains(&self, key: &Tuple) -> (r: bool)
        requires
            self.wf(),
        ensures
            r == self.rows().contains(key.deep_view()),
    {
        self.inner.contains_key(key)
    }

    /// The number of distinct tuples.
    pub fn len(&self) -> (r: usize)
        requires
            self.wf(),
        ensures
            r == self.rows().len(),
    {
        proof {
            assert(self.inner@.dom() =~= self.rows());
        }
        self.inner.len()
    }

    /// Add a tuple to the store.
    pub fn put(&mut self, tuple: Tuple)
        requires
            old(self).wf(),
        ensures
            final(self).wf(),
            final(self).rows() == old(self).rows().insert(tuple.deep_view()),
            final(self).flags() == old(self).flags().insert(tuple.deep_view(), false),
    {
        self.inner.insert(tuple, false);
    }

    /// Add a tuple that is kept out of the returned rows.
    pub fn put_with_skip(&mut self, tuple: Tuple)
        requires
            old(self).wf(),
        ensures
            final(self).wf(),
            final(self).rows() == old(self).rows().insert(tuple.deep_view()),
            final(self).flags() == old(self).flags().insert(tuple.deep_view(), true),
    {
        self.inner.insert(tuple, true);
    }
}

impl Default for RegularTempStore {
    fn default() -> (r: Self)
        ensures
            r.wf(),
            r.rows() == Set::<Row>::empty(),
            r.flags() == Map::<Row, bool>::empty(),
    {
        RegularTempStore::new()
    }
}

/// Where the grouping columns and the meet columns of a rule head sit: two
/// increasing lists of positions that together are all positions.
#[derive(Debug, PartialEq, Eq)]
pub struct MeetLayout {
    pub key_positions: Vec<usize>,
    pub val_positions: Vec<usize>,
    pub arity: usize,
}

/// The values of a row at the given positions.
pub open spec fn project(row: Row, positions: Seq<usize>) -> Row {
    Seq::new(positions.len(), |i: int| row[positions[i] as int])
}

pub open spec fn increasing(ps: Seq<usize>) -> bool {
    forall|i: int, j: int| 0 <= i < j < ps.len() ==> ps[i] < ps[j]
}

/// The positions `[from, from + n)`.
pub open spec fn run_of(from: int, n: int) -> Seq<usize> {
    Seq::new(n as nat, |i: int| (from + i) as usize)
}

/// The model of a [`MeetLayout`].
pub struct Layout {
    pub key_positions: Seq<usize>,
    pub val_positions: Seq<usize>,
    pub arity: usize,
}

impl View for MeetLayout {
    type V = Layout;

    open spec fn view(&self) -> Layout {
        Layout {
            key_positions: self.key_positions@,
            val_positions: self.val_positions@,
            arity: self.arity,
        }
    }
}

impl Layout {
    pub open spec fn wf(self) -> bool {
        &&& increasing(self.key_positions)
        &&& increasing(self.val_positions)
        &&& forall|p: usize| #[trigger]
            self.key_positions.contains(p) ==> p < self.arity && !self.val_positions.contains(p)
        &&& forall|p: usize| #[trigger]
            self.val_positions.contains(p) ==> p < self.arity && !self.key_positions.contains(p)
        &&& forall|p: usize|
            p < self.arity ==> #[trigger] self.key_positions.contains(p)
                || self.val_positions.contains(p)
        &&& self.key_positions.len() + self.val_positions.len() == self.arity
    }

    /// The layout of a head signature: unaggregated positions group,
    /// aggregated ones fold.
    pub open spec fn lays_out(self, signature: Seq<Option<Aggregation>>) -> bool {
        &&& self.arity == signature.len()
        &&& forall|p: usize|
            p < signature.len() ==> #[trigger] self.key_positions.contains(p)
                == signature[p as int] is None
    }

    /// Aggregated positions form a suffix of the head.
    pub open spec fn suffix(self) -> bool {
        self.key_positions == run_of(0, self.key_positions.len() as int)
    }

    /// The head tuple of a group key and its folded values.
    pub open spec fn interleaved(self, key: Row, vals: Row) -> Row {
        Seq::new(
            self.arity as nat,
            |p: int|
                if self.key_positions.contains(p as usize) {
                    key[self.key_positions.index_of(p as usize)]
                } else {
                    vals[self.val_positions.index_of(p as usize)]
                },
        )
    }
}

impl MeetLayout {
    /// The layout of a head signature.
    pub fn from_signature(aggrs: &Vec<Option<Aggregation>>) -> (r: Self)
        ensures
            r@.wf(),
            r@.lays_out(aggrs@),
    {
        let mut key_positions: Vec<usize> = Vec::new();
        let mut val_positions: Vec<usize> = Vec::new();
        let mut i: usize = 0;
        while i < aggrs.len()
            invariant
                i <= aggrs@.len(),
                increasing(key_positions@),
                increasing(val_positions@),
                forall|j: int| 0 <= j < key_positions@.len() ==> #[trigger] key_positions@[j] < i,
                forall|j: int| 0 <= j < val_positions@.len() ==> #[trigger] val_positions@[j] < i,
                forall|p: usize|
                    p < i ==> #[trigger] key_positions@.contains(p) == aggrs@[p as int] is None,
                forall|p: usize|
                    p < i ==> #[trigger] val_positions@.contains(p) == aggrs@[p as int] is Some,
                key_positions@.len() + val_positions@.len() == i,
            decreases aggrs.len() - i,
        {
            let ghost ks = key_positions@;
            let ghost vs = val_positions@;
            if aggrs[i].is_none() {
                key_positions.push(i);
            } else {
                val_positions.push(i);
            }
            proof {
                assert forall|p: usize|
                    p < i + 1 implies #[trigger] key_positions@.contains(p) == aggrs@[p as int]
                    is None by {
                    lemma_push_contains(ks, i, p);
                }
                assert forall|p: usize|
                    p < i + 1 implies #[trigger] val_positions@.contains(p) == aggrs@[p as int]
                    is Some by {
                    lemma_push_contains(vs, i, p);
                }
            }
            i = i + 1;
        }
        MeetLayout { key_positions, val_positions, arity: aggrs.len() }
    }

    /// The grouping key of a head tuple.
    pub fn project_key(&self, row: &Tuple) -> (r: Tuple)
        requires
            self@.wf(),
            row@.len() == self.arity,
        ensures
            r.deep_view() == project(row.deep_view(), self.key_positions@),
    {
        proof {
            assert forall|i: int| 0 <= i < self.key_positions@.len() implies (
            #[trigger] self.key_positions@[i]) < row@.len() by {
                assert(self.key_positions@.contains(self.key_positions@[i]));
            }
        }
        pick(row, &self.key_positions)
    }

    /// The meet values of a head tuple.
    pub fn project_vals(&self, row: &Tuple) -> (r: Tuple)
        requires
            self@.wf(),
            row@.len() == self.arity,
        ensures
            r.deep_view() == project(row.deep_view(), self.val_positions@),
    {
        proof {
            assert forall|i: int| 0 <= i < self.val_positions@.len() implies (
            #[trigger] self.val_positions@[i]) < row@.len() by {
                assert(self.val_positions@.contains(self.val_positions@[i]));
            }
        }
        pick(row, &self.val_positions)
    }

    /// Whether the aggregated positions form a suffix of the head.
    pub fn is_suffix(&self) -> (r: bool)
        ensures
            r == self@.suffix(),
    {
        let mut i: usize = 0;
        while i < self.key_positions.len()
            invariant
                i <= self.key_positions@.len(),
                forall|j: int| 0 <= j < i ==> #[trigger] self.key_positions@[j] == j,
            decreases self.key_positions.len() - i,
        {
            if self.key_positions[i] != i {
                proof {
                    let run = run_of(0, self.key_positions@.len() as int);
                    assert(run[i as int] == i);
                }
                return false;
            }
            i = i + 1;
        }
        assert(self.key_positions@ =~= run_of(0, self.key_positions@.len() as int));
        true
    }

    /// The grouping key of a head tuple, read as a prefix where it is one.
    pub fn borrow_key(&self, row: &Tuple) -> (r: Tuple)
        requires
            self@.wf(),
            row@.len() == self.arity,
        ensures
            r.deep_view() == project(row.deep_view(), self.key_positions@),
    {
        if self.is_suffix() {
            let r = crate::history::row_prefix(row, self.key_positions.len());
            assert(r.deep_view() =~= project(row.deep_view(), self.key_positions@));
            r
        } else {
            self.project_key(row)
        }
    }

    /// Rebuild the head tuple from a group key and its folded values.
    pub fn interleave(&self, key: &Tuple, vals: &Tuple) -> (r: Tuple)
        requires
            self@.wf(),
            key@.len() == self.key_positions@.len(),
            vals@.len() == self.val_positions@.len(),
        ensures
            r.deep_view() == self@.interleaved(key.deep_view(), vals.deep_view()),
    {
        let mut row: Tuple = Vec::new();
        let ghost k = key.deep_view();
        let ghost v = vals.deep_view();
        let mut ki: usize = 0;
        let mut vi: usize = 0;
        let mut p: usize = 0;
        while p < self.arity
            invariant
                p <= self.arity,
                self@.wf(),
                k == key.deep_view(),
                v == vals.deep_view(),
                key@.len() == self.key_positions@.len(),
                vals@.len() == self.val_positions@.len(),
                ki <= self.key_positions@.len(),
                vi <= self.val_positions@.len(),
                forall|j: int| 0 <= j < ki ==> #[trigger] self.key_positions@[j] < p,
                forall|j: int|
                    ki <= j < self.key_positions@.len() ==> #[trigger] self.key_positions@[j] >= p,
                forall|j: int| 0 <= j < vi ==> #[trigger] self.val_positions@[j] < p,
                forall|j: int|
                    vi <= j < self.val_positions@.len() ==> #[trigger] self.val_positions@[j] >= p,
                row.deep_view() == self@.interleaved(k, v).take(p as int),
            decreases self.arity - p,
        {
            let ghost prev = row.deep_view();
            let grouped = ki < self.key_positions.len() && self.key_positions[ki] == p;
            proof {
                assert(grouped == self.key_positions@.contains(p)) by {
                    if self.key_positions@.contains(p) {
                        let j = choose|j: int|
                            0 <= j < self.key_positions@.len() && self.key_positions@[j] == p;
                        assert(j >= ki);
                        if j > ki {
                            assert(self.key_positions@[ki as int] < self.key_positions@[j]);
                        }
                    }
                    if grouped {
                        assert(self.key_positions@[ki as int] == p);
                    }
                }
            }
            if grouped {
                let copy = key[ki].clone();
                row.push(copy);
                proof {
                    lemma_index_of(self.key_positions@, ki as int);
                    assert(row.deep_view() =~= prev.push(k[ki as int]));
                    assert(row.deep_view() =~= self@.interleaved(k, v).take(p + 1));
                    assert forall|j: int| ki < j < self.key_positions@.len() implies (
                    #[trigger] self.key_positions@[j]) >= p + 1 by {
                        assert(self.key_positions@[ki as int] < self.key_positions@[j]);
                    }
                    assert forall|j: int| vi <= j < self.val_positions@.len() implies (
                    #[trigger] self.val_positions@[j]) >= p + 1 by {
                        if self.val_positions@[j] == p {
                            assert(self.val_positions@.contains(p));
                        }
                    }
                }
                ki = ki + 1;
            } else {
                proof {
                    assert(self.val_positions@.contains(p));
                    let j = choose|j: int|
                        0 <= j < self.val_positions@.len() && self.val_positions@[j] == p;
                    assert(j >= vi);
                    if j > vi {
                        assert(self.val_positions@[vi as int] < self.val_positions@[j]);
                    }
                    assert(self.val_positions@[vi as int] == p);
                }
                let copy = vals[vi].clone();
                row.push(copy);
                proof {
                    lemma_index_of(self.val_positions@, vi as int);
                    assert(row.deep_view() =~= prev.push(v[vi as int]));
                    assert(row.deep_view() =~= self@.interleaved(k, v).take(p + 1));
                    assert forall|j: int| vi < j < self.val_positions@.len() implies (
                    #[trigger] self.val_positions@[j]) >= p + 1 by {
                        assert(self.val_positions@[vi as int] < self.val_positions@[j]);
                    }
                    assert forall|j: int| ki <= j < self.key_positions@.len() implies (
                    #[trigger] self.key_positions@[j]) >= p + 1 by {
                        if self.key_positions@[j] == p {
                            assert(self.key_positions@.contains(p));
                        }
                    }
                }
                vi = vi + 1;
            }
            p = p + 1;
        }
        assert(self@.interleaved(k, v).take(p as int) =~= self@.interleaved(k, v));
        row
    }
}

proof fn lemma_push_contains(s: Seq<usize>, x: usize, p: usize)
    ensures
        s.push(x).contains(p) == (s.contains(p) || p == x),
{
    if s.push(x).contains(p) {
        let k = choose|k: int| 0 <= k < s.push(x).len() && s.push(x)[k] == p;
        if k < s.len() {
            assert(s[k] == p);
        }
    }
    if s.contains(p) {
        let k = choose|k: int| 0 <= k < s.len() && s[k] == p;
        assert(s.push(x)[k] == p);
    }
    assert(s.push(x)[s.len() as int] == x);
}

proof fn lemma_index_of(ps: Seq<usize>, i: int)
    requires
        increasing(ps),
        0 <= i < ps.len(),
    ensures
        ps.contains(ps[i]),
        ps.index_of(ps[i]) == i,
{
    let j = ps.index_of(ps[i]);
    assert(ps.contains(ps[i]));
    assert(0 <= j < ps.len() && ps[j] == ps[i]);
    if j < i {
        assert(ps[j] < ps[i]);
    }
    if i < j {
        assert(ps[i] < ps[j]);
    }
}

/// The values of a row at the given positions.
pub fn pick(row: &Tuple, positions: &Vec<usize>) -> (r: Tuple)
    requires
        forall|i: int| 0 <= i < positions@.len() ==> (#[trigger] positions@[i]) < row@.len(),
    ensures
        r.deep_view() == project(row.deep_view(), positions@),
{
    let mut out: Tuple = Vec::new();
    let mut i: usize = 0;
    while i < positions.len()
        invariant
            i <= positions@.len(),
            forall|j: int| 0 <= j < positions@.len() ==> (#[trigger] positions@[j]) < row@.len(),
            out.deep_view() == project(row.deep_view(), positions@).take(i as int),
        decreases positions.len() - i,
    {
        let ghost prev = out.deep_view();
        let at: usize = positions[i];
        let copy = row[at].clone();
        out.push(copy);
        assert(out.deep_view() =~= prev.push(row.deep_view()[at as int]));
        assert(out.deep_view() =~= project(row.deep_view(), positions@).take(i + 1));
        i = i + 1;
    }
    assert(out.deep_view() =~= project(row.deep_view(), positions@));
    out
}

/// Interleaving the two projections of a head tuple gives the tuple back.
pub proof fn law_interleave_undoes_projections(layout: Layout, row: Row)
    requires
        layout.wf(),
        row.len() == layout.arity,
    ensures
        layout.interleaved(
            project(row, layout.key_positions),
            project(row, layout.val_positions),
        ) == row,
{
    let ks = layout.key_positions;
    let vs = layout.val_positions;
    let back = layout.interleaved(project(row, ks), project(row, vs));
    assert forall|p: int| 0 <= p < row.len() implies back[p] == row[p] by {
        let q = p as usize;
        assert(q < layout.arity);
        if ks.contains(q) {
            assert(ks[ks.index_of(q)] == q);
        } else {
            assert(vs.contains(q));
            assert(vs[vs.index_of(q)] == q);
        }
    }
    assert(back =~= row);
}

/// Projecting an interleaved tuple gives its key and its values back.
pub proof fn law_projections_undo_interleave(layout: Layout, key: Row, vals: Row)
    requires
        layout.wf(),
        key.len() == layout.key_positions.len(),
        vals.len() == layout.val_positions.len(),
    ensures
        project(layout.interleaved(key, vals), layout.key_positions) == key,
        project(layout.interleaved(key, vals), layout.val_positions) == vals,
{
    let ks = layout.key_positions;
    let vs = layout.val_positions;
    let row = layout.interleaved(key, vals);
    assert forall|i: int| 0 <= i < ks.len() implies project(row, ks)[i] == key[i] by {
        lemma_index_of(ks, i);
        assert(ks.contains(ks[i]));
    }
    assert forall|i: int| 0 <= i < vs.len() implies project(row, vs)[i] == vals[i] by {
        lemma_index_of(vs, i);
        assert(vs.contains(vs[i]));
    }
    assert(project(row, ks) =~= key);
    assert(project(row, vs) =~= vals);
}

/// In a suffix layout the head tuple is the key followed by the values.
pub proof fn law_suffix_is_concatenation(layout: Layout, key: Row, vals: Row)
    requires
        layout.wf(),
        layout.suffix(),
        key.len() == layout.key_positions.len(),
        vals.len() == layout.val_positions.len(),
    ensures
        layout.interleaved(key, vals) == key + vals,
{
    let ks = layout.key_positions;
    let vs = layout.val_positions;
    let n = ks.len() as int;
    let row = layout.interleaved(key, vals);
    assert forall|p: int| 0 <= p < layout.arity implies row[p] == (key + vals)[p] by {
        let q = p as usize;
        if p < n {
            assert(ks[p] == q);
            lemma_index_of(ks, p);
        } else {
            if ks.contains(q) {
                let j = choose|j: int| 0 <= j < ks.len() && ks[j] == q;
                assert(ks[j] == j);
            }
            lemma_suffix_values(layout, p - n);
            lemma_index_of(vs, p - n);
        }
    }
    assert(row =~= key + vals);
}

/// In a suffix layout the values sit at the positions after the key.
proof fn lemma_suffix_values(layout: Layout, i: int)
    requires
        layout.wf(),
        layout.suffix(),
        0 <= i < layout.val_positions.len(),
    ensures
        layout.val_positions[i] == layout.key_positions.len() + i,
    decreases i,
{
    let ks = layout.key_positions;
    let vs = layout.val_positions;
    let n = ks.len() as int;
    assert forall|j: int| 0 <= j < vs.len() implies vs[j] >= n by {
        assert(vs.contains(vs[j]));
        if vs[j] < n {
            assert(ks[vs[j] as int] == vs[j]);
            assert(ks.contains(vs[j]));
        }
    }
    if i > 0 {
        lemma_suffix_values(layout, i - 1);
    }
    let q = (n + i) as usize;
    assert(q < layout.arity);
    if ks.contains(q) {
        let j = choose|j: int| 0 <= j < ks.len() && ks[j] == q;
        assert(ks[j] == j);
    }
    assert(vs.contains(q));
    let j = choose|j: int| 0 <= j < vs.len() && vs[j] == q;
    if j < i {
        lemma_suffix_values(layout, j);
    }
    if j > i {
        assert(vs[i] < vs[j]);
        if i > 0 {
            assert(vs[i - 1] < vs[i]);
        }
    }
}

/// One epoch's worth of derived tuples for one rule.
#[derive(Debug)]
pub enum TempStore {
    Normal(RegularTempStore),
    MeetAggr(MeetAggrStore),
}

/// Groups of head tuples, each folded through the meet aggregations of the
/// head as tuples arrive.
#[derive(Debug)]
pub struct MeetAggrStore {
    /// Group key to folded meet values.
    pub by_group: OrderedMap<Tuple, Tuple>,
    /// The head tuples of the groups, in tuple order. Kept only where the
    /// layout is no suffix: there the order of the group keys is another.
    pub by_row: OrderedSet<Tuple>,
    /// The meet operators of the aggregated positions, in head order.
    pub meets: Vec<Aggregation>,
    pub layout: MeetLayout,
}

/// Folding values position by position; nothing where one cannot be folded.
pub open spec fn meet_rows(ops: Seq<Aggregation>, a: Row, b: Row) -> Option<Row> {
    if forall|i: int| 0 <= i < ops.len() ==> (#[trigger] meet(ops[i], a[i], b[i])) is Some {
        Some(Seq::new(ops.len(), |i: int| meet(ops[i], a[i], b[i])->Some_0))
    } else {
        None
    }
}

/// The error of the first position that cannot be folded.
pub open spec fn first_untyped(ops: Seq<Aggregation>, a: Row, b: Row, e: AggrTypeError) -> bool {
    exists|i: int|
        0 <= i < ops.len() && (#[trigger] meet(ops[i], a[i], b[i])) is None && e == (
        AggrTypeError { aggr: ops[i] }) && forall|j: int|
            0 <= j < i ==> (#[trigger] meet(ops[j], a[j], b[j])) is Some
}

/// Fold one row of values into another.
pub fn fold_vals(meets: &Vec<Aggregation>, vals: &Tuple, incoming: &Tuple) -> (r: Result<
    (Tuple, bool),
    AggrTypeError,
>)
    requires
        vals@.len() == meets@.len(),
        incoming@.len() == meets@.len(),
    ensures
        match r {
            Ok(vc) => {
                &&& meet_rows(meets@, vals.deep_view(), incoming.deep_view()) == Some(
                    vc.0.deep_view(),
                )
                &&& vc.1 == (vc.0.deep_view() != vals.deep_view())
            },
            Err(e) => {
                &&& meet_rows(meets@, vals.deep_view(), incoming.deep_view()) is None
                &&& first_untyped(meets@, vals.deep_view(), incoming.deep_view(), e)
            },
        },
{
    let ghost a = vals.deep_view();
    let ghost b = incoming.deep_view();
    let mut out: Tuple = Vec::new();
    let mut changed = false;
    let mut i: usize = 0;
    while i < meets.len()
        invariant
            i <= meets@.len(),
            vals@.len() == meets@.len(),
            incoming@.len() == meets@.len(),
            a == vals.deep_view(),
            b == incoming.deep_view(),
            out@.len() == i,
            forall|j: int|
                0 <= j < i ==> (#[trigger] meet(meets@[j], a[j], b[j])) == Some(
                    out.deep_view()[j],
                ),
            changed == exists|j: int| 0 <= j < i && #[trigger] out.deep_view()[j] != a[j],
        decreases meets.len() - i,
    {
        let ghost prev = out.deep_view();
        match meet_values(meets[i], &vals[i], &incoming[i]) {
            Ok(vc) => {
                let (v, moved) = vc;
                let ghost m = v.deep_view();
                out.push(v);
                proof {
                    assert(out.deep_view() =~= prev.push(m));
                    assert forall|j: int| 0 <= j < i + 1 implies (#[trigger] meet(
                        meets@[j],
                        a[j],
                        b[j],
                    )) == Some(out.deep_view()[j]) by {
                        if j < i {
                            assert(prev[j] == out.deep_view()[j]);
                        }
                    }
                    if changed {
                        let j = choose|j: int| 0 <= j < i && #[trigger] prev[j] != a[j];
                        assert(out.deep_view()[j] != a[j]);
                    }
                    if moved {
                        assert(out.deep_view()[i as int] != a[i as int]);
                    }
                    if exists|j: int| 0 <= j < i + 1 && #[trigger] out.deep_view()[j] != a[j] {
                        let j = choose|j: int|
                            0 <= j < i + 1 && #[trigger] out.deep_view()[j] != a[j];
                        if j < i {
                            assert(prev[j] != a[j]);
                        }
                    }
                }
                changed = changed || moved;
            },
            Err(e) => {
                assert(meet(meets@[i as int], a[i as int], b[i as int]) is None);
                return Err(e);
            },
        }
        i = i + 1;
    }
    proof {
        assert(meet_rows(meets@, a, b)->Some_0 =~= out.deep_view());
        if !changed {
            assert(out.deep_view() =~= a);
        }
    }
    Ok((out, changed))
}

/// Folding values position by position up to the first one that cannot be
/// folded; from there on the values stay.
pub open spec fn meet_rows_until(ops: Seq<Aggregation>, a: Row, b: Row) -> Row {
    Seq::new(
        a.len(),
        |i: int|
            if forall|j: int| 0 <= j <= i ==> (#[trigger] meet(ops[j], a[j], b[j])) is Some {
                meet(ops[i], a[i], b[i])->Some_0
            } else {
                a[i]
            },
    )
}

/// Fold one row of values into another up to the first position that cannot be
/// folded.
fn fold_until(meets: &Vec<Aggregation>, vals: &Tuple, incoming: &Tuple) -> (r: Tuple)
    requires
        vals@.len() == meets@.len(),
        incoming@.len() == meets@.len(),
    ensures
        r.deep_view() == meet_rows_until(meets@, vals.deep_view(), incoming.deep_view()),
{
    let ghost a = vals.deep_view();
    let ghost b = incoming.deep_view();
    let ghost want = meet_rows_until(meets@, a, b);
    let mut out: Tuple = Vec::new();
    let mut folding = true;
    let mut i: usize = 0;
    proof {
        assert(a.len() == vals@.len());
        assert(out.deep_view() =~= want.take(0));
    }
    while i < meets.len()
        invariant
            i <= meets@.len(),
            vals@.len() == meets@.len(),
            incoming@.len() == meets@.len(),
            a == vals.deep_view(),
            a.len() == vals@.len(),
            b == incoming.deep_view(),
            want == meet_rows_until(meets@, a, b),
            folding == forall|j: int|
                0 <= j < i ==> (#[trigger] meet(meets@[j], a[j], b[j])) is Some,
            out.deep_view() == want.take(i as int),
        decreases meets.len() - i,
    {
        let next = if folding {
            match meet_values(meets[i], &vals[i], &incoming[i]) {
                Ok(vc) => Some(vc),
                Err(_) => None,
            }
        } else {
            None
        };
        let ghost at = meet(meets@[i as int], a[i as int], b[i as int]);
        let ghost before = out.deep_view();
        let (v, on) = match next {
            Some(vc) => (vc.0, true),
            None => (vals[i].clone(), false),
        };
        let ghost m = v.deep_view();
        proof {
            assert(on == (folding && at is Some));
            assert(on == forall|j: int|
                0 <= j < i + 1 ==> (#[trigger] meet(meets@[j], a[j], b[j])) is Some);
            assert(m == want[i as int]);
        }
        folding = on;
        out.push(v);
        proof {
            assert(out.deep_view() =~= before.push(m));
            assert(want.take(i + 1) =~= want.take(i as int).push(want[i as int]));
        }
        i = i + 1;
    }
    proof {
        assert(want.take(i as int) =~= want);
    }
    out
}

/// The groups after folding a head tuple in: a new group takes the tuple's
/// values, an existing one folds them. Nothing if a value cannot be folded.
pub open spec fn groups_put(
    ops: Seq<Aggregation>,
    layout: Layout,
    groups: Map<Row, Row>,
    row: Row,
) -> Option<Map<Row, Row>> {
    let key = project(row, layout.key_positions);
    let vals = project(row, layout.val_positions);
    if groups.contains_key(key) {
        match meet_rows(ops, groups[key], vals) {
            Some(folded) => Some(groups.insert(key, folded)),
            None => None,
        }
    } else {
        Some(groups.insert(key, vals))
    }
}

/// The groups after a head tuple that cannot be folded into its group: what
/// comes before the first value that cannot be folded is folded.
pub open spec fn groups_put_until(
    ops: Seq<Aggregation>,
    layout: Layout,
    groups: Map<Row, Row>,
    row: Row,
) -> Map<Row, Row> {
    let key = project(row, layout.key_positions);
    let vals = project(row, layout.val_positions);
    groups.insert(key, meet_rows_until(ops, groups[key], vals))
}

/// The head tuples of groups.
pub open spec fn group_rows(layout: Layout, groups: Map<Row, Row>) -> Set<Row> {
    Set::new(
        |r: Row|
            exists|k: Row| #[trigger]
                groups.contains_key(k) && r == layout.interleaved(k, groups[k]),
    )
}

/// Every group key and every value row has the width the layout gives it.
pub open spec fn groups_fit(layout: Layout, groups: Map<Row, Row>) -> bool {
    forall|k: Row| #[trigger]
        groups.contains_key(k) ==> k.len() == layout.key_positions.len() && groups[k].len()
            == layout.val_positions.len()
}

/// The head tuples after a group's values are replaced.
pub proof fn lemma_rows_replace(layout: Layout, groups: Map<Row, Row>, key: Row, vals: Row)
    requires
        layout.wf(),
        groups_fit(layout, groups),
        key.len() == layout.key_positions.len(),
        vals.len() == layout.val_positions.len(),
    ensures
        groups_fit(layout, groups.insert(key, vals)),
        group_rows(layout, groups.insert(key, vals)) == (if groups.contains_key(key) {
            group_rows(layout, groups).remove(layout.interleaved(key, groups[key]))
        } else {
            group_rows(layout, groups)
        }).insert(layout.interleaved(key, vals)),
{
    let after = groups.insert(key, vals);
    let had = groups.contains_key(key);
    let gone = layout.interleaved(key, groups[key]);
    let fresh = layout.interleaved(key, vals);
    let expect = (if had {
        group_rows(layout, groups).remove(gone)
    } else {
        group_rows(layout, groups)
    }).insert(fresh);
    assert forall|r: Row| group_rows(layout, after).contains(r) == expect.contains(r) by {
        if group_rows(layout, after).contains(r) {
            let k = choose|k: Row| #[trigger]
                after.contains_key(k) && r == layout.interleaved(k, after[k]);
            if k != key {
                assert(groups.contains_key(k));
                if had && r == gone {
                    law_projections_undo_interleave(layout, k, groups[k]);
                    law_projections_undo_interleave(layout, key, groups[key]);
                }
            }
        }
        if expect.contains(r) {
            if r == fresh {
                assert(after.contains_key(key));
            } else {
                let k = choose|k: Row| #[trigger]
                    groups.contains_key(k) && r == layout.interleaved(k, groups[k]);
                assert(k != key);
                assert(after.contains_key(k));
            }
        }
    }
    assert(group_rows(layout, after) =~= expect);
}

/// A normal-only aggregation was given to a meet store.
#[derive(Clone, Copy, Debug, PartialEq, Eq, Structural)]
pub struct NotAMeet {
    pub aggr: Aggregation,
}

/// The aggregations of a head signature, in head order.
pub open spec fn aggregated(signature: Seq<Option<Aggregation>>) -> Seq<Aggregation> {
    signature.filter_map(|a: Option<Aggregation>| a)
}

impl MeetAggrStore {
    /// The groups and their folded values.
    pub open spec fn groups(&self) -> Map<Row, Row> {
        Map::new(
            |k: Row| self.by_group@.contains_key(k),
            |k: Row| self.by_group@[k].deep_view(),
        )
    }

    pub open spec fn wf(&self) -> bool {
        &&& self.by_group.wf()
        &&& self.by_row.wf()
        &&& self.layout@.wf()
        &&& self.meets@.len() == self.layout.val_positions@.len()
        &&& forall|i: int| 0 <= i < self.meets@.len() ==> (#[trigger] self.meets@[i]).meets()
        &&& groups_fit(self.layout@, self.groups())
        &&& self.by_row.deep_view() == (if self.layout@.suffix() {
            Set::empty()
        } else {
            group_rows(self.layout@, self.groups())
        })
    }

    /// A store for a head signature whose aggregations are all meets; the first
    /// one that is not is refused.
    pub fn new(aggrs: Vec<Option<Aggregation>>) -> (r: Result<Self, NotAMeet>)
        ensures
            match r {
                Ok(store) => {
                    &&& store.wf()
                    &&& store.layout@.lays_out(aggrs@)
                    &&& store.meets@ == aggregated(aggrs@)
                    &&& store.groups() == Map::<Row, Row>::empty()
                    &&& forall|i: int|
                        0 <= i < aggrs@.len() && (#[trigger] aggrs@[i]) is Some
                            ==> aggrs@[i]->Some_0.meets()
                },
                Err(e) => exists|i: int|
                    0 <= i < aggrs@.len() && #[trigger] aggrs@[i] == Some(e.aggr)
                        && !e.aggr.meets() && forall|j: int|
                        0 <= j < i && (#[trigger] aggrs@[j]) is Some ==> aggrs@[j]->Some_0.meets(),
            },
    {
        let layout = MeetLayout::from_signature(&aggrs);
        let mut meets: Vec<Aggregation> = Vec::new();
        let ghost sig = aggrs@;
        let ghost f = |a: Option<Aggregation>| a;
        let mut i: usize = 0;
        assert(sig.take(0) =~= Seq::<Option<Aggregation>>::empty());
        while i < aggrs.len()
            invariant
                i <= aggrs@.len(),
                sig == aggrs@,
                f == (|a: Option<Aggregation>| a),
                meets@ == aggregated(sig.take(i as int)),
                forall|j: int|
                    0 <= j < i && (#[trigger] aggrs@[j]) is Some ==> aggrs@[j]->Some_0.meets(),
                forall|j: int| 0 <= j < meets@.len() ==> (#[trigger] meets@[j]).meets(),
            decreases aggrs.len() - i,
        {
            proof {
                sig.lemma_filter_map_take_succ(f, i as int);
            }
            if let Some(aggr) = aggrs[i] {
                if !aggr.is_meet() {
                    return Err(NotAMeet { aggr });
                }
                let ghost prev = meets@;
                meets.push(aggr);
                assert(meets@ =~= prev + seq![aggr]);
            } else {
                assert(meets@ =~= meets@ + Seq::<Aggregation>::empty());
            }
            i = i + 1;
        }
        assert(sig.take(i as int) =~= sig);
        let store = MeetAggrStore {
            by_group: OrderedMap::new(),
            by_row: OrderedSet::new(),
            meets,
            layout,
        };
        proof {
            lemma_aggregated_len(sig, layout@);
            assert(store.groups() =~= Map::<Row, Row>::empty());
            assert(group_rows(layout@, store.groups()) =~= Set::<Row>::empty());
        }
        Ok(store)
    }

    /// The store as one epoch's output.
    pub fn wrap(self) -> (r: TempStore)
        ensures
            r == TempStore::MeetAggr(self),
    {
        TempStore::MeetAggr(self)
    }

    /// The number of groups.
    pub fn len(&self) -> (r: usize)
        requires
            self.wf(),
        ensures
            r == self.groups().dom().len(),
    {
        proof {
            assert(self.groups().dom() =~= self.by_group@.dom());
        }
        self.by_group.len()
    }

    pub fn is_empty(&self) -> (r: bool)
        requires
            self.wf(),
        ensures
            r == (self.groups() == Map::<Row, Row>::empty()),
    {
        let r = self.by_group.keys.len() == 0;
        proof {
            if r {
                assert(self.groups() =~= Map::<Row, Row>::empty());
            } else {
                let k = self.by_group.keys.deep_view()[0];
                assert(self.by_group.keys.deep_view().contains(k));
                assert(self.groups().contains_key(k));
            }
        }
        r
    }

    /// Whether the group of a head tuple is in the store.
    pub fn contains(&self, row: &Tuple) -> (r: bool)
        requires
            self.wf(),
            row@.len() == self.layout.arity,
        ensures
            r == self.groups().contains_key(project(row.deep_view(), self.layout.key_positions@)),
    {
        let key = self.layout.borrow_key(row);
        self.by_group.contains_key(&key)
    }

    /// Fold one head tuple into the store. True when the store changed: a new
    /// group, or a group whose folded values moved. A value that cannot be
    /// folded is an error; what came before it in the tuple is folded.
    pub fn meet_put(&mut self, tuple: &Tuple) -> (r: Result<bool, AggrTypeError>)
        requires
            old(self).wf(),
            tuple@.len() == old(self).layout.arity,
        ensures
            final(self).wf(),
            final(self).layout == old(self).layout,
            final(self).meets == old(self).meets,
            match r {
                Ok(changed) => {
                    &&& groups_put(
                        old(self).meets@,
                        old(self).layout@,
                        old(self).groups(),
                        tuple.deep_view(),
                    ) == Some(final(self).groups())
                    &&& changed == (final(self).groups() != old(self).groups())
                },
                Err(e) => {
                    &&& groups_put(
                        old(self).meets@,
                        old(self).layout@,
                        old(self).groups(),
                        tuple.deep_view(),
                    ) is None
                    &&& final(self).groups() == groups_put_until(
                        old(self).meets@,
                        old(self).layout@,
                        old(self).groups(),
                        tuple.deep_view(),
                    )
                    &&& first_untyped(
                        old(self).meets@,
                        old(self).groups()[project(
                            tuple.deep_view(),
                            old(self).layout.key_positions@,
                        )],
                        project(tuple.deep_view(), old(self).layout.val_positions@),
                        e,
                    )
                },
            },
    {
        let ghost before = *self;
        let ghost groups = self.groups();
        let key = self.layout.borrow_key(tuple);
        let incoming = self.layout.project_vals(tuple);
        let ghost k = key.deep_view();
        let ghost inc = incoming.deep_view();
        assert(key@.len() == k.len() && incoming@.len() == inc.len());
        let materialize = !self.layout.is_suffix();
        let (found, at) = place_of(&self.by_group.keys, &key);
        if found {
            proof {
                lemma_sorted_no_duplicates::<Tuple>(self.by_group.keys.deep_view());
                lemma_map_of_at(self.by_group.keys.deep_view(), self.by_group.vals@, at as int);
                assert(groups.contains_key(k));
                assert(groups[k] == self.by_group.vals@[at as int].deep_view());
                assert(groups[k].len() == self.layout.val_positions@.len());
            }
            assert(self.by_group.vals@[at as int]@.len() == self.meets@.len());
            match fold_vals(&self.meets, &self.by_group.vals[at], &incoming) {
                Ok(vc) => {
                    let (folded, changed) = vc;
                    let ghost v = folded.deep_view();
                    assert(folded@.len() == v.len());
                    proof {
                        lemma_rows_replace(self.layout@, groups, k, v);
                    }
                    if !changed {
                        proof {
                            assert(groups.insert(k, v) =~= groups);
                        }
                        return Ok(false);
                    }
                    if materialize {
                        let old_row = self.layout.interleave(&key, &self.by_group.vals[at]);
                        let new_row = self.layout.interleave(&key, &folded);
                        self.by_row.remove(&old_row);
                        self.by_row.insert(new_row);
                    }
                    self.by_group.insert(key, folded);
                    proof {
                        assert(self.groups() =~= groups.insert(k, v));
                        assert(self.groups()[k] == v);
                    }
                    Ok(true)
                },
                Err(e) => {
                    let part = fold_until(&self.meets, &self.by_group.vals[at], &incoming);
                    let ghost v = part.deep_view();
                    assert(part@.len() == v.len());
                    proof {
                        lemma_rows_replace(self.layout@, groups, k, v);
                    }
                    if materialize {
                        let old_row = self.layout.interleave(&key, &self.by_group.vals[at]);
                        let new_row = self.layout.interleave(&key, &part);
                        self.by_row.remove(&old_row);
                        self.by_row.insert(new_row);
                    }
                    self.by_group.insert(key, part);
                    proof {
                        assert(self.groups() =~= groups.insert(k, v));
                        assert(self.groups()[k] == v);
                    }
                    Err(e)
                },
            }
        } else {
            proof {
                assert(!groups.contains_key(k));
                lemma_rows_replace(self.layout@, groups, k, inc);
            }
            if materialize {
                let new_row = self.layout.interleave(&key, &incoming);
                self.by_row.insert(new_row);
            }
            self.by_group.insert(key, incoming);
            proof {
                assert(self.groups() =~= groups.insert(k, inc));
                assert(self.groups().contains_key(k));
            }
            Ok(true)
        }
    }
}

/// A layout has one value position per aggregation.
proof fn lemma_aggregated_len(sig: Seq<Option<Aggregation>>, layout: Layout)
    requires
        layout.wf(),
        layout.lays_out(sig),
    ensures
        aggregated(sig).len() == layout.val_positions.len(),
{
    lemma_count_split(sig, layout.key_positions, layout.val_positions, sig.len() as int);
    assert(sig.take(sig.len() as int) =~= sig);
    let vs = layout.val_positions;
    let below = vs.filter(|p: usize| p < sig.len());
    assert(below =~= vs) by {
        assert forall|i: int| 0 <= i < vs.len() implies vs[i] < sig.len() by {
            assert(vs.contains(vs[i]));
        }
        lemma_filter_all(vs, sig.len() as int);
    }
}

proof fn lemma_filter_all(vs: Seq<usize>, n: int)
    requires
        forall|i: int| 0 <= i < vs.len() ==> (#[trigger] vs[i]) < n,
    ensures
        vs.filter(|p: usize| p < n) == vs,
    decreases vs.len(),
{
    reveal(Seq::filter);
    if vs.len() > 0 {
        lemma_filter_all(vs.drop_last(), n);
        assert(vs =~= vs.drop_last().push(vs.last()));
    }
}

/// Among the first `n` positions, the aggregations are as many as the value
/// positions below `n`.
proof fn lemma_count_split(
    sig: Seq<Option<Aggregation>>,
    ks: Seq<usize>,
    vs: Seq<usize>,
    n: int,
)
    requires
        0 <= n <= sig.len(),
        sig.len() <= usize::MAX,
        increasing(vs),
        forall|p: usize| p < sig.len() ==> #[trigger] ks.contains(p) == sig[p as int] is None,
        forall|p: usize| p < sig.len() ==> #[trigger] vs.contains(p) == !ks.contains(p),
    ensures
        aggregated(sig.take(n)).len() == vs.filter(|p: usize| p < n).len(),
    decreases n,
{
    let f = |a: Option<Aggregation>| a;
    if n == 0 {
        assert(sig.take(0) =~= Seq::<Option<Aggregation>>::empty());
        lemma_filter_none(vs, 0);
    } else {
        lemma_count_split(sig, ks, vs, n - 1);
        sig.lemma_filter_map_take_succ(f, n - 1);
        let p = (n - 1) as usize;
        assert(ks.contains(p) == sig[n - 1] is None);
        lemma_filter_step(vs, n - 1);
    }
}

proof fn lemma_filter_none(vs: Seq<usize>, n: int)
    requires
        n <= 0,
    ensures
        vs.filter(|p: usize| p < n).len() == 0,
    decreases vs.len(),
{
    reveal(Seq::filter);
    if vs.len() > 0 {
        lemma_filter_none(vs.drop_last(), n);
    }
}

/// One more position admits at most its own occurrence.
proof fn lemma_filter_step(vs: Seq<usize>, n: int)
    requires
        increasing(vs),
        0 <= n < usize::MAX,
    ensures
        vs.filter(|p: usize| p < n + 1).len() == vs.filter(|p: usize| p < n).len() + (
        if vs.contains(n as usize) {
            1int
        } else {
            0int
        }),
    decreases vs.len(),
{
    reveal(Seq::filter);
    if vs.len() > 0 {
        let rest = vs.drop_last();
        assert(increasing(rest));
        lemma_filter_step(rest, n);
        if vs.contains(n as usize) {
            let k = choose|k: int| 0 <= k < vs.len() && vs[k] == n as usize;
            if k < rest.len() {
                assert(rest[k] == n as usize);
                assert(vs[k] < vs.last());
            } else {
                if rest.contains(n as usize) {
                    let j = choose|j: int| 0 <= j < rest.len() && rest[j] == n as usize;
                    assert(vs[j] < vs[k]);
                }
            }
        }
        if rest.contains(n as usize) {
            let j = choose|j: int| 0 <= j < rest.len() && rest[j] == n as usize;
            assert(vs[j] == n as usize);
        }
    }
}

/// A row of values that the operators can fold.
pub open spec fn typed_row(ops: Seq<Aggregation>, vals: Row) -> bool {
    &&& vals.len() == ops.len()
    &&& forall|i: int| 0 <= i < ops.len() ==> typed(ops[i], #[trigger] vals[i])
}

/// Groups whose values the operators can fold.
pub open spec fn typed_groups(ops: Seq<Aggregation>, groups: Map<Row, Row>) -> bool {
    forall|k: Row| #[trigger] groups.contains_key(k) ==> typed_row(ops, groups[k])
}

/// Rows of typed values fold to a row of typed values.
pub proof fn lemma_meet_rows_typed(ops: Seq<Aggregation>, a: Row, b: Row)
    requires
        typed_row(ops, a),
        typed_row(ops, b),
    ensures
        meet_rows(ops, a, b) is Some,
        typed_row(ops, meet_rows(ops, a, b)->Some_0),
        forall|i: int|
            0 <= i < ops.len() ==> (#[trigger] meet_rows(ops, a, b)->Some_0[i]) == meet(
                ops[i],
                a[i],
                b[i],
            )->Some_0,
{
    assert forall|i: int| 0 <= i < ops.len() implies (#[trigger] meet(ops[i], a[i], b[i]))
        is Some && typed(ops[i], meet(ops[i], a[i], b[i])->Some_0) by {
        assert(typed(ops[i], a[i]) && typed(ops[i], b[i]));
        lemma_meet_typed(ops[i], a[i], b[i]);
    }
    let m = meet_rows(ops, a, b)->Some_0;
    assert forall|i: int| 0 <= i < ops.len() implies typed(ops[i], #[trigger] m[i]) by {
        assert(meet(ops[i], a[i], b[i]) is Some);
    }
}

/// Folding a row into itself changes nothing.
pub proof fn lemma_meet_rows_idempotent(ops: Seq<Aggregation>, a: Row)
    requires
        typed_row(ops, a),
    ensures
        meet_rows(ops, a, a) == Some(a),
{
    lemma_meet_rows_typed(ops, a, a);
    let m = meet_rows(ops, a, a)->Some_0;
    assert forall|i: int| 0 <= i < ops.len() implies m[i] == a[i] by {
        assert(typed(ops[i], a[i]));
        law_meet_idempotent(ops[i], a[i]);
    }
    assert(m =~= a);
}

/// The order of two rows does not matter to their fold.
pub proof fn lemma_meet_rows_commutative(ops: Seq<Aggregation>, a: Row, b: Row)
    requires
        typed_row(ops, a),
        typed_row(ops, b),
    ensures
        meet_rows(ops, a, b) == meet_rows(ops, b, a),
{
    lemma_meet_rows_typed(ops, a, b);
    lemma_meet_rows_typed(ops, b, a);
    let m = meet_rows(ops, a, b)->Some_0;
    let n = meet_rows(ops, b, a)->Some_0;
    assert forall|i: int| 0 <= i < ops.len() implies m[i] == n[i] by {
        assert(typed(ops[i], a[i]) && typed(ops[i], b[i]));
        law_meet_commutative(ops[i], a[i], b[i]);
    }
    assert(m =~= n);
}

/// The grouping of three rows does not matter to their fold.
pub proof fn lemma_meet_rows_associative(ops: Seq<Aggregation>, a: Row, b: Row, c: Row)
    requires
        typed_row(ops, a),
        typed_row(ops, b),
        typed_row(ops, c),
    ensures
        meet_rows(ops, meet_rows(ops, a, b)->Some_0, c) == meet_rows(
            ops,
            a,
            meet_rows(ops, b, c)->Some_0,
        ),
{
    lemma_meet_rows_typed(ops, a, b);
    lemma_meet_rows_typed(ops, b, c);
    let ab = meet_rows(ops, a, b)->Some_0;
    let bc = meet_rows(ops, b, c)->Some_0;
    lemma_meet_rows_typed(ops, ab, c);
    lemma_meet_rows_typed(ops, a, bc);
    let m = meet_rows(ops, ab, c)->Some_0;
    let n = meet_rows(ops, a, bc)->Some_0;
    assert forall|i: int| 0 <= i < ops.len() implies m[i] == n[i] by {
        assert(typed(ops[i], a[i]) && typed(ops[i], b[i]) && typed(ops[i], c[i]));
        law_meet_associative(ops[i], a[i], b[i], c[i]);
        assert(m[i] == meet(ops[i], ab[i], c[i])->Some_0);
        assert(n[i] == meet(ops[i], a[i], bc[i])->Some_0);
    }
    assert(m =~= n);
}

/// A head tuple whose meet columns the operators can fold.
pub open spec fn typed_head(ops: Seq<Aggregation>, layout: Layout, row: Row) -> bool {
    typed_row(ops, project(row, layout.val_positions))
}

/// Folding the same head tuple a second time changes nothing.
pub proof fn law_meet_put_idempotent(
    ops: Seq<Aggregation>,
    layout: Layout,
    groups: Map<Row, Row>,
    row: Row,
)
    requires
        typed_groups(ops, groups),
        typed_head(ops, layout, row),
    ensures
        groups_put(ops, layout, groups, row) is Some,
        groups_put(ops, layout, groups_put(ops, layout, groups, row)->Some_0, row) == groups_put(
            ops,
            layout,
            groups,
            row,
        ),
{
    let key = project(row, layout.key_positions);
    let vals = project(row, layout.val_positions);
    if groups.contains_key(key) {
        let g = groups[key];
        lemma_meet_rows_typed(ops, g, vals);
        let once = meet_rows(ops, g, vals)->Some_0;
        lemma_meet_rows_associative(ops, g, vals, vals);
        lemma_meet_rows_idempotent(ops, vals);
        assert(groups.insert(key, once).insert(key, once) =~= groups.insert(key, once));
    } else {
        lemma_meet_rows_idempotent(ops, vals);
        assert(groups.insert(key, vals).insert(key, vals) =~= groups.insert(key, vals));
    }
}

/// Folding keeps the groups foldable.
pub proof fn lemma_put_typed(
    ops: Seq<Aggregation>,
    layout: Layout,
    groups: Map<Row, Row>,
    row: Row,
)
    requires
        typed_groups(ops, groups),
        typed_head(ops, layout, row),
    ensures
        groups_put(ops, layout, groups, row) is Some,
        typed_groups(ops, groups_put(ops, layout, groups, row)->Some_0),
{
    let key = project(row, layout.key_positions);
    let vals = project(row, layout.val_positions);
    if groups.contains_key(key) {
        lemma_meet_rows_typed(ops, groups[key], vals);
    }
}

/// The order in which two head tuples arrive does not matter.
pub proof fn law_meet_puts_commute(
    ops: Seq<Aggregation>,
    layout: Layout,
    groups: Map<Row, Row>,
    a: Row,
    b: Row,
)
    requires
        typed_groups(ops, groups),
        typed_head(ops, layout, a),
        typed_head(ops, layout, b),
    ensures
        groups_put(ops, layout, groups_put(ops, layout, groups, a)->Some_0, b) == groups_put(
            ops,
            layout,
            groups_put(ops, layout, groups, b)->Some_0,
            a,
        ),
{
    let ka = project(a, layout.key_positions);
    let kb = project(b, layout.key_positions);
    let va = project(a, layout.val_positions);
    let vb = project(b, layout.val_positions);
    lemma_put_typed(ops, layout, groups, a);
    lemma_put_typed(ops, layout, groups, b);
    let ga = groups_put(ops, layout, groups, a)->Some_0;
    let gb = groups_put(ops, layout, groups, b)->Some_0;
    lemma_put_typed(ops, layout, ga, b);
    lemma_put_typed(ops, layout, gb, a);
    let x = groups_put(ops, layout, ga, b)->Some_0;
    let y = groups_put(ops, layout, gb, a)->Some_0;
    if ka == kb {
        if groups.contains_key(ka) {
            let g = groups[ka];
            lemma_meet_rows_associative(ops, g, va, vb);
            lemma_meet_rows_associative(ops, g, vb, va);
            lemma_meet_rows_commutative(ops, va, vb);
        } else {
            lemma_meet_rows_commutative(ops, va, vb);
        }
        assert(x =~= y);
    } else {
        assert(x =~= y);
    }
}

/// Whether merging a group's values into a total would change the total.
pub open spec fn admits(
    ops: Seq<Aggregation>,
    total: Map<Row, Row>,
    key: Row,
    vals: Row,
) -> bool {
    total.contains_key(key) ==> meet_rows(ops, total[key], vals) is Some && meet_rows(
        ops,
        total[key],
        vals,
    ) != Some(total[key])
}

/// The groups of an epoch's output that merging would admit.
pub open spec fn admissible(
    ops: Seq<Aggregation>,
    total: Map<Row, Row>,
    out: Map<Row, Row>,
) -> Set<Row> {
    Set::new(|k: Row| out.contains_key(k) && admits(ops, total, k, out[k]))
}

/// Folding more into a group never makes it inadmissible.
pub proof fn lemma_admits_monotone(
    ops: Seq<Aggregation>,
    total: Map<Row, Row>,
    key: Row,
    vals: Row,
    more: Row,
)
    requires
        total.contains_key(key) ==> typed_row(ops, total[key]),
        typed_row(ops, vals),
        typed_row(ops, more),
        admits(ops, total, key, vals),
    ensures
        admits(ops, total, key, meet_rows(ops, vals, more)->Some_0),
{
    if total.contains_key(key) {
        let t = total[key];
        lemma_meet_rows_typed(ops, vals, more);
        let both = meet_rows(ops, vals, more)->Some_0;
        lemma_meet_rows_typed(ops, t, both);
        lemma_meet_rows_typed(ops, t, vals);
        if meet_rows(ops, t, both) == Some(t) {
            // t absorbs the fold of both, and so it absorbs the first alone.
            lemma_meet_rows_associative(ops, t, both, vals);
            lemma_meet_rows_commutative(ops, both, vals);
            lemma_meet_rows_associative(ops, vals, vals, more);
            lemma_meet_rows_idempotent(ops, vals);
        }
    }
}

/// Every fold that counting a head tuple's admission takes can be made: of its
/// group's values into the total's before and after, and of its own values into
/// its group.
pub open spec fn foldable_against(
    ops: Seq<Aggregation>,
    layout: Layout,
    total: Map<Row, Row>,
    out: Map<Row, Row>,
    row: Row,
) -> bool {
    let key = project(row, layout.key_positions);
    let after = groups_put(ops, layout, out, row);
    &&& out.contains_key(key) && total.contains_key(key) ==> meet_rows(ops, total[key], out[key])
        is Some
    &&& after is Some
    &&& total.contains_key(key) ==> meet_rows(ops, total[key], after->Some_0[key]) is Some
}

/// What is left of an output whose head tuple's admission cannot be counted,
/// and the error: the first fold that cannot be made decides. Before it is the
/// tuple's own, nothing has changed; after it, the tuple is in its group.
pub open spec fn refused_against(
    ops: Seq<Aggregation>,
    layout: Layout,
    total: Map<Row, Row>,
    out: Map<Row, Row>,
    row: Row,
    e: AggrTypeError,
    left: Map<Row, Row>,
) -> bool {
    let key = project(row, layout.key_positions);
    if out.contains_key(key) && total.contains_key(key) && meet_rows(ops, total[key], out[key])
        is None {
        first_untyped(ops, total[key], out[key], e) && left == out
    } else {
        match groups_put(ops, layout, out, row) {
            None => {
                &&& first_untyped(ops, out[key], project(row, layout.val_positions), e)
                &&& left == groups_put_until(ops, layout, out, row)
            },
            Some(after) => first_untyped(ops, total[key], after[key], e) && left == after,
        }
    }
}

impl MeetAggrStore {
    /// Whether merging a group's values into this total would change it.
    pub fn would_admit(&self, key: &Tuple, vals: &Tuple) -> (r: Result<bool, AggrTypeError>)
        requires
            self.wf(),
            vals@.len() == self.meets@.len(),
        ensures
            match r {
                Ok(b) => {
                    &&& b == admits(
                        self.meets@,
                        self.groups(),
                        key.deep_view(),
                        vals.deep_view(),
                    )
                    &&& self.groups().contains_key(key.deep_view()) ==> meet_rows(
                        self.meets@,
                        self.groups()[key.deep_view()],
                        vals.deep_view(),
                    ) is Some
                },
                Err(e) => {
                    &&& self.groups().contains_key(key.deep_view())
                    &&& meet_rows(
                        self.meets@,
                        self.groups()[key.deep_view()],
                        vals.deep_view(),
                    ) is None
                    &&& first_untyped(
                        self.meets@,
                        self.groups()[key.deep_view()],
                        vals.deep_view(),
                        e,
                    )
                },
            },
    {
        match self.by_group.get(key) {
            Some(current) => {
                proof {
                    assert(self.groups().contains_key(key.deep_view()));
                    assert(current@.len() == current.deep_view().len());
                }
                match fold_vals(&self.meets, current, vals) {
                    Ok(vc) => Ok(vc.1),
                    Err(e) => Err(e),
                }
            },
            None => Ok(true),
        }
    }

    /// Fold a head tuple into this epoch's output, and say whether that made
    /// its group admissible to `total` when it was not before.
    pub fn meet_put_admission_faithful(&mut self, tuple: &Tuple, total: &MeetAggrStore) -> (r:
        Result<bool, AggrTypeError>)
        requires
            old(self).wf(),
            total.wf(),
            total.meets@ == old(self).meets@,
            total.layout@ == old(self).layout@,
            tuple@.len() == old(self).layout.arity,
        ensures
            final(self).wf(),
            final(self).layout == old(self).layout,
            final(self).meets == old(self).meets,
            r is Ok ==> ({
                let key = project(tuple.deep_view(), old(self).layout@.key_positions);
                &&& groups_put(
                    old(self).meets@,
                    old(self).layout@,
                    old(self).groups(),
                    tuple.deep_view(),
                ) == Some(final(self).groups())
                &&& r->Ok_0 == (admissible(
                    total.meets@,
                    total.groups(),
                    final(self).groups(),
                ).contains(key) && !admissible(
                    total.meets@,
                    total.groups(),
                    old(self).groups(),
                ).contains(key))
            }),
            r is Ok == foldable_against(
                old(self).meets@,
                old(self).layout@,
                total.groups(),
                old(self).groups(),
                tuple.deep_view(),
            ),
            r matches Err(e) ==> refused_against(
                old(self).meets@,
                old(self).layout@,
                total.groups(),
                old(self).groups(),
                tuple.deep_view(),
                e,
                final(self).groups(),
            ),
    {
        let key = self.layout.borrow_key(tuple);
        let ghost k = key.deep_view();
        let ghost ops = self.meets@;
        let ghost before = self.groups();
        let was = match self.by_group.get(&key) {
            Some(vals) => {
                assert(before.contains_key(k));
                assert(vals@.len() == vals.deep_view().len());
                total.would_admit(&key, vals)?
            },
            None => false,
        };
        self.meet_put(tuple)?;
        let ghost after = self.groups();
        assert(after.contains_key(k));
        match self.by_group.get(&key) {
            Some(vals) => {
                assert(vals@.len() == vals.deep_view().len());
                let now = total.would_admit(&key, vals)?;
                Ok(now && !was)
            },
            None => {
                assert(false);
                Ok(false)
            },
        }
    }
}

/// A view of one stored tuple: its key part and its value part as one tuple.
#[derive(Clone, Copy, Debug)]
pub struct TupleInIter<'a> {
    pub key: &'a [DataValue],
    pub val: &'a [DataValue],
    pub skip: bool,
}

impl<'a> DeepView for TupleInIter<'a> {
    type V = Row;

    open spec fn deep_view(&self) -> Row {
        self.key.deep_view() + self.val.deep_view()
    }
}

impl<'a> TupleInIter<'a> {
    pub fn new(key: &'a [DataValue], val: &'a [DataValue], skip: bool) -> (r: Self)
        ensures
            r.deep_view() == key.deep_view() + val.deep_view(),
            r.skip == skip,
    {
        TupleInIter { key, val, skip }
    }

    /// The value at a position of the tuple.
    pub fn get(&self, idx: usize) -> (r: DataValue)
        requires
            idx < self.deep_view().len(),
        ensures
            r.deep_view() == self.deep_view()[idx as int],
    {
        if idx < self.key.len() {
            self.key[idx].clone()
        } else {
            self.val[idx - self.key.len()].clone()
        }
    }

    pub fn should_skip(&self) -> (r: bool)
        ensures
            r == self.skip,
    {
        self.skip
    }

    /// The tuple as a row of its own.
    pub fn into_tuple(&self) -> (r: Tuple)
        ensures
            r.deep_view() == self.deep_view(),
    {
        let mut out: Tuple = Vec::new();
        let ghost a = self.key.deep_view();
        let ghost b = self.val.deep_view();
        let mut i: usize = 0;
        while i < self.key.len()
            invariant
                i <= self.key@.len(),
                a == self.key.deep_view(),
                out.deep_view() == a.take(i as int),
            decreases self.key.len() - i,
        {
            let ghost prev = out.deep_view();
            let copy = self.key[i].clone();
            out.push(copy);
            assert(out.deep_view() =~= prev.push(a[i as int]));
            assert(out.deep_view() =~= a.take(i + 1));
            i = i + 1;
        }
        assert(a.take(i as int) =~= a);
        let mut j: usize = 0;
        assert(a + b.take(0) =~= a);
        while j < self.val.len()
            invariant
                j <= self.val@.len(),
                b == self.val.deep_view(),
                out.deep_view() == a + b.take(j as int),
            decreases self.val.len() - j,
        {
            let ghost prev = out.deep_view();
            let copy = self.val[j].clone();
            out.push(copy);
            assert(out.deep_view() =~= prev.push(b[j as int]));
            assert(out.deep_view() =~= a + b.take(j + 1));
            j = j + 1;
        }
        assert(b.take(j as int) =~= b);
        out
    }

    /// Compare the tuple with a row, in tuple order.
    pub fn rank_slice(&self, other: &Tuple) -> (r: Rank)
        ensures
            r == row_rank(self.deep_view(), other.deep_view()),
    {
        let row = self.into_tuple();
        rank_rows(&row, other)
    }

    /// Compare two tuples, in tuple order.
    pub fn rank(&self, other: &TupleInIter<'_>) -> (r: Rank)
        ensures
            r == row_rank(self.deep_view(), other.deep_view()),
    {
        let a = self.into_tuple();
        let b = other.into_tuple();
        rank_rows(&a, &b)
    }
}

} // verus!
