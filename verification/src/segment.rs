//! Segments: the current rows of a stored relation, dense and sorted, so that
//! a probe is a search instead of a scan.

use vstd::prelude::*;
use crate::epoch::starts_with;
use crate::expr::Expr;
use crate::history::{row_prefix, snapshot, AsOf, FactTable};
use crate::meaning::{compared, newest, probe_columns, probed, probed_row, JoinShape, Origin};
use crate::names::{names, places_set, Name};
use crate::order::{is_place, place_of, strictly_sorted};
use crate::plan::{is_prefix, KeyspaceKind, RelationHandle};
use crate::probe::{
    all_at_place, in_reach, is_probe_order, lemma_between_prefix, lemma_no_columns,
    lemma_open_bounds, lemma_order_bounded,
};
use crate::stream::{lemma_flow_ext, lemma_flow_filter, RowStep, Stream, TupleStream};
use crate::table_probe::{emit_met, lemma_met_key};
use crate::temp_store::pick;
use crate::value::{copy_row, lemma_rows_sorted, row_before, same_row, Row, Tuple, Val};

verus! {

/// The rows of a relation, sorted.
#[derive(Debug)]
pub struct Segment {
    rows: Vec<Tuple>,
}

impl DeepView for Segment {
    type V = Seq<Row>;

    closed spec fn deep_view(&self) -> Seq<Row> {
        self.rows.deep_view()
    }
}

/// The segments at hand, by relation.
#[derive(Debug)]
pub struct Segments {
    pub by_relation: Vec<Option<Segment>>,
}

impl Segments {
    /// Every segment holds the current rows of its relation.
    pub open spec fn current(&self, tables: Seq<FactTable>) -> bool {
        forall|i: int|
            0 <= i < self.by_relation@.len() && i < tables.len() && (
            #[trigger] self.by_relation@[i]) is Some ==> {
                &&& self.by_relation@[i]->Some_0.wf()
                &&& self.by_relation@[i]->Some_0.deep_view() == snapshot(
                    tables[i].model(),
                    newest(),
                )
            }
    }

    /// The segment that serves a relation, if there is one. Only a relation of
    /// facts is served: the working rows of an algorithm are read as they are.
    pub fn serving(&self, storage: &RelationHandle) -> (r: Option<&Segment>)
        ensures
            match r {
                Some(s) => {
                    &&& storage.keyspace_kind is Facts
                    &&& storage.id < self.by_relation@.len()
                    &&& self.by_relation@[storage.id as int] == Some(*s)
                },
                None => storage.keyspace_kind is Facts && storage.id < self.by_relation@.len()
                    ==> self.by_relation@[storage.id as int] is None,
            },
    {
        match storage.keyspace_kind {
            KeyspaceKind::Facts => if storage.id < self.by_relation.len() {
                match &self.by_relation[storage.id] {
                    Some(s) => Some(s),
                    None => None,
                }
            } else {
                None
            },
            KeyspaceKind::AlgorithmState => None,
        }
    }
}

proof fn lemma_longer_not_before(p: Row, t: Row)
    ensures
        !row_before(p + t, p),
    decreases p.len(),
{
    if p.len() > 0 {
        let q = p.drop_first();
        assert((p + t).drop_first() =~= q + t);
        assert((p + t)[0] == p[0]);
        crate::value::lemma_val_irreflexive(p[0]);
        lemma_longer_not_before(q, t);
    }
}

/// Among sorted rows from a place on, those with a prefix come first.
proof fn lemma_prefix_run(rows: Seq<Row>, p: Row, lo: int, i: int, j: int)
    requires
        strictly_sorted::<Tuple>(rows),
        is_place::<Tuple>(rows, p, lo),
        0 <= j < rows.len(),
        starts_with(rows[j], p),
    ensures
        lo <= j,
        lo <= i < j ==> starts_with(rows[i], p),
{
    lemma_rows_sorted(rows);
    let t = rows[j].skip(p.len() as int);
    assert(rows[j] =~= p + t);
    lemma_longer_not_before(p, t);
    if j < lo {
        assert(row_before(rows[j], p));
    }
    if lo <= i < j {
        assert(p + Seq::<Val>::empty() =~= p);
        assert(!row_before(rows[i], p));
        assert(row_before(rows[i], rows[j]));
        lemma_between_prefix(rows[i], p, Seq::empty(), t);
    }
}

impl Segment {
    pub closed spec fn wf(&self) -> bool {
        strictly_sorted::<Tuple>(self.rows.deep_view())
    }

    /// The segment of a relation as it is now.
    pub fn build(table: &FactTable) -> (r: Self)
        requires
            table.wf(),
        ensures
            r.wf(),
            r.deep_view() == snapshot(table.model(), newest()),
    {
        proof {
            crate::table_probe::lemma_snapshot_sorted(table, newest());
        }
        Segment { rows: table.skip_scan_all(AsOf { valid: i64::MAX, sys: i64::MAX }) }
    }

    pub fn len(&self) -> (r: usize)
        ensures
            r == self.deep_view().len(),
    {
        proof {
            assert(self.rows.deep_view().len() == self.rows@.len());
        }
        self.rows.len()
    }

    /// The rows of the segment.
    pub fn all_rows(&self) -> (r: Vec<Tuple>)
        ensures
            r.deep_view() == self.deep_view(),
    {
        proof {
            assert(self.rows.deep_view().len() == self.rows@.len());
            assert(self.rows.deep_view().subrange(0, self.rows@.len() as int)
                =~= self.rows.deep_view());
        }
        self.rows_between(0, self.rows.len())
    }

    /// The rows of a range.
    pub fn rows_between(&self, from: usize, to: usize) -> (r: Vec<Tuple>)
        requires
            from <= to <= self.deep_view().len(),
        ensures
            r.deep_view() == self.deep_view().subrange(from as int, to as int),
    {
        let ghost all = self.rows.deep_view();
        let mut out: Vec<Tuple> = Vec::new();
        let mut i: usize = from;
        proof {
            assert(all.len() == self.rows@.len());
            assert(out.deep_view() =~= all.subrange(from as int, from as int));
        }
        while i < to
            invariant
                from <= i <= to <= self.rows@.len(),
                all == self.rows.deep_view(),
                all.len() == self.rows@.len(),
                out.deep_view() == all.subrange(from as int, i as int),
            decreases to - i,
        {
            let ghost before = out.deep_view();
            out.push(copy_row(&self.rows[i]));
            proof {
                assert(out.deep_view() =~= before.push(all[i as int]));
                assert(all.subrange(from as int, i + 1) =~= before.push(all[i as int]));
            }
            i = i + 1;
        }
        out
    }

    /// The range of the rows that begin with a prefix.
    pub fn prefix_range(&self, prefix: &Tuple) -> (r: (usize, usize))
        requires
            self.wf(),
        ensures
            r.0 <= r.1 <= self.deep_view().len(),
            forall|i: int|
                0 <= i < self.deep_view().len() ==> starts_with(
                    #[trigger] self.deep_view()[i],
                    prefix.deep_view(),
                ) == (r.0 <= i < r.1),
    {
        let ghost all = self.rows.deep_view();
        let ghost p = prefix.deep_view();
        let lo: usize = place_of(&self.rows, prefix).1;
        let mut hi: usize = lo;
        proof {
            assert(all.len() == self.rows@.len());
            assert(p.len() == prefix@.len());
        }
        while hi < self.rows.len()
            invariant_except_break
                lo <= hi <= self.rows@.len(),
                all == self.rows.deep_view(),
                all.len() == self.rows@.len(),
                p == prefix.deep_view(),
                p.len() == prefix@.len(),
                forall|i: int| lo <= i < hi ==> starts_with(#[trigger] all[i], p),
            ensures
                lo <= hi <= self.rows@.len(),
                forall|i: int| lo <= i < hi ==> starts_with(#[trigger] all[i], p),
                hi < self.rows@.len() ==> !starts_with(all[hi as int], p),
            decreases self.rows.len() - hi,
        {
            let row = &self.rows[hi];
            proof {
                assert(all[hi as int] == row.deep_view());
                assert(row.deep_view().len() == row@.len());
            }
            let begins = if prefix.len() > row.len() {
                false
            } else {
                let start = row_prefix(row, prefix.len());
                same_row(&start, prefix)
            };
            if !begins {
                break;
            }
            hi = hi + 1;
        }
        proof {
            assert forall|i: int| 0 <= i < all.len() implies starts_with(#[trigger] all[i], p) == (
            lo <= i < hi) by {
                if starts_with(all[i], p) {
                    lemma_prefix_run(all, p, lo as int, hi as int, i);
                }
            }
        }
        (lo, hi)
    }
}

/// Filtering out all but a run is taking the run.
proof fn lemma_filter_run(rows: Seq<Row>, p: spec_fn(Row) -> bool, lo: int, hi: int)
    requires
        0 <= lo <= hi <= rows.len(),
        forall|i: int| 0 <= i < rows.len() ==> p(#[trigger] rows[i]) == (lo <= i < hi),
    ensures
        rows.filter(p) == rows.subrange(lo, hi),
    decreases rows.len(),
{
    reveal(Seq::filter);
    if rows.len() > 0 {
        let rest = rows.drop_last();
        let n = rows.len() - 1;
        let top = if hi <= n {
            hi
        } else {
            n
        };
        let bottom = if lo <= top {
            lo
        } else {
            top
        };
        assert forall|i: int| 0 <= i < rest.len() implies p(#[trigger] rest[i]) == (bottom <= i
            < top) by {
            assert(rest[i] == rows[i]);
        }
        lemma_filter_run(rest, p, bottom, top);
        assert(rows[n] == rows.last());
        if p(rows.last()) {
            assert(rows.subrange(lo, hi) =~= rest.subrange(bottom, top).push(rows.last()));
        } else {
            assert(rows.subrange(lo, hi) =~= rest.subrange(bottom, top));
        }
    } else {
        assert(rows.filter(p) =~= rows.subrange(lo, hi));
    }
}

/// The probe of a segment by left rows, where no bounds are set.
pub struct SegmentProbe<'a> {
    pub segment: &'a Segment,
    pub bindings: &'a Vec<String>,
    pub filters: &'a Vec<Expr>,
    pub key_len: usize,
    pub lp: &'a Vec<usize>,
    pub rp: &'a Vec<usize>,
    pub order: Vec<usize>,
    pub eliminate: &'a Vec<usize>,
    pub origin: Origin,
}

impl<'a> SegmentProbe<'a> {
    pub open spec fn columns(&self) -> Seq<Name> {
        probe_columns(names(self.bindings@), self.rp@.len() as int, Some(self.key_len as int))
    }

    pub open spec fn shape(&self) -> JoinShape {
        JoinShape { lp: self.lp@, rp: self.rp@, drop: places_set(self.eliminate@) }
    }

    pub open spec fn wf(&self) -> bool {
        let frame = names(self.bindings@);
        let columns = self.columns();
        &&& self.segment.wf()
        &&& self.origin.key_len == self.key_len
        &&& forall|i: int|
            0 <= i < self.segment.deep_view().len() ==> self.key_len <= (
            #[trigger] self.segment.deep_view()[i]).len()
        &&& self.lp@.len() == self.rp@.len()
        &&& self.rp@.len() <= frame.len()
        &&& is_prefix(self.rp@)
        &&& is_probe_order(self.order@, self.lp@, self.rp@)
        &&& all_at_place(self.filters@, frame)
        &&& forall|i: int|
            0 <= i < columns.len() ==> (#[trigger] crate::bounds::lower_ends(
                self.filters@,
                columns,
            )[i]) == Val::Null
        &&& forall|i: int|
            0 <= i < columns.len() ==> (#[trigger] crate::bounds::upper_ends(
                self.filters@,
                columns,
            )[i]) == Val::Bot
    }
}

impl<'a> RowStep for SegmentProbe<'a> {
    open spec fn takes(&self, row: Row) -> bool {
        self.wf() && in_reach(self.lp@, row.len() as int)
    }

    open spec fn gives(&self, row: Row) -> Stream {
        probed(
            row,
            self.segment.deep_view(),
            self.shape(),
            self.filters@,
            names(self.bindings@),
            self.columns(),
            Some(self.origin),
        )
    }

    fn step(&self, row: &Tuple) -> (r: TupleStream) {
        let ghost l = row.deep_view();
        proof {
            assert(row@.len() == l.len());
            lemma_order_bounded(self.order@, self.lp@, self.rp@, row@.len() as int);
        }
        let whole = pick(row, &self.order);
        let k: usize = if self.key_len <= whole.len() {
            self.key_len
        } else {
            whole.len()
        };
        proof {
            assert(whole@.len() == whole.deep_view().len());
        }
        let prefix = row_prefix(&whole, k);
        let (lo, hi) = self.segment.prefix_range(&prefix);
        let found = self.segment.rows_between(lo, hi);
        let ghost frame = names(self.bindings@);
        proof {
            let rows = self.segment.deep_view();
            let shape = self.shape();
            let columns = self.columns();
            let p = |x: Row| starts_with(x, prefix.deep_view());
            let g = |x: Row| compared(l, x, shape, self.filters@, frame, self.origin);
            let f = |x: Row|
                if p(x) {
                    g(x)
                } else {
                    Stream::nothing()
                };
            let h = |r: Row|
                probed_row(l, r, shape, self.filters@, frame, columns, Some(self.origin));
            lemma_filter_run(rows, p, lo as int, hi as int);
            lemma_flow_filter(rows, p, g);
            assert forall|i: int| 0 <= i < rows.len() implies #[trigger] f(rows[i]) == h(
                rows[i],
            ) by {
                let r = rows[i];
                lemma_met_key(l, r, shape, self.key_len as int, k as int, self.order@);
                if columns.len() > 0 {
                    lemma_open_bounds(r, shape.rp.len() as int, self.filters@, columns);
                } else {
                    assert(columns =~= Seq::<Name>::empty());
                    lemma_no_columns(r, shape.rp.len() as int, self.filters@);
                }
            }
            lemma_flow_ext(rows, f, h);
        }
        emit_met(
            row,
            &found,
            self.lp,
            self.rp,
            self.filters,
            self.eliminate,
            &self.origin,
            Ghost(frame),
        )
    }
}

} // verus!
