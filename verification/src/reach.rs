//! Reachability over a set of edges.

use vstd::prelude::*;
use crate::asof::{naive_asof, rows_as_of, Write};
use crate::order::{OrderedSet, Rank, Total};
use crate::value::{DataValue, Row, Tuple, Val};

verus! {

/// An edge: where it starts and where it ends.
#[derive(Clone, Copy, Debug, PartialEq, Eq, Structural)]
pub struct Link {
    pub from: i64,
    pub to: i64,
}

impl DeepView for Link {
    type V = Link;

    open spec fn deep_view(&self) -> Link {
        *self
    }
}

impl Total for Link {
    open spec fn before(a: Link, b: Link) -> bool {
        a.from < b.from || (a.from == b.from && a.to < b.to)
    }

    proof fn before_irreflexive(a: Link) {
    }

    proof fn before_transitive(a: Link, b: Link, c: Link) {
    }

    proof fn before_total(a: Link, b: Link) {
    }

    fn rank(&self, other: &Self) -> Rank {
        if self.from < other.from {
            Rank::Before
        } else if self.from > other.from {
            Rank::After
        } else if self.to < other.to {
            Rank::Before
        } else if self.to > other.to {
            Rank::After
        } else {
            Rank::Same
        }
    }
}

/// Whether a walk goes along an edge at a place.
pub open spec fn goes(edges: Set<Link>, w: Seq<i64>, i: int) -> bool {
    edges.contains(Link { from: w[i], to: w[i + 1] })
}

/// A walk along edges.
pub open spec fn is_walk(edges: Set<Link>, w: Seq<i64>) -> bool {
    &&& w.len() >= 2
    &&& forall|i: int| 0 <= i < w.len() - 1 ==> #[trigger] goes(edges, w, i)
}

/// Whether a walk leads from one place to another.
pub open spec fn leads(edges: Set<Link>, l: Link) -> bool {
    exists|w: Seq<i64>| #[trigger] is_walk(edges, w) && w[0] == l.from && w.last() == l.to
}

proof fn lemma_one_edge(edges: Set<Link>, l: Link)
    requires
        edges.contains(l),
    ensures
        leads(edges, l),
{
    let w = seq![l.from, l.to];
    assert forall|i: int| 0 <= i < w.len() - 1 implies #[trigger] goes(edges, w, i) by {
        assert(i == 0);
    }
    assert(is_walk(edges, w));
}

proof fn lemma_walks_join(edges: Set<Link>, a: Link, b: Link)
    requires
        leads(edges, a),
        leads(edges, b),
        a.to == b.from,
    ensures
        leads(edges, Link { from: a.from, to: b.to }),
{
    let u = choose|w: Seq<i64>| #[trigger]
        is_walk(edges, w) && w[0] == a.from && w.last() == a.to;
    let v = choose|w: Seq<i64>| #[trigger]
        is_walk(edges, w) && w[0] == b.from && w.last() == b.to;
    let w = u + v.drop_first();
    assert forall|i: int| 0 <= i < w.len() - 1 implies #[trigger] goes(edges, w, i) by {
        if i < u.len() - 1 {
            assert(goes(edges, u, i));
            assert(w[i] == u[i] && w[i + 1] == u[i + 1]);
        } else {
            let j = i - (u.len() - 1);
            assert(goes(edges, v, j));
            assert(w[i] == v[j]);
            assert(w[i + 1] == v[j + 1]);
        }
    }
    assert(w.last() == v.last());
    assert(is_walk(edges, w));
}

/// A transitive set that holds the edges holds every walk.
proof fn lemma_walk_within(edges: Set<Link>, reach: Set<Link>, w: Seq<i64>)
    requires
        is_walk(edges, w),
        edges.subset_of(reach),
        is_transitive(reach),
    ensures
        reach.contains(Link { from: w[0], to: w.last() }),
    decreases w.len(),
{
    if w.len() == 2 {
        assert(goes(edges, w, 0));
    } else {
        let less = w.drop_last();
        assert forall|i: int| 0 <= i < less.len() - 1 implies #[trigger] goes(edges, less, i) by {
            assert(goes(edges, w, i));
        }
        lemma_walk_within(edges, reach, less);
        let n = w.len() - 2;
        assert(goes(edges, w, n));
        let a = Link { from: w[0], to: less.last() };
        let b = Link { from: w[n], to: w[n + 1] };
        assert(reach.contains(a) && reach.contains(b));
        assert(reach.contains(joined_link(a, b)));
    }
}

/// Two edges as one.
pub open spec fn joined_link(a: Link, b: Link) -> Link {
    Link { from: a.from, to: b.to }
}

/// Whether two edges that meet are always there as one.
pub open spec fn is_transitive(reach: Set<Link>) -> bool {
    forall|a: Link, b: Link|
        reach.contains(a) && reach.contains(b) && a.to == b.from ==> #[trigger] reach.contains(
            joined_link(a, b),
        )
}

/// The number of pairs of places, among the first `k`, that are not reached.
spec fn missing(items: Seq<Link>, reach: Set<Link>, k: int) -> nat
    decreases k,
{
    if k <= 0 {
        0
    } else {
        missing(items, reach, k - 1) + (if reach.contains(
            joined_link(items[(k - 1) / (items.len() as int)], items[(k - 1) % (items.len() as int)]),
        ) {
            0nat
        } else {
            1nat
        })
    }
}

proof fn lemma_missing_shrinks(items: Seq<Link>, small: Set<Link>, large: Set<Link>, k: int, at: int)
    requires
        small.subset_of(large),
        0 <= at,
        at < k ==> {
            let l = joined_link(items[at / (items.len() as int)], items[at % (items.len() as int)]);
            !small.contains(l) && large.contains(l)
        },
    ensures
        missing(items, large, k) <= missing(items, small, k),
        at < k ==> missing(items, large, k) < missing(items, small, k),
    decreases k,
{
    if k > 0 {
        lemma_missing_shrinks(items, small, large, k - 1, at);
    }
}

/// Whether an edge starts where an edge of a list starts and ends where one
/// ends.
spec fn spans_items(items: Seq<Link>, l: Link) -> bool {
    exists|i: int, j: int|
        0 <= i < items.len() && 0 <= j < items.len() && l == joined_link(
            #[trigger] items[i],
            #[trigger] items[j],
        )
}

proof fn lemma_spans_join(items: Seq<Link>, a: Link, b: Link)
    requires
        spans_items(items, a),
        spans_items(items, b),
    ensures
        spans_items(items, joined_link(a, b)),
{
    let (i, _) = choose|i: int, j: int|
        0 <= i < items.len() && 0 <= j < items.len() && a == joined_link(
            #[trigger] items[i],
            #[trigger] items[j],
        );
    let (_, j) = choose|i: int, j: int|
        0 <= i < items.len() && 0 <= j < items.len() && b == joined_link(
            #[trigger] items[i],
            #[trigger] items[j],
        );
    assert(joined_link(a, b) == joined_link(items[i], items[j]));
}

proof fn lemma_new_link_counts(items: Seq<Link>, small: Set<Link>, large: Set<Link>, l: Link)
    requires
        small.subset_of(large),
        spans_items(items, l),
        !small.contains(l),
        large.contains(l),
    ensures
        missing(items, large, (items.len() * items.len()) as int) < missing(
            items,
            small,
            (items.len() * items.len()) as int,
        ),
{
    let n = items.len() as int;
    let (i, j) = choose|i: int, j: int|
        0 <= i < items.len() && 0 <= j < items.len() && l == joined_link(
            #[trigger] items[i],
            #[trigger] items[j],
        );
    let at = i * n + j;
    assert(0 <= at < n * n && at / n == i && at % n == j) by {
        assert(0 <= at && at < n * n) by (nonlinear_arith)
            requires
                at == i * n + j,
                0 <= i < n,
                0 <= j < n,
        ;
        vstd::arithmetic::div_mod::lemma_fundamental_div_mod_converse(at, n, i, j);
    }
    lemma_missing_shrinks(items, small, large, n * n, at);
}

/// Add the joins of the known edges, pair by pair; true when one is new.
fn join_known(reach: &mut OrderedSet<Link>, known: &Vec<Link>) -> (added: bool)
    requires
        old(reach).wf(),
        known.deep_view().to_set() == old(reach).deep_view(),
    ensures
        final(reach).wf(),
        old(reach).deep_view().subset_of(final(reach).deep_view()),
        forall|l: Link| #[trigger]
            final(reach).deep_view().contains(l) ==> old(reach).deep_view().contains(l) || exists|
                a: Link,
                b: Link,
            |
                old(reach).deep_view().contains(a) && old(reach).deep_view().contains(b) && a.to
                    == b.from && l == #[trigger] joined_link(a, b),
        added == (final(reach).deep_view() != old(reach).deep_view()),
        !added ==> is_transitive(final(reach).deep_view()),
{
    let ghost start = reach.deep_view();
    let ghost ks = known.deep_view();
    let mut added = false;
    let mut i: usize = 0;
    proof {
        assert(ks.len() == known@.len());
        assert forall|q: int| 0 <= q < ks.len() implies start.contains(#[trigger] ks[q]) by {
            assert(ks.contains(ks[q]));
        }
    }
    while i < known.len()
        invariant
            i <= known@.len(),
            ks == known.deep_view(),
            ks.len() == known@.len(),
            forall|q: int| 0 <= q < ks.len() ==> start.contains(#[trigger] ks[q]),
            reach.wf(),
            start.subset_of(reach.deep_view()),
            forall|l: Link| #[trigger]
                reach.deep_view().contains(l) ==> start.contains(l) || exists|a: Link, b: Link|
                    start.contains(a) && start.contains(b) && a.to == b.from && l
                        == #[trigger] joined_link(a, b),
            added == (reach.deep_view() != start),
            forall|x: int, y: int|
                0 <= x < i && 0 <= y < ks.len() && (#[trigger] ks[x]).to == (#[trigger] ks[y]).from
                    ==> reach.deep_view().contains(joined_link(ks[x], ks[y])),
        decreases known.len() - i,
    {
        let mut j: usize = 0;
        while j < known.len()
            invariant
                i < known@.len(),
                j <= known@.len(),
                ks == known.deep_view(),
                ks.len() == known@.len(),
                forall|q: int| 0 <= q < ks.len() ==> start.contains(#[trigger] ks[q]),
                reach.wf(),
                start.subset_of(reach.deep_view()),
                forall|l: Link| #[trigger]
                    reach.deep_view().contains(l) ==> start.contains(l) || exists|a: Link, b: Link|
                        start.contains(a) && start.contains(b) && a.to == b.from && l
                            == #[trigger] joined_link(a, b),
                added == (reach.deep_view() != start),
                forall|x: int, y: int|
                    0 <= x < i && 0 <= y < ks.len() && (#[trigger] ks[x]).to == (
                    #[trigger] ks[y]).from ==> reach.deep_view().contains(
                        joined_link(ks[x], ks[y]),
                    ),
                forall|y: int|
                    0 <= y < j && ks[i as int].to == (#[trigger] ks[y]).from
                        ==> reach.deep_view().contains(joined_link(ks[i as int], ks[y])),
            decreases known.len() - j,
        {
            let a: Link = known[i];
            let b: Link = known[j];
            proof {
                assert(ks[i as int] == a);
                assert(ks[j as int] == b);
            }
            if a.to == b.from {
                let ghost before = reach.deep_view();
                let l = Link { from: a.from, to: b.to };
                let fresh = reach.insert(l);
                proof {
                    assert(l == joined_link(a, b));
                    if fresh {
                        assert(!start.contains(l));
                        assert(reach.deep_view().contains(l));
                    } else {
                        assert(reach.deep_view() =~= before);
                    }
                }
                if fresh {
                    added = true;
                }
            }
            j = j + 1;
        }
        i = i + 1;
    }
    proof {
        if !added {
            assert forall|a: Link, b: Link|
                start.contains(a) && start.contains(b) && a.to == b.from implies
                #[trigger] start.contains(joined_link(a, b)) by {
                assert(ks.contains(a) && ks.contains(b));
                let x = choose|x: int| 0 <= x < ks.len() && ks[x] == a;
                let y = choose|y: int| 0 <= y < ks.len() && ks[y] == b;
                assert(reach.deep_view().contains(joined_link(ks[x], ks[y])));
            }
        }
    }
    added
}

fn copy_links(v: &Vec<Link>) -> (r: Vec<Link>)
    ensures
        r.deep_view() == v.deep_view(),
{
    let mut out: Vec<Link> = Vec::new();
    let mut i: usize = 0;
    while i < v.len()
        invariant
            i <= v@.len(),
            out.deep_view() == v.deep_view().take(i as int),
        decreases v.len() - i,
    {
        let ghost prev = out.deep_view();
        out.push(v[i]);
        proof {
            assert(out.deep_view() =~= prev.push(v@[i as int]));
            assert(v.deep_view().take(i + 1) =~= prev.push(v@[i as int]));
        }
        i = i + 1;
    }
    proof {
        assert(v.deep_view().take(i as int) =~= v.deep_view());
    }
    out
}

/// An edge as a row.
pub open spec fn link_row(l: Link) -> Row {
    seq![Val::Num(l.from), Val::Num(l.to)]
}

/// The transitive closure of a set of edges: the pairs of places that a walk
/// leads between, as rows.
pub fn naive_transitive_closure(edges: &OrderedSet<Link>) -> (r: OrderedSet<Tuple>)
    requires
        edges.wf(),
    ensures
        r.wf(),
        forall|row: Row| #[trigger]
            r.deep_view().contains(row) == exists|l: Link| #[trigger]
                leads(edges.deep_view(), l) && row == link_row(l),
{
    let ghost set = edges.deep_view();
    let ghost items = edges.items.deep_view();
    let ghost n = (items.len() * items.len()) as int;
    let mut reach: OrderedSet<Link> = OrderedSet::from_vec(copy_links(&edges.items));
    proof {
        assert forall|l: Link| #[trigger] set.contains(l) implies leads(set, l) && spans_items(
            items,
            l,
        ) by {
            lemma_one_edge(set, l);
            let i = choose|i: int| 0 <= i < items.len() && items[i] == l;
            assert(l == joined_link(items[i], items[i]));
        }
    }
    let mut going = true;
    while going
        invariant
            set == edges.deep_view(),
            items == edges.items.deep_view(),
            n == items.len() * items.len(),
            reach.wf(),
            set.subset_of(reach.deep_view()),
            forall|l: Link| #[trigger]
                reach.deep_view().contains(l) ==> leads(set, l) && spans_items(items, l),
            !going ==> is_transitive(reach.deep_view()),
        decreases missing(items, reach.deep_view(), n) + (if going {
            1nat
        } else {
            0nat
        }),
    {
        let ghost before = reach.deep_view();
        let known = copy_links(&reach.items);
        going = join_known(&mut reach, &known);
        proof {
            let now = reach.deep_view();
            assert forall|l: Link| #[trigger] now.contains(l) implies leads(set, l) && spans_items(
                items,
                l,
            ) by {
                if !before.contains(l) {
                    let (a, b) = choose|a: Link, b: Link|
                        before.contains(a) && before.contains(b) && a.to == b.from && l
                            == #[trigger] joined_link(a, b);
                    lemma_walks_join(set, a, b);
                    lemma_spans_join(items, a, b);
                }
            }
            if going {
                assert(exists|l: Link| #[trigger] now.contains(l) && !before.contains(l)) by {
                    if forall|l: Link| #[trigger] now.contains(l) ==> before.contains(l) {
                        assert(now =~= before);
                    }
                }
                let l = choose|l: Link| #[trigger] now.contains(l) && !before.contains(l);
                lemma_new_link_counts(items, before, now, l);
            } else {
                assert(now == before);
            }
        }
    }
    let ghost found = reach.deep_view();
    proof {
        assert forall|l: Link| leads(set, l) implies #[trigger] found.contains(l) by {
            let w = choose|w: Seq<i64>| #[trigger]
                is_walk(set, w) && w[0] == l.from && w.last() == l.to;
            lemma_walk_within(set, found, w);
        }
    }
    rows_of_links(&reach, Ghost(set))
}

/// Edges as rows.
fn rows_of_links(reach: &OrderedSet<Link>, Ghost(set): Ghost<Set<Link>>) -> (r: OrderedSet<Tuple>)
    requires
        reach.wf(),
        forall|l: Link| #[trigger] reach.deep_view().contains(l) == leads(set, l),
    ensures
        r.wf(),
        forall|row: Row| #[trigger]
            r.deep_view().contains(row) == exists|l: Link| #[trigger]
                leads(set, l) && row == link_row(l),
{
    let ghost items = reach.items.deep_view();
    let mut out: OrderedSet<Tuple> = OrderedSet::new();
    let mut i: usize = 0;
    while i < reach.items.len()
        invariant
            i <= reach.items@.len(),
            items == reach.items.deep_view(),
            out.wf(),
            forall|row: Row| #[trigger]
                out.deep_view().contains(row) == exists|k: int|
                    0 <= k < i && row == link_row(#[trigger] items[k]),
        decreases reach.items.len() - i,
    {
        let l: Link = reach.items[i];
        let mut row: Tuple = Vec::new();
        row.push(DataValue::Num(l.from));
        row.push(DataValue::Num(l.to));
        proof {
            assert(items[i as int] == l);
            assert(row.deep_view() =~= link_row(l));
        }
        let _ = out.insert(row);
        i = i + 1;
    }
    proof {
        assert(items.len() == reach.items@.len());
        assert forall|row: Row| #[trigger] out.deep_view().contains(row) == exists|l: Link| #[trigger]
            leads(set, l) && row == link_row(l) by {
            if out.deep_view().contains(row) {
                let k = choose|k: int| 0 <= k < i && row == link_row(#[trigger] items[k]);
                assert(items.contains(items[k]));
                assert(reach.deep_view().contains(items[k]));
                assert(leads(set, items[k]));
            }
            if exists|l: Link| #[trigger] leads(set, l) && row == link_row(l) {
                let l = choose|l: Link| #[trigger] leads(set, l) && row == link_row(l);
                assert(reach.deep_view().contains(l));
                let k = choose|k: int| 0 <= k < items.len() && items[k] == l;
                assert(row == link_row(items[k]));
            }
        }
    }
    out
}

/// Whether a row begins with the two ends of an edge.
pub open spec fn is_edge_row(row: Row) -> bool {
    row.len() >= 2 && row[0] is Num && row[1] is Num
}

/// The edge that a row begins with.
pub open spec fn row_link(row: Row) -> Link {
    Link { from: row[0]->Num_0, to: row[1]->Num_0 }
}

fn number(v: &DataValue) -> (r: i64)
    requires
        v.deep_view() is Num,
    ensures
        r == v.deep_view()->Num_0,
{
    match v {
        DataValue::Num(n) => *n,
        _ => 0,
    }
}

/// The edges that writes give as of an instant.
pub fn naive_present_edges(ws: &Vec<Write>, key_len: usize, at: i64) -> (r: OrderedSet<Link>)
    requires
        ws@.len() <= i64::MAX,
        forall|i: int| 0 <= i < ws@.len() ==> (#[trigger] ws@[i]).key@.len() == key_len,
        forall|row: Row| #[trigger]
            rows_as_of(ws@, at, true, true).contains(row) ==> is_edge_row(row),
    ensures
        r.wf(),
        forall|l: Link| #[trigger]
            r.deep_view().contains(l) == exists|row: Row| #[trigger]
                rows_as_of(ws@, at, true, true).contains(row) && l == row_link(row),
{
    let present = naive_asof(ws, key_len, at);
    let ghost set = present.deep_view();
    let ghost rows = present.items.deep_view();
    let mut out: OrderedSet<Link> = OrderedSet::new();
    let mut i: usize = 0;
    proof {
        assert forall|k: int| 0 <= k < rows.len() implies is_edge_row(#[trigger] rows[k]) by {
            assert(rows.contains(rows[k]));
            assert(set.contains(rows[k]));
        }
    }
    while i < present.items.len()
        invariant
            i <= present.items@.len(),
            rows == present.items.deep_view(),
            forall|k: int| 0 <= k < rows.len() ==> is_edge_row(#[trigger] rows[k]),
            out.wf(),
            forall|l: Link| #[trigger]
                out.deep_view().contains(l) == exists|k: int|
                    0 <= k < i && l == row_link(#[trigger] rows[k]),
        decreases present.items.len() - i,
    {
        let row = &present.items[i];
        proof {
            assert(rows[i as int] == row.deep_view());
            assert(is_edge_row(rows[i as int]));
            assert(row.deep_view().len() == row@.len());
            assert(row.deep_view()[0] == row@[0].deep_view());
            assert(row.deep_view()[1] == row@[1].deep_view());
        }
        let _ = out.insert(Link { from: number(&row[0]), to: number(&row[1]) });
        i = i + 1;
    }
    proof {
        assert(rows.len() == present.items@.len());
        assert forall|l: Link| #[trigger] out.deep_view().contains(l) == exists|row: Row| #[trigger]
            rows_as_of(ws@, at, true, true).contains(row) && l == row_link(row) by {
            if out.deep_view().contains(l) {
                let k = choose|k: int| 0 <= k < i && l == row_link(#[trigger] rows[k]);
                assert(rows.contains(rows[k]));
                assert(set.contains(rows[k]));
            }
            if exists|row: Row| #[trigger] set.contains(row) && l == row_link(row) {
                let row = choose|row: Row| #[trigger] set.contains(row) && l == row_link(row);
                let k = choose|k: int| 0 <= k < rows.len() && rows[k] == row;
                assert(l == row_link(rows[k]));
            }
        }
    }
    out
}

} // verus!
