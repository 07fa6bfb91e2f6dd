//! What the stored facts of a drawn program hold, whatever its seed.

use vstd::prelude::*;
use crate::aggr::Aggregation;
use crate::gen_rules::drawn_program;
use crate::generate::{
    after, drawn_row, drawn_rows, facts_at, node_row, node_rows, params_at, GenParams, RowKind,
    LOWEST,
};
use crate::program::stored_rows;
use crate::reach::{link_row, Link};
use crate::rng::{drawn, drawn_below, drawn_range, next_state};
use crate::value::Row;

verus! {

/// The names of the stored relations are five names.
pub proof fn lemma_fact_names()
    ensures
        "edge"@.len() == 4,
        "edge"@[0] == 'e',
        "edge"@[1] == 'd',
        "node"@.len() == 4,
        "node"@[0] == 'n',
        "node"@[1] == 'o',
        "seed"@.len() == 4,
        "seed"@[0] == 's',
        "seed"@[1] == 'e',
        "item"@.len() == 4,
        "item"@[0] == 'i',
        "item"@[1] == 't',
        "seed3"@.len() == 5,
        "seed3"@[0] == 's',
        "seed3"@[1] == 'e',
{
    reveal_strlit("edge");
    reveal_strlit("node");
    reveal_strlit("seed");
    reveal_strlit("item");
    reveal_strlit("seed3");
}

/// What a program holds is within bounds: it has six to fourteen nodes, and
/// its meet is one.
pub proof fn law_drawn_params(seed: u64)
    ensures
        6 <= params_at(seed).n_nodes < 15,
        params_at(seed).meet_op.meets(),
{
}

proof fn lemma_range(s: u64, lo: i64, hi: i64)
    requires
        lo < hi,
        hi - lo <= i64::MAX,
    ensures
        lo <= drawn_range(s, lo, hi) < hi,
{
    let n = (hi - lo) as u64;
    assert(n == hi - lo);
    assert(drawn(s) % n < n);
}

/// Whether a row is one of a kind.
pub open spec fn is_row_of(kind: RowKind, row: Row) -> bool {
    match kind {
        RowKind::Pair { first, second } => {
            &&& row.len() == 2
            &&& row[0] is Num && 0 <= row[0]->Num_0 < first
            &&& row[1] is Num && 0 <= row[1]->Num_0 < second
        },
        RowKind::Seeded { first, op } => {
            &&& row.len() == 2
            &&& row[0] is Num && 0 <= row[0]->Num_0 < first
            &&& match op {
                Aggregation::And | Aggregation::Or => row[1] is Bool,
                Aggregation::Union => row[1] is Members,
                _ => row[1] is Num && -10 <= row[1]->Num_0 < 10,
            }
        },
        RowKind::Triple { first } => {
            &&& row.len() == 3
            &&& row[0] is Num && 0 <= row[0]->Num_0 < first
            &&& row[1] is Num && -10 <= row[1]->Num_0 < 10
            &&& row[2] is Num && -10 <= row[2]->Num_0 < 10
        },
    }
}

proof fn lemma_row_of(s: u64, kind: RowKind)
    requires
        match kind {
            RowKind::Pair { first, second } => 0 < first && 0 < second,
            RowKind::Seeded { first, .. } => 0 < first,
            RowKind::Triple { first } => 0 < first,
        },
    ensures
        is_row_of(kind, drawn_row(s, kind).0),
{
    match kind {
        RowKind::Pair { first, second } => {
            lemma_range(s, 0, first);
            lemma_range(after(s, 1), 0, second);
            reveal_with_fuel(after, 3);
        },
        RowKind::Seeded { first, op } => {
            lemma_range(s, 0, first);
            reveal_with_fuel(after, 3);
            lemma_range(after(s, 1), LOWEST, 10);
        },
        RowKind::Triple { first } => {
            lemma_range(s, 0, first);
            reveal_with_fuel(after, 3);
            lemma_range(after(s, 1), LOWEST, 10);
            lemma_range(after(s, 2), LOWEST, 10);
        },
    }
}

/// Drawing a number of rows gives rows of the kind: one at least, and no more
/// than were drawn.
pub proof fn law_drawn_rows(s: u64, kind: RowKind, k: nat)
    requires
        match kind {
            RowKind::Pair { first, second } => 0 < first && 0 < second,
            RowKind::Seeded { first, .. } => 0 < first,
            RowKind::Triple { first } => 0 < first,
        },
    ensures
        drawn_rows(s, kind, k).0.finite(),
        drawn_rows(s, kind, k).0.len() <= k,
        k > 0 ==> drawn_rows(s, kind, k).0.len() > 0,
        forall|row: Row| #[trigger]
            drawn_rows(s, kind, k).0.contains(row) ==> is_row_of(kind, row),
    decreases k,
{
    if k > 0 {
        let before = drawn_rows(s, kind, (k - 1) as nat);
        law_drawn_rows(s, kind, (k - 1) as nat);
        lemma_row_of(before.1, kind);
        let now = before.0.insert(drawn_row(before.1, kind).0);
        assert(drawn_rows(s, kind, k).0 == now);
        assert(now.contains(drawn_row(before.1, kind).0));
        assert(now.len() <= before.0.len() + 1);
        if now.len() == 0 {
            assert(now =~= Set::<Row>::empty());
        }
    }
}

proof fn lemma_edge_facts(s: u64, p: GenParams)
    ensures
        stored_rows(facts_at(s, p), "edge"@) == drawn_rows(
            next_state(s),
            RowKind::Pair { first: p.n_nodes, second: p.n_nodes },
            drawn_below(s, (p.n_nodes * 3) as u64) as nat + 1,
        ).0,
{
    lemma_fact_names();
}

/// The edges of a drawn program: between one and three times the number of
/// its nodes, each between two of its nodes.
pub proof fn law_drawn_edges(seed: u64)
    ensures
        1 <= stored_rows(drawn_program(seed).facts, "edge"@).len() <= 3 * params_at(seed).n_nodes,
        forall|row: Row| #[trigger]
            stored_rows(drawn_program(seed).facts, "edge"@).contains(row) ==> exists|l: Link|
                row == #[trigger] link_row(l) && 0 <= l.from < params_at(seed).n_nodes && 0 <= l.to
                    < params_at(seed).n_nodes,
{
    let p = params_at(seed);
    let s = after(seed, 12);
    law_drawn_params(seed);
    lemma_edge_facts(s, p);
    lemma_edges_between(s, p.n_nodes, stored_rows(drawn_program(seed).facts, "edge"@));
}

proof fn lemma_edges_between(s: u64, n: i64, rows: Set<Row>)
    requires
        6 <= n < 15,
        rows == drawn_rows(
            next_state(s),
            RowKind::Pair { first: n, second: n },
            drawn_below(s, (n * 3) as u64) as nat + 1,
        ).0,
    ensures
        1 <= rows.len() <= 3 * n,
        forall|row: Row| #[trigger]
            rows.contains(row) ==> exists|l: Link|
                row == #[trigger] link_row(l) && 0 <= l.from < n && 0 <= l.to < n,
{
    let kind = RowKind::Pair { first: n, second: n };
    let d = (n * 3) as u64;
    let k = drawn_below(s, d) as nat + 1;
    law_drawn_rows(next_state(s), kind, k);
    assert(drawn_below(s, d) < d);
    assert forall|row: Row| #[trigger] rows.contains(row) implies exists|l: Link|
        row == #[trigger] link_row(l) && 0 <= l.from < n && 0 <= l.to < n by {
        assert(is_row_of(kind, row));
        let l = Link { from: row[0]->Num_0, to: row[1]->Num_0 };
        assert(row =~= link_row(l));
    }
}

/// The nodes of a drawn program are the numbers below their number.
pub proof fn law_drawn_nodes(seed: u64)
    ensures
        forall|row: Row| #[trigger]
            stored_rows(drawn_program(seed).facts, "node"@).contains(row) <==> row.len() == 1
                && row[0] is Num && 0 <= row[0]->Num_0 < params_at(seed).n_nodes,
{
    lemma_fact_names();
    let n = params_at(seed).n_nodes;
    let rows = stored_rows(drawn_program(seed).facts, "node"@);
    assert(rows == node_rows(n as int));
    assert forall|row: Row| #[trigger] rows.contains(row) <==> row.len() == 1 && row[0] is Num
        && 0 <= row[0]->Num_0 < n by {
        if row.len() == 1 && row[0] is Num && 0 <= row[0]->Num_0 < n {
            assert(row =~= node_row(row[0]->Num_0));
        }
    }
}

/// The seeds of a drawn program: one for each node at most, each a node and a
/// value of the type of the meet.
pub proof fn law_drawn_seeds(seed: u64)
    ensures
        1 <= stored_rows(drawn_program(seed).facts, "seed"@).len() <= params_at(seed).n_nodes,
        forall|row: Row| #[trigger]
            stored_rows(drawn_program(seed).facts, "seed"@).contains(row) ==> {
                &&& row.len() == 2
                &&& row[0] is Num && 0 <= row[0]->Num_0 < params_at(seed).n_nodes
                &&& match params_at(seed).meet_op {
                    Aggregation::And | Aggregation::Or => row[1] is Bool,
                    Aggregation::Union => row[1] is Members,
                    _ => row[1] is Num && -10 <= row[1]->Num_0 < 10,
                }
            },
{
    let p = params_at(seed);
    let s = after(seed, 12);
    let n = p.n_nodes;
    law_drawn_params(seed);
    lemma_fact_names();
    let e = drawn_rows(
        next_state(s),
        RowKind::Pair { first: n, second: n },
        drawn_below(s, (n * 3) as u64) as nat + 1,
    ).1;
    let k = drawn_below(e, n as u64) as nat + 1;
    let kind = RowKind::Seeded { first: n, op: p.meet_op };
    law_drawn_rows(next_state(e), kind, k);
    assert(stored_rows(drawn_program(seed).facts, "seed"@) == drawn_rows(
        next_state(e),
        kind,
        k,
    ).0);
    assert(k <= n) by {
        assert(drawn(e) % (n as u64) < n as u64);
    }
}

/// The bulk items of a drawn program: under three thousand, each a key below
/// a hundred and a number below fifty.
pub proof fn law_drawn_items(seed: u64)
    ensures
        1 <= stored_rows(drawn_program(seed).facts, "item"@).len() < 3000,
        forall|row: Row| #[trigger]
            stored_rows(drawn_program(seed).facts, "item"@).contains(row) ==> {
                &&& row.len() == 2
                &&& row[0] is Num && 0 <= row[0]->Num_0 < 100
                &&& row[1] is Num && 0 <= row[1]->Num_0 < 50
            },
{
    let p = params_at(seed);
    let s = after(seed, 12);
    let n = p.n_nodes;
    lemma_fact_names();
    let e = drawn_rows(
        next_state(s),
        RowKind::Pair { first: n, second: n },
        drawn_below(s, (n * 3) as u64) as nat + 1,
    ).1;
    let t = drawn_rows(
        next_state(e),
        RowKind::Seeded { first: n, op: p.meet_op },
        drawn_below(e, n as u64) as nat + 1,
    ).1;
    let keys = drawn_range(next_state(t), 20, 100);
    let count = drawn_range(t, 800, 3000);
    lemma_range(next_state(t), 20, 100);
    lemma_range(t, 800, 3000);
    let kind = RowKind::Pair { first: keys, second: 50 };
    let from = next_state(next_state(t));
    law_drawn_rows(from, kind, count as nat);
    assert(stored_rows(drawn_program(seed).facts, "item"@) == drawn_rows(
        from,
        kind,
        count as nat,
    ).0);
}

/// The seeds of two meets at once: none without such a meet, else one for
/// each node at most, each a node and two numbers.
pub proof fn law_drawn_double_seeds(seed: u64)
    ensures
        !params_at(seed).meet_interleaved ==> stored_rows(drawn_program(seed).facts, "seed3"@)
            == Set::<Row>::empty(),
        params_at(seed).meet_interleaved ==> 1 <= stored_rows(
            drawn_program(seed).facts,
            "seed3"@,
        ).len() <= params_at(seed).n_nodes,
        forall|row: Row| #[trigger]
            stored_rows(drawn_program(seed).facts, "seed3"@).contains(row) ==> {
                &&& row.len() == 3
                &&& row[0] is Num && 0 <= row[0]->Num_0 < params_at(seed).n_nodes
                &&& row[1] is Num && -10 <= row[1]->Num_0 < 10
                &&& row[2] is Num && -10 <= row[2]->Num_0 < 10
            },
{
    let p = params_at(seed);
    let s = after(seed, 12);
    let n = p.n_nodes;
    law_drawn_params(seed);
    lemma_fact_names();
    let e = drawn_rows(
        next_state(s),
        RowKind::Pair { first: n, second: n },
        drawn_below(s, (n * 3) as u64) as nat + 1,
    ).1;
    let t = drawn_rows(
        next_state(e),
        RowKind::Seeded { first: n, op: p.meet_op },
        drawn_below(e, n as u64) as nat + 1,
    ).1;
    let keys = drawn_range(next_state(t), 20, 100);
    let count = drawn_range(t, 800, 3000);
    let u = drawn_rows(
        next_state(next_state(t)),
        RowKind::Pair { first: keys, second: 50 },
        count as nat,
    ).1;
    let k = drawn_below(u, n as u64) as nat + 1;
    let kind = RowKind::Triple { first: n };
    law_drawn_rows(next_state(u), kind, k);
    if p.meet_interleaved {
        assert(stored_rows(drawn_program(seed).facts, "seed3"@) == drawn_rows(
            next_state(u),
            kind,
            k,
        ).0);
        assert(k <= n) by {
            assert(drawn(u) % (n as u64) < n as u64);
        }
    }
}

} // verus!
