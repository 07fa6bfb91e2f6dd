//! Programs from seeds: one number, one large program.

use vstd::prelude::*;
use crate::aggr::{sorted_members, Aggregation};
use crate::names::Name;
use crate::order::{lemma_sorted_unique, strictly_sorted, OrderedMap, OrderedSet};
use crate::program::{fact_sets, facts_wf};
use crate::rng::{drawn_below, drawn_chance, drawn_range, next_state, Rng};
use crate::value::{lemma_members_model, DataValue, Row, Tuple, Val};

verus! {

/// The lowest number of a drawn value of either sign.
pub const LOWEST: i64 = -10;

/// The state of a generator some numbers later.
pub open spec fn after(state: u64, k: nat) -> u64
    decreases k,
{
    if k == 0 {
        state
    } else {
        next_state(after(state, (k - 1) as nat))
    }
}

/// What a program holds, as its seed decides.
#[derive(Clone, Copy, Debug, PartialEq, Eq, Structural)]
pub struct GenParams {
    pub n_nodes: i64,
    pub self_join: bool,
    pub mutual: bool,
    pub two_dep: bool,
    /// A join of two recursive relations that no other rule repairs.
    pub cross_join: bool,
    pub negation: bool,
    pub normal_aggr: bool,
    pub bulk_aggr: bool,
    pub fixed_rule: bool,
    pub meet_op: Aggregation,
    /// The meet has its aggregated column first.
    pub meet_pos0: bool,
    /// A second meet has its grouping column between two aggregated ones.
    pub meet_interleaved: bool,
}

/// The meets that a program can have.
pub open spec fn meet_op_at(i: u64) -> Aggregation {
    if i == 0 {
        Aggregation::Min
    } else if i == 1 {
        Aggregation::Max
    } else if i == 2 {
        Aggregation::And
    } else if i == 3 {
        Aggregation::Or
    } else {
        Aggregation::Union
    }
}

/// What a state decides.
pub open spec fn params_at(s: u64) -> GenParams {
    GenParams {
        n_nodes: drawn_range(s, 6, 15),
        self_join: drawn_chance(after(s, 1), 1, 2),
        mutual: drawn_chance(after(s, 2), 1, 2),
        two_dep: drawn_chance(after(s, 3), 2, 5),
        cross_join: drawn_chance(after(s, 4), 3, 5),
        negation: drawn_chance(after(s, 5), 3, 5),
        normal_aggr: drawn_chance(after(s, 6), 3, 5),
        bulk_aggr: drawn_chance(after(s, 7), 4, 5),
        fixed_rule: drawn_chance(after(s, 8), 1, 2),
        meet_op: meet_op_at(drawn_below(after(s, 9), 5)),
        meet_pos0: drawn_chance(after(s, 10), 1, 2),
        meet_interleaved: drawn_chance(after(s, 11), 1, 2),
    }
}

/// Draw what a program holds.
pub fn gen_params(rng: &mut Rng) -> (r: GenParams)
    ensures
        r == params_at(old(rng).state),
        final(rng).state == after(old(rng).state, 12),
        6 <= r.n_nodes < 15,
{
    let ghost s = rng.state;
    proof {
        reveal_with_fuel(after, 13);
    }
    let n_nodes: i64 = rng.range(6, 15);
    let self_join = rng.chance(1, 2);
    let mutual = rng.chance(1, 2);
    let two_dep = rng.chance(2, 5);
    let cross_join = rng.chance(3, 5);
    let negation = rng.chance(3, 5);
    let normal_aggr = rng.chance(3, 5);
    let bulk_aggr = rng.chance(4, 5);
    let fixed_rule = rng.chance(1, 2);
    let meet_op = match rng.below(5) {
        0 => Aggregation::Min,
        1 => Aggregation::Max,
        2 => Aggregation::And,
        3 => Aggregation::Or,
        _ => Aggregation::Union,
    };
    let meet_pos0 = rng.chance(1, 2);
    let meet_interleaved = rng.chance(1, 2);
    GenParams {
        n_nodes,
        self_join,
        mutual,
        two_dep,
        cross_join,
        negation,
        normal_aggr,
        bulk_aggr,
        fixed_rule,
        meet_op,
        meet_pos0,
        meet_interleaved,
    }
}

/// The first numbers of a range that a state draws, as a set of values.
pub open spec fn drawn_members(s: u64, k: nat) -> Set<Val>
    decreases k,
{
    if k == 0 {
        Set::empty()
    } else {
        drawn_members(s, (k - 1) as nat).insert(Val::Num(drawn_range(after(s, (k - 1) as nat), 0, 4)))
    }
}

/// A value of the type of a meet, and the state behind it.
pub open spec fn drawn_meet_value(s: u64, op: Aggregation) -> (Val, u64) {
    match op {
        Aggregation::And | Aggregation::Or => (
            Val::Bool(drawn_chance(s, 1, 2)),
            next_state(s),
        ),
        Aggregation::Union => {
            let n = drawn_below(s, 3) as nat;
            (
                Val::Members(sorted_members(drawn_members(next_state(s), n))),
                after(next_state(s), n),
            )
        },
        _ => (Val::Num(drawn_range(s, LOWEST, 10)), next_state(s)),
    }
}

/// Draw a value of the type of a meet.
pub fn meet_value(rng: &mut Rng, op: Aggregation) -> (r: DataValue)
    ensures
        r.deep_view() == drawn_meet_value(old(rng).state, op).0,
        final(rng).state == drawn_meet_value(old(rng).state, op).1,
{
    match op {
        Aggregation::And | Aggregation::Or => DataValue::Bool(rng.chance(1, 2)),
        Aggregation::Union => {
            let n: u64 = rng.below(3);
            let ghost s = rng.state;
            let mut set: OrderedSet<DataValue> = OrderedSet::new();
            let mut i: u64 = 0;
            proof {
                assert(set.deep_view() =~= drawn_members(s, 0));
            }
            while i < n
                invariant
                    i <= n,
                    set.wf(),
                    rng.state == after(s, i as nat),
                    set.deep_view() == drawn_members(s, i as nat),
                decreases n - i,
            {
                let x: i64 = rng.range(0, 4);
                let _ = set.insert(DataValue::Num(x));
                i = i + 1;
            }
            let ghost items = set.items.deep_view();
            proof {
                let want = set.deep_view();
                assert(strictly_sorted::<DataValue>(items) && items.to_set() == want);
                let got = sorted_members(want);
                assert(strictly_sorted::<DataValue>(got) && got.to_set() == want);
                lemma_sorted_unique::<DataValue>(got, items);
                broadcast use lemma_members_model;
            }
            DataValue::Members(set.items)
        },
        _ => DataValue::Num(rng.range(LOWEST, 10)),
    }
}

/// What the rows of a drawn relation hold.
#[derive(Clone, Copy, Debug, PartialEq, Eq, Structural)]
pub enum RowKind {
    /// Two numbers, each from zero on.
    Pair { first: i64, second: i64 },
    /// A number from zero on, and a value of the type of a meet.
    Seeded { first: i64, op: Aggregation },
    /// A number from zero on, and two of either sign.
    Triple { first: i64 },
}

/// Whether the ranges of a kind of rows are not empty.
pub open spec fn can_draw(kind: RowKind) -> bool {
    match kind {
        RowKind::Pair { first, second } => 0 < first && 0 < second,
        RowKind::Seeded { first, .. } => 0 < first,
        RowKind::Triple { first } => 0 < first,
    }
}

/// The row that a state draws, and the state behind it.
pub open spec fn drawn_row(s: u64, kind: RowKind) -> (Row, u64) {
    match kind {
        RowKind::Pair { first, second } => (
            seq![
                Val::Num(drawn_range(s, 0, first)),
                Val::Num(drawn_range(next_state(s), 0, second)),
            ],
            next_state(next_state(s)),
        ),
        RowKind::Seeded { first, op } => {
            let v = drawn_meet_value(next_state(s), op);
            (seq![Val::Num(drawn_range(s, 0, first)), v.0], v.1)
        },
        RowKind::Triple { first } => (
            seq![
                Val::Num(drawn_range(s, 0, first)),
                Val::Num(drawn_range(next_state(s), LOWEST, 10)),
                Val::Num(drawn_range(next_state(next_state(s)), LOWEST, 10)),
            ],
            next_state(next_state(next_state(s))),
        ),
    }
}

/// The rows that a state draws, and the state behind them.
pub open spec fn drawn_rows(s: u64, kind: RowKind, k: nat) -> (Set<Row>, u64)
    decreases k,
{
    if k == 0 {
        (Set::empty(), s)
    } else {
        let before = drawn_rows(s, kind, (k - 1) as nat);
        let row = drawn_row(before.1, kind);
        (before.0.insert(row.0), row.1)
    }
}

fn draw_row(rng: &mut Rng, kind: RowKind) -> (r: Tuple)
    requires
        can_draw(kind),
    ensures
        r.deep_view() == drawn_row(old(rng).state, kind).0,
        final(rng).state == drawn_row(old(rng).state, kind).1,
{
    let ghost want = drawn_row(rng.state, kind).0;
    let mut out: Tuple = Vec::new();
    match kind {
        RowKind::Pair { first, second } => {
            out.push(DataValue::Num(rng.range(0, first)));
            out.push(DataValue::Num(rng.range(0, second)));
        },
        RowKind::Seeded { first, op } => {
            out.push(DataValue::Num(rng.range(0, first)));
            out.push(meet_value(rng, op));
        },
        RowKind::Triple { first } => {
            out.push(DataValue::Num(rng.range(0, first)));
            out.push(DataValue::Num(rng.range(LOWEST, 10)));
            out.push(DataValue::Num(rng.range(LOWEST, 10)));
        },
    }
    proof {
        assert(out.deep_view() =~= want);
    }
    out
}

/// Draw the rows of a relation.
fn draw_rows(rng: &mut Rng, kind: RowKind, count: u64) -> (r: OrderedSet<Tuple>)
    requires
        can_draw(kind),
    ensures
        r.wf(),
        r.deep_view() == drawn_rows(old(rng).state, kind, count as nat).0,
        final(rng).state == drawn_rows(old(rng).state, kind, count as nat).1,
{
    let ghost s = rng.state;
    let mut out: OrderedSet<Tuple> = OrderedSet::new();
    let mut i: u64 = 0;
    while i < count
        invariant
            i <= count,
            can_draw(kind),
            out.wf(),
            out.deep_view() == drawn_rows(s, kind, i as nat).0,
            rng.state == drawn_rows(s, kind, i as nat).1,
        decreases count - i,
    {
        let row = draw_row(rng, kind);
        let _ = out.insert(row);
        i = i + 1;
    }
    out
}

/// The nodes: the numbers below a bound, each as a row.
pub open spec fn node_rows(n: int) -> Set<Row> {
    Set::new(|row: Row| exists|i: i64| 0 <= i < n && row == #[trigger] node_row(i))
}

/// A node as a row.
pub open spec fn node_row(i: i64) -> Row {
    seq![Val::Num(i)]
}

fn make_nodes(n: i64) -> (r: OrderedSet<Tuple>)
    requires
        0 <= n,
    ensures
        r.wf(),
        r.deep_view() == node_rows(n as int),
{
    let mut out: OrderedSet<Tuple> = OrderedSet::new();
    let mut i: i64 = 0;
    proof {
        assert(out.deep_view() =~= node_rows(0));
    }
    while i < n
        invariant
            0 <= i <= n,
            out.wf(),
            out.deep_view() == node_rows(i as int),
        decreases n - i,
    {
        let mut row: Tuple = Vec::new();
        row.push(DataValue::Num(i));
        proof {
            assert(row.deep_view() =~= node_row(i));
            assert(node_rows(i + 1) =~= node_rows(i as int).insert(node_row(i)));
        }
        let _ = out.insert(row);
        i = i + 1;
    }
    out
}

/// The stored facts that a state draws, once what the program holds is drawn.
pub open spec fn facts_at(s: u64, p: GenParams) -> Map<Name, Set<Row>> {
    let n = p.n_nodes;
    let edges = drawn_rows(
        next_state(s),
        RowKind::Pair { first: n, second: n },
        drawn_below(s, (n * 3) as u64) as nat + 1,
    );
    let seeds = drawn_rows(
        next_state(edges.1),
        RowKind::Seeded { first: n, op: p.meet_op },
        drawn_below(edges.1, n as u64) as nat + 1,
    );
    let keys = drawn_range(next_state(seeds.1), 20, 100);
    let items = drawn_rows(
        next_state(next_state(seeds.1)),
        RowKind::Pair { first: keys, second: 50 },
        drawn_range(seeds.1, 800, 3000) as nat,
    );
    let base = Map::empty().insert("edge"@, edges.0).insert("node"@, node_rows(n as int)).insert(
        "seed"@,
        seeds.0,
    ).insert("item"@, items.0);
    if p.meet_interleaved {
        base.insert(
            "seed3"@,
            drawn_rows(
                next_state(items.1),
                RowKind::Triple { first: n },
                drawn_below(items.1, n as u64) as nat + 1,
            ).0,
        )
    } else {
        base
    }
}

fn store(
    facts: &mut OrderedMap<String, OrderedSet<Tuple>>,
    rel: &str,
    rows: OrderedSet<Tuple>,
)
    requires
        facts_wf(*old(facts)),
        rows.wf(),
    ensures
        facts_wf(*final(facts)),
        fact_sets(final(facts)@) == fact_sets(old(facts)@).insert(rel@, rows.deep_view()),
{
    let ghost before = facts@;
    facts.insert(rel.to_string(), rows);
    proof {
        assert(fact_sets(facts@) =~= fact_sets(before).insert(rel@, rows.deep_view()));
        assert forall|n: Name| #[trigger] facts@.contains_key(n) implies facts@[n].wf() by {
            if n != rel@ {
                assert(before.contains_key(n));
            }
        }
    }
}

/// Draw the stored facts.
pub(crate) fn gen_facts(rng: &mut Rng, p: GenParams) -> (r: OrderedMap<String, OrderedSet<Tuple>>)
    requires
        6 <= p.n_nodes < 15,
    ensures
        facts_wf(r),
        fact_sets(r@) == facts_at(old(rng).state, p),
{
    let n: i64 = p.n_nodes;
    let mut facts: OrderedMap<String, OrderedSet<Tuple>> = OrderedMap::new();
    proof {
        assert(fact_sets(facts@) =~= Map::<Name, Set<Row>>::empty());
    }
    let n_edges: u64 = rng.below((n * 3) as u64) + 1;
    let edges = draw_rows(rng, RowKind::Pair { first: n, second: n }, n_edges);
    store(&mut facts, "edge", edges);
    store(&mut facts, "node", make_nodes(n));
    let n_seeds: u64 = rng.below(n as u64) + 1;
    let seeds = draw_rows(rng, RowKind::Seeded { first: n, op: p.meet_op }, n_seeds);
    store(&mut facts, "seed", seeds);
    let n_items: i64 = rng.range(800, 3000);
    let n_keys: i64 = rng.range(20, 100);
    let items = draw_rows(rng, RowKind::Pair { first: n_keys, second: 50 }, n_items as u64);
    store(&mut facts, "item", items);
    if p.meet_interleaved {
        let n_third: u64 = rng.below(n as u64) + 1;
        let third = draw_rows(rng, RowKind::Triple { first: n }, n_third);
        store(&mut facts, "seed3", third);
    }
    facts
}

} // verus!
