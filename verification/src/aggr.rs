//! Aggregations, and the meet (semilattice) folds among them.

use vstd::prelude::*;
use crate::order::{lemma_sorted_unique, strictly_sorted, OrderedSet, Rank};
use crate::value::{
    lemma_members_model, lemma_val_irreflexive, lemma_val_total, lemma_val_transitive, rank_values,
    same_value, val_before, DataValue, Val,
};

verus! {

/// An aggregation operator of a rule head.
#[derive(Clone, Copy, Debug, PartialEq, Eq, Structural)]
pub enum Aggregation {
    And,
    Or,
    Min,
    Max,
    Union,
    Count,
    Sum,
}

/// The operand of a fold is not of the operator's type.
#[derive(Clone, Copy, Debug, PartialEq, Eq, Structural)]
pub struct AggrTypeError {
    pub aggr: Aggregation,
}

/// The aggregation of a name.
pub open spec fn named_aggr(name: Seq<char>) -> Option<Aggregation> {
    if name == "and"@ {
        Some(Aggregation::And)
    } else if name == "or"@ {
        Some(Aggregation::Or)
    } else if name == "min"@ {
        Some(Aggregation::Min)
    } else if name == "max"@ {
        Some(Aggregation::Max)
    } else if name == "union"@ {
        Some(Aggregation::Union)
    } else if name == "count"@ {
        Some(Aggregation::Count)
    } else if name == "sum"@ {
        Some(Aggregation::Sum)
    } else {
        None
    }
}

fn same_text(a: &str, b: &str) -> (r: bool)
    ensures
        r == (a@ == b@),
{
    match crate::value::rank_texts(a, b) {
        Rank::Same => true,
        _ => false,
    }
}

/// Look an aggregation up by its name.
pub fn parse_aggr(name: &str) -> (r: Option<Aggregation>)
    ensures
        r == named_aggr(name@),
{
    if same_text(name, "and") {
        Some(Aggregation::And)
    } else if same_text(name, "or") {
        Some(Aggregation::Or)
    } else if same_text(name, "min") {
        Some(Aggregation::Min)
    } else if same_text(name, "max") {
        Some(Aggregation::Max)
    } else if same_text(name, "union") {
        Some(Aggregation::Union)
    } else if same_text(name, "count") {
        Some(Aggregation::Count)
    } else if same_text(name, "sum") {
        Some(Aggregation::Sum)
    } else {
        None
    }
}

impl Aggregation {
    /// Whether the fold is a meet: idempotent, commutative and associative.
    pub open spec fn meets(self) -> bool {
        match self {
            Aggregation::Count => false,
            Aggregation::Sum => false,
            _ => true,
        }
    }

    pub fn is_meet(&self) -> (r: bool)
        ensures
            r == self.meets(),
    {
        match self {
            Aggregation::Count => false,
            Aggregation::Sum => false,
            _ => true,
        }
    }
}

/// The strictly increasing enumeration of a set of values.
pub open spec fn sorted_members(s: Set<Val>) -> Seq<Val> {
    choose|m: Seq<Val>| strictly_sorted::<DataValue>(m) && m.to_set() == s
}

/// The enumeration of a set that has one.
pub proof fn lemma_sorted_members(m: Seq<Val>)
    requires
        strictly_sorted::<DataValue>(m),
    ensures
        sorted_members(m.to_set()) == m,
{
    let s = m.to_set();
    assert(strictly_sorted::<DataValue>(m) && m.to_set() == s);
    let c = sorted_members(s);
    assert(strictly_sorted::<DataValue>(c) && c.to_set() == s);
    lemma_sorted_unique::<DataValue>(c, m);
}

/// What folding `b` into `a` gives; nothing if an operand is not of the
/// operator's type or the operator is no meet. `Null` is the identity of `min`
/// and `max`.
pub open spec fn meet(op: Aggregation, a: Val, b: Val) -> Option<Val> {
    match op {
        Aggregation::And => match (a, b) {
            (Val::Bool(x), Val::Bool(y)) => Some(Val::Bool(x && y)),
            _ => None,
        },
        Aggregation::Or => match (a, b) {
            (Val::Bool(x), Val::Bool(y)) => Some(Val::Bool(x || y)),
            _ => None,
        },
        Aggregation::Min => if b is Null {
            Some(a)
        } else if a is Null || val_before(b, a) {
            Some(b)
        } else {
            Some(a)
        },
        Aggregation::Max => if val_before(a, b) {
            Some(b)
        } else {
            Some(a)
        },
        Aggregation::Union => match (a, b) {
            (Val::Members(x), Val::Members(y)) => Some(
                Val::Members(sorted_members(x.to_set().union(y.to_set()))),
            ),
            _ => None,
        },
        Aggregation::Count => None,
        Aggregation::Sum => None,
    }
}

/// A value an operator can fold.
pub open spec fn typed(op: Aggregation, v: Val) -> bool {
    match op {
        Aggregation::And | Aggregation::Or => v is Bool,
        Aggregation::Min | Aggregation::Max => true,
        Aggregation::Union => v is Members && strictly_sorted::<DataValue>(v->Members_0),
        Aggregation::Count | Aggregation::Sum => false,
    }
}

/// The union of two enumerated sets has an enumeration.
proof fn lemma_union_enumerable(x: Seq<Val>, y: Seq<Val>) -> (m: Seq<Val>)
    requires
        strictly_sorted::<DataValue>(x),
    ensures
        strictly_sorted::<DataValue>(m),
        m.to_set() == x.to_set().union(y.to_set()),
    decreases y.len(),
{
    if y.len() == 0 {
        assert(x.to_set().union(y.to_set()) =~= x.to_set());
        x
    } else {
        let rest = lemma_union_enumerable(x, y.drop_last());
        let v = y.last();
        crate::order::lemma_take_step(y, y.len() - 1);
        assert(y.take(y.len() - 1) =~= y.drop_last());
        assert(y.take(y.len() as int) =~= y);
        assert(x.to_set().union(y.to_set()) =~= x.to_set().union(y.drop_last().to_set()).insert(v));
        if rest.contains(v) {
            assert(rest.to_set().insert(v) =~= rest.to_set());
            rest
        } else {
            let at = lemma_place_exists(rest, v, 0);
            crate::order::lemma_insert_sorted::<DataValue>(rest, v, at);
            rest.insert(at, v)
        }
    }
}

proof fn lemma_place_exists(s: Seq<Val>, v: Val, from: int) -> (at: int)
    requires
        strictly_sorted::<DataValue>(s),
        0 <= from <= s.len(),
        forall|j: int| 0 <= j < from ==> val_before(#[trigger] s[j], v),
    ensures
        crate::order::is_place::<DataValue>(s, v, at),
    decreases s.len() - from,
{
    if from < s.len() && val_before(s[from], v) {
        lemma_place_exists(s, v, from + 1)
    } else {
        assert forall|j: int| from <= j < s.len() implies !val_before(#[trigger] s[j], v) by {
            if j > from && val_before(s[j], v) {
                assert(val_before(s[from], s[j]));
                lemma_val_transitive(s[from], s[j], v);
            }
        }
        from
    }
}

/// Folding typed values gives a typed value.
pub proof fn lemma_meet_typed(op: Aggregation, a: Val, b: Val)
    requires
        typed(op, a),
        typed(op, b),
    ensures
        meet(op, a, b) is Some,
        typed(op, meet(op, a, b)->Some_0),
        op is Union ==> meet(op, a, b)->Some_0->Members_0.to_set() == a->Members_0.to_set().union(
            b->Members_0.to_set(),
        ),
{
    if op is Union {
        let m = lemma_union_enumerable(a->Members_0, b->Members_0);
        lemma_sorted_members(m);
    }
}

/// Folding a value into itself changes nothing.
pub proof fn law_meet_idempotent(op: Aggregation, a: Val)
    requires
        typed(op, a),
    ensures
        meet(op, a, a) == Some(a),
{
    lemma_val_irreflexive(a);
    if op is Union {
        let x = a->Members_0;
        assert(x.to_set().union(x.to_set()) =~= x.to_set());
        lemma_sorted_members(x);
    }
}

/// The order of two operands does not matter.
pub proof fn law_meet_commutative(op: Aggregation, a: Val, b: Val)
    requires
        typed(op, a),
        typed(op, b),
    ensures
        meet(op, a, b) == meet(op, b, a),
{
    lemma_val_total(a, b);
    if val_before(a, b) && val_before(b, a) {
        lemma_val_transitive(a, b, a);
        lemma_val_irreflexive(a);
    }
    if op is Union {
        assert(a->Members_0.to_set().union(b->Members_0.to_set()) =~= b->Members_0.to_set().union(
            a->Members_0.to_set(),
        ));
    }
}

/// The grouping of three operands does not matter.
pub proof fn law_meet_associative(op: Aggregation, a: Val, b: Val, c: Val)
    requires
        typed(op, a),
        typed(op, b),
        typed(op, c),
    ensures
        meet(op, meet(op, a, b)->Some_0, c) == meet(op, a, meet(op, b, c)->Some_0),
{
    lemma_meet_typed(op, a, b);
    lemma_meet_typed(op, b, c);
    lemma_val_total(a, b);
    lemma_val_total(b, c);
    lemma_val_total(a, c);
    lemma_val_irreflexive(a);
    lemma_val_irreflexive(b);
    lemma_val_irreflexive(c);
    lemma_order_triple(a, b, c);
    lemma_order_triple(c, b, a);
    if op is Union {
        let x = a->Members_0;
        let y = b->Members_0;
        let z = c->Members_0;
        assert(x.to_set().union(y.to_set()).union(z.to_set()) =~= x.to_set().union(
            y.to_set().union(z.to_set()),
        ));
    }
}

proof fn lemma_order_triple(a: Val, b: Val, c: Val)
    ensures
        val_before(a, b) && val_before(b, c) ==> val_before(a, c),
        val_before(b, a) && val_before(a, c) ==> val_before(b, c),
        val_before(a, c) && val_before(c, b) ==> val_before(a, b),
        val_before(a, b) ==> !val_before(b, a),
        val_before(a, c) ==> !val_before(c, a),
        val_before(b, c) ==> !val_before(c, b),
{
    if val_before(a, b) && val_before(b, c) {
        lemma_val_transitive(a, b, c);
    }
    if val_before(b, a) && val_before(a, c) {
        lemma_val_transitive(b, a, c);
    }
    if val_before(a, c) && val_before(c, b) {
        lemma_val_transitive(a, c, b);
    }
    if val_before(a, b) && val_before(b, a) {
        lemma_val_transitive(a, b, a);
        lemma_val_irreflexive(a);
    }
    if val_before(a, c) && val_before(c, a) {
        lemma_val_transitive(a, c, a);
        lemma_val_irreflexive(a);
    }
    if val_before(b, c) && val_before(c, b) {
        lemma_val_transitive(b, c, b);
        lemma_val_irreflexive(b);
    }
}

/// Fold `right` into a copy of `left`: the folded value, and whether it
/// differs from `left`.
pub fn meet_values(op: Aggregation, left: &DataValue, right: &DataValue) -> (r: Result<
    (DataValue, bool),
    AggrTypeError,
>)
    ensures
        match r {
            Ok(vc) => {
                &&& meet(op, left.deep_view(), right.deep_view()) == Some(vc.0.deep_view())
                &&& vc.1 == (vc.0.deep_view() != left.deep_view())
            },
            Err(e) => meet(op, left.deep_view(), right.deep_view()) is None && e == (
            AggrTypeError { aggr: op }),
        },
{
    proof {
        broadcast use lemma_members_model;

        lemma_val_irreflexive(left.deep_view());
    }
    match op {
        Aggregation::And => match (left, right) {
            (DataValue::Bool(x), DataValue::Bool(y)) => {
                let v = *x && *y;
                Ok((DataValue::Bool(v), v != *x))
            },
            _ => Err(AggrTypeError { aggr: op }),
        },
        Aggregation::Or => match (left, right) {
            (DataValue::Bool(x), DataValue::Bool(y)) => {
                let v = *x || *y;
                Ok((DataValue::Bool(v), v != *x))
            },
            _ => Err(AggrTypeError { aggr: op }),
        },
        Aggregation::Min => {
            let right_null = matches!(right, DataValue::Null);
            let left_null = matches!(left, DataValue::Null);
            let take = if right_null {
                false
            } else if left_null {
                true
            } else {
                match rank_values(right, left) {
                    Rank::Before => true,
                    _ => false,
                }
            };
            if take {
                Ok((right.clone(), true))
            } else {
                Ok((left.clone(), false))
            }
        },
        Aggregation::Max => match rank_values(left, right) {
            Rank::Before => Ok((right.clone(), true)),
            _ => Ok((left.clone(), false)),
        },
        Aggregation::Union => match (left, right) {
            (DataValue::Members(x), DataValue::Members(y)) => {
                let joined = crate::history::joined(x, y);
                let ghost all = joined.deep_view();
                let set = OrderedSet::from_vec(joined);
                proof {
                    let a = x.deep_view();
                    let b = y.deep_view();
                    assert(all == a + b);
                    vstd::seq_lib::seq_to_set_distributes_over_add(a, b);
                    assert(all.to_set() =~= a.to_set().union(b.to_set()));
                    lemma_sorted_members(set.items.deep_view());
                }
                let merged = DataValue::Members(set.items);
                let changed = !same_value(&merged, left);
                Ok((merged, changed))
            },
            _ => Err(AggrTypeError { aggr: op }),
        },
        Aggregation::Count => Err(AggrTypeError { aggr: op }),
        Aggregation::Sum => Err(AggrTypeError { aggr: op }),
    }
}

} // verus!
