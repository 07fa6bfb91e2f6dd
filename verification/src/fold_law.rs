//! What meet aggregations fold to: truth of all or of some, the least or the
//! greatest value, the union of sets.

use vstd::prelude::*;
use crate::aggr::{lemma_meet_typed, meet, named_aggr, Aggregation};
use crate::meet_law::puts;
use crate::order::strictly_sorted;
use crate::temp_store::{groups_put, meet_rows, project, Layout};
use crate::value::{lemma_val_irreflexive, lemma_val_transitive, val_before, DataValue, Row, Val};

verus! {

/// What a list of values folds to, the first taken as it is and each next one
/// folded in; nothing if one cannot be folded.
pub open spec fn fold(op: Aggregation, vs: Seq<Val>) -> Option<Val>
    decreases vs.len(),
{
    if vs.len() == 0 {
        None
    } else if vs.len() == 1 {
        Some(vs[0])
    } else {
        match fold(op, vs.drop_last()) {
            Some(a) => meet(op, a, vs.last()),
            None => None,
        }
    }
}

/// Truth values as values.
pub open spec fn truths(bs: Seq<bool>) -> Seq<Val> {
    Seq::new(bs.len(), |i: int| Val::Bool(bs[i]))
}

/// Under `and`, truth values fold to true exactly where every one is true;
/// under `or`, exactly where some one is.
pub proof fn law_fold_of_truths(bs: Seq<bool>)
    requires
        bs.len() > 0,
    ensures
        fold(Aggregation::And, truths(bs)) == Some(
            Val::Bool(forall|i: int| 0 <= i < bs.len() ==> #[trigger] bs[i]),
        ),
        fold(Aggregation::Or, truths(bs)) == Some(
            Val::Bool(exists|i: int| 0 <= i < bs.len() && #[trigger] bs[i]),
        ),
    decreases bs.len(),
{
    if bs.len() > 1 {
        let rest = bs.drop_last();
        let n = bs.len() - 1;
        law_fold_of_truths(rest);
        assert(truths(bs).drop_last() =~= truths(rest));
        assert((forall|i: int| 0 <= i < bs.len() ==> #[trigger] bs[i]) == ((forall|i: int|
            0 <= i < rest.len() ==> #[trigger] rest[i]) && bs[n])) by {
            if (forall|i: int| 0 <= i < rest.len() ==> #[trigger] rest[i]) && bs[n] {
                assert forall|i: int| 0 <= i < bs.len() implies #[trigger] bs[i] by {
                    if i < n {
                        assert(rest[i]);
                    }
                }
            }
            if forall|i: int| 0 <= i < bs.len() ==> #[trigger] bs[i] {
                assert forall|i: int| 0 <= i < rest.len() implies #[trigger] rest[i] by {
                    assert(bs[i]);
                }
            }
        }
        assert((exists|i: int| 0 <= i < bs.len() && #[trigger] bs[i]) == ((exists|i: int|
            0 <= i < rest.len() && #[trigger] rest[i]) || bs[n])) by {
            if exists|i: int| 0 <= i < bs.len() && #[trigger] bs[i] {
                let i = choose|i: int| 0 <= i < bs.len() && #[trigger] bs[i];
                if i < n {
                    assert(rest[i]);
                }
            }
            if exists|i: int| 0 <= i < rest.len() && #[trigger] rest[i] {
                let i = choose|i: int| 0 <= i < rest.len() && #[trigger] rest[i];
                assert(bs[i]);
            }
        }
    } else {
        assert(bs[0] || !bs[0]);
    }
}

/// Under `max`, values fold to one of them that none comes after.
pub proof fn law_fold_to_greatest(vs: Seq<Val>)
    requires
        vs.len() > 0,
    ensures
        fold(Aggregation::Max, vs) is Some,
        vs.contains(fold(Aggregation::Max, vs)->Some_0),
        forall|i: int|
            0 <= i < vs.len() ==> !val_before(
                fold(Aggregation::Max, vs)->Some_0,
                #[trigger] vs[i],
            ),
    decreases vs.len(),
{
    let m = fold(Aggregation::Max, vs)->Some_0;
    if vs.len() > 1 {
        let rest = vs.drop_last();
        law_fold_to_greatest(rest);
        let r = fold(Aggregation::Max, rest)->Some_0;
        let i = choose|i: int| 0 <= i < rest.len() && rest[i] == r;
        assert(vs[i] == r);
        assert(vs[vs.len() - 1] == vs.last());
        lemma_val_irreflexive(vs.last());
        assert forall|i: int| 0 <= i < vs.len() implies !val_before(m, #[trigger] vs[i]) by {
            if i < rest.len() {
                assert(!val_before(r, rest[i]));
                if val_before(r, vs.last()) && val_before(vs.last(), vs[i]) {
                    lemma_val_transitive(r, vs.last(), vs[i]);
                }
            }
        }
    } else {
        assert(vs.contains(vs[0]));
        lemma_val_irreflexive(vs[0]);
    }
}

/// Under `min`, values fold to one of them that none but null comes before,
/// and to null only where all are null.
pub proof fn law_fold_to_least(vs: Seq<Val>)
    requires
        vs.len() > 0,
    ensures
        fold(Aggregation::Min, vs) is Some,
        vs.contains(fold(Aggregation::Min, vs)->Some_0),
        forall|i: int|
            0 <= i < vs.len() && #[trigger] vs[i] != Val::Null ==> fold(
                Aggregation::Min,
                vs,
            )->Some_0 != Val::Null && !val_before(vs[i], fold(Aggregation::Min, vs)->Some_0),
    decreases vs.len(),
{
    let m = fold(Aggregation::Min, vs)->Some_0;
    if vs.len() > 1 {
        let rest = vs.drop_last();
        law_fold_to_least(rest);
        let r = fold(Aggregation::Min, rest)->Some_0;
        let i = choose|i: int| 0 <= i < rest.len() && rest[i] == r;
        assert(vs[i] == r);
        assert(vs[vs.len() - 1] == vs.last());
        lemma_val_irreflexive(vs.last());
        assert forall|i: int| 0 <= i < vs.len() && #[trigger] vs[i] != Val::Null implies m
            != Val::Null && !val_before(vs[i], m) by {
            if i < rest.len() {
                assert(rest[i] != Val::Null);
                assert(!val_before(rest[i], r));
                if m == vs.last() && m != r && val_before(vs[i], m) {
                    lemma_val_transitive(vs[i], m, r);
                }
            }
        }
    } else {
        assert(vs.contains(vs[0]));
        lemma_val_irreflexive(vs[0]);
    }
}

/// Under `union`, sets fold to the set of what is in some one of them, listed
/// in order.
pub proof fn law_fold_to_union(vs: Seq<Val>)
    requires
        vs.len() > 0,
        forall|i: int|
            0 <= i < vs.len() ==> (#[trigger] vs[i]) is Members && strictly_sorted::<DataValue>(
                vs[i]->Members_0,
            ),
    ensures
        fold(Aggregation::Union, vs) is Some,
        fold(Aggregation::Union, vs)->Some_0 is Members,
        strictly_sorted::<DataValue>(fold(Aggregation::Union, vs)->Some_0->Members_0),
        forall|x: Val| #[trigger]
            fold(Aggregation::Union, vs)->Some_0->Members_0.contains(x) <==> exists|i: int|
                0 <= i < vs.len() && (#[trigger] vs[i])->Members_0.contains(x),
    decreases vs.len(),
{
    let n = vs.len() - 1;
    if vs.len() > 1 {
        let rest = vs.drop_last();
        assert forall|i: int| 0 <= i < rest.len() implies (#[trigger] rest[i]) is Members
            && strictly_sorted::<DataValue>(rest[i]->Members_0) by {
            assert(rest[i] == vs[i]);
        }
        law_fold_to_union(rest);
        let r = fold(Aggregation::Union, rest)->Some_0;
        assert(vs[n] is Members && strictly_sorted::<DataValue>(vs[n]->Members_0));
        lemma_meet_typed(Aggregation::Union, r, vs.last());
        let m = fold(Aggregation::Union, vs)->Some_0;
        assert forall|x: Val| #[trigger] m->Members_0.contains(x) <==> exists|i: int|
            0 <= i < vs.len() && (#[trigger] vs[i])->Members_0.contains(x) by {
            assert(m->Members_0.to_set().contains(x) == (r->Members_0.to_set().contains(x)
                || vs.last()->Members_0.to_set().contains(x)));
            assert(m->Members_0.contains(x) == (r->Members_0.contains(x)
                || vs[n]->Members_0.contains(x)));
            if r->Members_0.contains(x) {
                let i = choose|i: int|
                    0 <= i < rest.len() && (#[trigger] rest[i])->Members_0.contains(x);
                assert(vs[i]->Members_0.contains(x));
            }
            if exists|i: int| 0 <= i < vs.len() && (#[trigger] vs[i])->Members_0.contains(x) {
                let i = choose|i: int|
                    0 <= i < vs.len() && (#[trigger] vs[i])->Members_0.contains(x);
                if i < n {
                    assert(rest[i]->Members_0.contains(x));
                }
            }
        }
    } else {
        assert(vs[0] is Members);
        assert forall|x: Val| #[trigger] vs[0]->Members_0.contains(x) <==> exists|i: int|
            0 <= i < vs.len() && (#[trigger] vs[i])->Members_0.contains(x) by {
            if exists|i: int| 0 <= i < vs.len() && (#[trigger] vs[i])->Members_0.contains(x) {
                let i = choose|i: int|
                    0 <= i < vs.len() && (#[trigger] vs[i])->Members_0.contains(x);
                assert(i == 0);
            }
        }
    }
}

/// Two or more values fold under `and` and `or` exactly where all are truth
/// values, under `union` exactly where all are sets, under `min` and `max`
/// always, and under `count` and `sum` never.
pub proof fn law_what_folds(op: Aggregation, vs: Seq<Val>)
    requires
        vs.len() >= 2,
    ensures
        fold(op, vs) is Some <==> match op {
            Aggregation::And | Aggregation::Or => forall|i: int|
                0 <= i < vs.len() ==> (#[trigger] vs[i]) is Bool,
            Aggregation::Union => forall|i: int|
                0 <= i < vs.len() ==> (#[trigger] vs[i]) is Members,
            Aggregation::Min | Aggregation::Max => true,
            Aggregation::Count | Aggregation::Sum => false,
        },
        fold(op, vs) is Some && (op is And || op is Or) ==> fold(op, vs)->Some_0 is Bool,
        fold(op, vs) is Some && op is Union ==> fold(op, vs)->Some_0 is Members,
    decreases vs.len(),
{
    let rest = vs.drop_last();
    let n = vs.len() - 1;
    assert(vs[n] == vs.last());
    assert forall|i: int| 0 <= i < rest.len() implies rest[i] == #[trigger] vs[i] by {}
    if vs.len() == 2 {
        assert(fold(op, rest) == Some(vs[0])) by {
            assert(rest.len() == 1 && rest[0] == vs[0]);
        }
        assert forall|i: int| 0 <= i < vs.len() implies (#[trigger] vs[i]) == vs[0] || vs[i]
            == vs[1] by {
            assert(i == 0 || i == 1);
        }
    } else {
        law_what_folds(op, rest);
        if fold(op, vs) is Some {
            assert forall|i: int| 0 <= i < vs.len() && (op is And || op is Or) implies (
            #[trigger] vs[i]) is Bool by {
                if i < n {
                    assert(rest[i] is Bool);
                }
            }
            assert forall|i: int| 0 <= i < vs.len() && op is Union implies (
            #[trigger] vs[i]) is Members by {
                if i < n {
                    assert(rest[i] is Members);
                }
            }
        } else {
            if op is And || op is Or {
                assert(exists|i: int| 0 <= i < vs.len() && !((#[trigger] vs[i]) is Bool)) by {
                    if fold(op, rest) is None {
                        let i = choose|i: int| 0 <= i < rest.len() && !((#[trigger] rest[i]) is Bool);
                        assert(!(vs[i] is Bool));
                    } else {
                        assert(!(vs[n] is Bool));
                    }
                }
            }
            if op is Union {
                assert(exists|i: int| 0 <= i < vs.len() && !((#[trigger] vs[i]) is Members)) by {
                    if fold(op, rest) is None {
                        let i = choose|i: int|
                            0 <= i < rest.len() && !((#[trigger] rest[i]) is Members);
                        assert(!(vs[i] is Members));
                    } else {
                        assert(!(vs[n] is Members));
                    }
                }
            }
        }
    }
}

/// The values that head tuples with a key have at an aggregated place, in
/// order.
pub open spec fn values_at(layout: Layout, rows: Seq<Row>, key: Row, i: int) -> Seq<Val>
    decreases rows.len(),
{
    if rows.len() == 0 {
        Seq::empty()
    } else {
        let before = values_at(layout, rows.drop_last(), key, i);
        if project(rows.last(), layout.key_positions) == key {
            before.push(project(rows.last(), layout.val_positions)[i])
        } else {
            before
        }
    }
}

/// Groups that head tuples leave are those of the tuples' keys, and each
/// holds at each aggregated place what the values of its tuples there fold
/// to. The tuples are refused exactly where some such values do not fold.
pub proof fn law_groups_hold_folds(ops: Seq<Aggregation>, layout: Layout, rows: Seq<Row>)
    requires
        layout.val_positions.len() == ops.len(),
    ensures
        puts(ops, layout, Map::empty(), rows) is Some ==> forall|key: Row| #[trigger]
            puts(ops, layout, Map::empty(), rows)->Some_0.contains_key(key) <==> exists|j: int|
                0 <= j < rows.len() && project(#[trigger] rows[j], layout.key_positions) == key,
        puts(ops, layout, Map::empty(), rows) is Some ==> forall|key: Row, i: int|
            puts(ops, layout, Map::empty(), rows)->Some_0.contains_key(key) && 0 <= i < ops.len()
                ==> fold(ops[i], #[trigger] values_at(layout, rows, key, i)) == Some(
                puts(ops, layout, Map::empty(), rows)->Some_0[key][i],
            ),
        puts(ops, layout, Map::empty(), rows) is None ==> exists|key: Row, i: int|
            0 <= i < ops.len() && (#[trigger] values_at(layout, rows, key, i)).len() > 0 && fold(
                ops[i],
                values_at(layout, rows, key, i),
            ) is None,
    decreases rows.len(),
{
    let none = Map::<Row, Row>::empty();
    if rows.len() > 0 {
        let rest = rows.drop_last();
        let n = rows.len() - 1;
        let row = rows.last();
        let at = project(row, layout.key_positions);
        let vals = project(row, layout.val_positions);
        law_groups_hold_folds(ops, layout, rest);
        assert forall|key: Row, i: int| 0 <= i < ops.len() implies (#[trigger] values_at(
            layout,
            rows,
            key,
            i,
        )) == (if key == at {
            values_at(layout, rest, key, i).push(vals[i])
        } else {
            values_at(layout, rest, key, i)
        }) by {}
        match puts(ops, layout, none, rest) {
            Some(before) => {
                assert forall|key: Row, i: int| 0 <= i < ops.len() implies ((
                #[trigger] values_at(layout, rest, key, i)).len() > 0) == before.contains_key(
                    key,
                ) by {
                    lemma_values_at(layout, rest, key, i);
                }
                match groups_put(ops, layout, before, row) {
                    Some(groups) => {
                        assert forall|key: Row| #[trigger]
                            groups.contains_key(key) <==> exists|j: int|
                                0 <= j < rows.len() && project(
                                    #[trigger] rows[j],
                                    layout.key_positions,
                                ) == key by {
                            assert(groups.contains_key(key) == (before.contains_key(key) || key
                                == at));
                            if before.contains_key(key) {
                                let j = choose|j: int|
                                    0 <= j < rest.len() && project(
                                        #[trigger] rest[j],
                                        layout.key_positions,
                                    ) == key;
                                assert(rows[j] == rest[j]);
                            }
                            if key == at {
                                assert(rows[n] == row);
                            }
                            if exists|j: int|
                                0 <= j < rows.len() && project(
                                    #[trigger] rows[j],
                                    layout.key_positions,
                                ) == key {
                                let j = choose|j: int|
                                    0 <= j < rows.len() && project(
                                        #[trigger] rows[j],
                                        layout.key_positions,
                                    ) == key;
                                if j < n {
                                    assert(rest[j] == rows[j]);
                                }
                            }
                        }
                        assert forall|key: Row, i: int|
                            groups.contains_key(key) && 0 <= i < ops.len() implies fold(
                            ops[i],
                            #[trigger] values_at(layout, rows, key, i),
                        ) == Some(groups[key][i]) by {
                            let was = values_at(layout, rest, key, i);
                            let now = values_at(layout, rows, key, i);
                            if key == at {
                                assert(now == was.push(vals[i]));
                                assert(now.drop_last() =~= was);
                                if before.contains_key(key) {
                                    assert(fold(ops[i], was) == Some(before[key][i]));
                                    let m = meet_rows(ops, before[at], vals);
                                    assert(meet(ops[i], before[at][i], vals[i]) is Some);
                                    assert(m->Some_0[i] == meet(
                                        ops[i],
                                        before[at][i],
                                        vals[i],
                                    )->Some_0);
                                }
                            }
                        }
                    },
                    None => {
                        let i = choose|i: int|
                            0 <= i < ops.len() && (#[trigger] meet(
                                ops[i],
                                before[at][i],
                                vals[i],
                            )) is None;
                        let was = values_at(layout, rest, at, i);
                        let now = values_at(layout, rows, at, i);
                        assert(now == was.push(vals[i]));
                        assert(now.drop_last() =~= was);
                        assert(fold(ops[i], was) == Some(before[at][i]));
                        assert(fold(ops[i], now) is None);
                    },
                }
            },
            None => {
                let (key, i) = choose|key: Row, i: int|
                    0 <= i < ops.len() && (#[trigger] values_at(layout, rest, key, i)).len() > 0
                        && fold(ops[i], values_at(layout, rest, key, i)) is None;
                let was = values_at(layout, rest, key, i);
                let now = values_at(layout, rows, key, i);
                if key == at {
                    assert(now == was.push(vals[i]));
                    assert(now.drop_last() =~= was);
                }
                assert(fold(ops[i], now) is None);
            },
        }
    }
}

/// There are values at a place exactly where a tuple has the key, and each is
/// that of such a tuple.
proof fn lemma_values_at(layout: Layout, rows: Seq<Row>, key: Row, i: int)
    ensures
        values_at(layout, rows, key, i).len() > 0 <==> exists|j: int|
            0 <= j < rows.len() && project(#[trigger] rows[j], layout.key_positions) == key,
        forall|v: Val| #[trigger]
            values_at(layout, rows, key, i).contains(v) <==> exists|j: int|
                0 <= j < rows.len() && project(#[trigger] rows[j], layout.key_positions) == key
                    && project(rows[j], layout.val_positions)[i] == v,
    decreases rows.len(),
{
    let now = values_at(layout, rows, key, i);
    if rows.len() > 0 {
        let rest = rows.drop_last();
        let n = rows.len() - 1;
        let was = values_at(layout, rest, key, i);
        lemma_values_at(layout, rest, key, i);
        assert forall|j: int| 0 <= j < rest.len() implies #[trigger] rest[j] == rows[j] by {}
        if project(rows.last(), layout.key_positions) == key {
            assert(rows[n] == rows.last());
            assert(now == was.push(project(rows[n], layout.val_positions)[i]));
            assert(now[was.len() as int] == project(rows[n], layout.val_positions)[i]);
        } else {
            assert(now == was);
        }
        assert forall|v: Val| #[trigger] now.contains(v) <==> exists|j: int|
            0 <= j < rows.len() && project(#[trigger] rows[j], layout.key_positions) == key
                && project(rows[j], layout.val_positions)[i] == v by {
            if was.contains(v) {
                let q = choose|q: int| 0 <= q < was.len() && was[q] == v;
                assert(now[q] == v);
                let j = choose|j: int|
                    0 <= j < rest.len() && project(#[trigger] rest[j], layout.key_positions) == key
                        && project(rest[j], layout.val_positions)[i] == v;
                assert(rows[j] == rest[j]);
            }
            if now.contains(v) && !was.contains(v) {
                let q = choose|q: int| 0 <= q < now.len() && now[q] == v;
                if q < was.len() {
                    assert(was[q] == v);
                }
                assert(rows[n] == rows.last());
            }
            if exists|j: int|
                0 <= j < rows.len() && project(#[trigger] rows[j], layout.key_positions) == key
                    && project(rows[j], layout.val_positions)[i] == v {
                let j = choose|j: int|
                    0 <= j < rows.len() && project(#[trigger] rows[j], layout.key_positions) == key
                        && project(rows[j], layout.val_positions)[i] == v;
                if j < n {
                    assert(rest[j] == rows[j]);
                    assert(was.contains(v));
                }
            }
        }
        if exists|j: int|
            0 <= j < rows.len() && project(#[trigger] rows[j], layout.key_positions) == key {
            let j = choose|j: int|
                0 <= j < rows.len() && project(#[trigger] rows[j], layout.key_positions) == key;
            if j < n {
                assert(rest[j] == rows[j]);
            }
        }
        if now.len() > 0 {
            if was.len() > 0 {
                let j = choose|j: int|
                    0 <= j < rest.len() && project(#[trigger] rest[j], layout.key_positions) == key;
                assert(rows[j] == rest[j]);
            } else {
                assert(rows[n] == rows.last());
            }
        }
    } else {
        assert forall|v: Val| !(#[trigger] now.contains(v)) by {}
    }
}

/// The value of a group at an `and` is true exactly where it is true in every
/// head tuple of the group, and at an `or` exactly where it is in some one,
/// if all values there are truth values.
pub proof fn law_group_truth(
    ops: Seq<Aggregation>,
    layout: Layout,
    rows: Seq<Row>,
    key: Row,
    i: int,
)
    requires
        layout.val_positions.len() == ops.len(),
        0 <= i < ops.len(),
        puts(ops, layout, Map::empty(), rows) is Some,
        puts(ops, layout, Map::empty(), rows)->Some_0.contains_key(key),
        forall|j: int|
            0 <= j < rows.len() && project(#[trigger] rows[j], layout.key_positions) == key
                ==> project(rows[j], layout.val_positions)[i] is Bool,
    ensures
        ops[i] is And ==> puts(ops, layout, Map::empty(), rows)->Some_0[key][i] == Val::Bool(
            forall|j: int|
                0 <= j < rows.len() && project(#[trigger] rows[j], layout.key_positions) == key
                    ==> project(rows[j], layout.val_positions)[i] == Val::Bool(true),
        ),
        ops[i] is Or ==> puts(ops, layout, Map::empty(), rows)->Some_0[key][i] == Val::Bool(
            exists|j: int|
                0 <= j < rows.len() && project(#[trigger] rows[j], layout.key_positions) == key
                    && project(rows[j], layout.val_positions)[i] == Val::Bool(true),
        ),
{
    law_groups_hold_folds(ops, layout, rows);
    let vs = values_at(layout, rows, key, i);
    lemma_values_at(layout, rows, key, i);
    let bs = Seq::new(vs.len(), |q: int| vs[q]->Bool_0);
    assert forall|q: int| 0 <= q < vs.len() implies (#[trigger] vs[q]) is Bool by {
        assert(vs.contains(vs[q]));
    }
    assert(truths(bs) =~= vs);
    assert(vs.len() > 0);
    law_fold_of_truths(bs);
    assert((exists|q: int| 0 <= q < bs.len() && #[trigger] bs[q]) == vs.contains(
        Val::Bool(true),
    )) by {
        if vs.contains(Val::Bool(true)) {
            let q = choose|q: int| 0 <= q < vs.len() && vs[q] == Val::Bool(true);
            assert(bs[q]);
        }
        if exists|q: int| 0 <= q < bs.len() && #[trigger] bs[q] {
            let q = choose|q: int| 0 <= q < bs.len() && #[trigger] bs[q];
            assert(vs[q] == Val::Bool(true));
        }
    }
    assert((forall|q: int| 0 <= q < bs.len() ==> #[trigger] bs[q]) == !vs.contains(
        Val::Bool(false),
    )) by {
        if vs.contains(Val::Bool(false)) {
            let q = choose|q: int| 0 <= q < vs.len() && vs[q] == Val::Bool(false);
            assert(!bs[q]);
        }
        if exists|q: int| 0 <= q < bs.len() && !(#[trigger] bs[q]) {
            let q = choose|q: int| 0 <= q < bs.len() && !(#[trigger] bs[q]);
            assert(vs[q] == Val::Bool(false));
        }
    }
    if exists|j: int|
        0 <= j < rows.len() && project(#[trigger] rows[j], layout.key_positions) == key && project(
            rows[j],
            layout.val_positions,
        )[i] != Val::Bool(true) {
        let j = choose|j: int|
            0 <= j < rows.len() && project(#[trigger] rows[j], layout.key_positions) == key
                && project(rows[j], layout.val_positions)[i] != Val::Bool(true);
        assert(project(rows[j], layout.val_positions)[i] == Val::Bool(false));
        assert(vs.contains(Val::Bool(false)));
    }
}

/// The value of a group at a `min` or a `max` is that of some head tuple of
/// the group, and none of the group's is less, or greater. A null counts
/// under `min` only where all are null.
pub proof fn law_group_extreme(
    ops: Seq<Aggregation>,
    layout: Layout,
    rows: Seq<Row>,
    key: Row,
    i: int,
)
    requires
        layout.val_positions.len() == ops.len(),
        0 <= i < ops.len(),
        ops[i] is Min || ops[i] is Max,
        puts(ops, layout, Map::empty(), rows) is Some,
        puts(ops, layout, Map::empty(), rows)->Some_0.contains_key(key),
    ensures
        exists|j: int|
            0 <= j < rows.len() && project(#[trigger] rows[j], layout.key_positions) == key
                && project(rows[j], layout.val_positions)[i] == puts(
                ops,
                layout,
                Map::empty(),
                rows,
            )->Some_0[key][i],
        forall|j: int|
            0 <= j < rows.len() && project(#[trigger] rows[j], layout.key_positions) == key ==> {
                let v = project(rows[j], layout.val_positions)[i];
                let m = puts(ops, layout, Map::empty(), rows)->Some_0[key][i];
                &&& ops[i] is Max ==> !val_before(m, v)
                &&& ops[i] is Min && v != Val::Null ==> m != Val::Null && !val_before(v, m)
            },
{
    law_groups_hold_folds(ops, layout, rows);
    let vs = values_at(layout, rows, key, i);
    lemma_values_at(layout, rows, key, i);
    let m = puts(ops, layout, Map::empty(), rows)->Some_0[key][i];
    assert(fold(ops[i], vs) == Some(m));
    law_fold_to_least(vs);
    law_fold_to_greatest(vs);
    assert(vs.contains(m));
    assert forall|j: int|
        0 <= j < rows.len() && project(#[trigger] rows[j], layout.key_positions) == key implies ({
        let v = project(rows[j], layout.val_positions)[i];
        &&& ops[i] is Max ==> !val_before(m, v)
        &&& ops[i] is Min && v != Val::Null ==> m != Val::Null && !val_before(v, m)
    }) by {
        let v = project(rows[j], layout.val_positions)[i];
        assert(vs.contains(v));
        let q = choose|q: int| 0 <= q < vs.len() && vs[q] == v;
        assert(vs[q] == v);
    }
}

/// What the named aggregations fold to: `and` to whether all are true, `or`
/// to whether some one is, `max` and `min` to one of the values that none
/// comes after or before.
pub proof fn law_named_folds(bs: Seq<bool>, vs: Seq<Val>)
    requires
        bs.len() > 0,
        vs.len() > 0,
        forall|i: int| 0 <= i < vs.len() ==> #[trigger] vs[i] != Val::Null,
    ensures
        named_aggr("and"@) matches Some(op) && fold(op, truths(bs)) == Some(
            Val::Bool(forall|i: int| 0 <= i < bs.len() ==> #[trigger] bs[i]),
        ),
        named_aggr("or"@) matches Some(op) && fold(op, truths(bs)) == Some(
            Val::Bool(exists|i: int| 0 <= i < bs.len() && #[trigger] bs[i]),
        ),
        named_aggr("max"@) matches Some(op) && fold(op, vs) matches Some(m) && vs.contains(m)
            && forall|i: int| 0 <= i < vs.len() ==> !val_before(m, #[trigger] vs[i]),
        named_aggr("min"@) matches Some(op) && fold(op, vs) matches Some(m) && vs.contains(m)
            && forall|i: int| 0 <= i < vs.len() ==> !val_before(#[trigger] vs[i], m),
        named_aggr("union"@) matches Some(op) && fold(
            op,
            seq![Val::Members(Seq::empty()), Val::Members(Seq::empty())],
        ) is Some,
        named_aggr("count"@) matches Some(op) && !op.meets(),
        named_aggr("sum"@) matches Some(op) && !op.meets(),
        named_aggr("count"@) != named_aggr("sum"@),
{
    reveal_strlit("and");
    reveal_strlit("or");
    reveal_strlit("min");
    reveal_strlit("max");
    reveal_strlit("union");
    reveal_strlit("count");
    reveal_strlit("sum");
    assert("and"@.len() == 3 && "and"@[0] == 'a');
    assert("or"@.len() == 2);
    assert("min"@.len() == 3 && "min"@[0] == 'm' && "min"@[1] == 'i');
    assert("max"@.len() == 3 && "max"@[0] == 'm' && "max"@[1] == 'a');
    assert("union"@.len() == 5 && "union"@[0] == 'u');
    assert("count"@.len() == 5 && "count"@[0] == 'c');
    assert("sum"@.len() == 3 && "sum"@[0] == 's');
    law_fold_of_truths(bs);
    law_fold_to_least(vs);
    law_fold_to_greatest(vs);
    law_what_folds(
        Aggregation::Union,
        seq![Val::Members(Seq::empty()), Val::Members(Seq::empty())],
    );
}

/// An aggregation is a meet exactly where it folds some two values.
pub proof fn law_meets_fold(op: Aggregation)
    ensures
        op.meets() <==> exists|a: Val, b: Val| (#[trigger] meet(op, a, b)) is Some,
{
    assert(op is And || op is Or ==> meet(op, Val::Bool(true), Val::Bool(true)) is Some);
    assert(op is Min || op is Max ==> meet(op, Val::Null, Val::Null) is Some);
    let none = Val::Members(Seq::empty());
    assert(op is Union ==> meet(op, none, none) is Some);
}

} // verus!
