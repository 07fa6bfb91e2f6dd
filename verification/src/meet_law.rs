//! Laws of meet stores over whole sequences of head tuples: their order does
//! not matter, and the admissions counted on the way are those of the merge.

use vstd::prelude::*;
use crate::aggr::{meet, typed, Aggregation};
use crate::epoch::{delta_groups, same_head, EpochStore};
use crate::order::strictly_sorted;
use crate::temp_store::{
    admissible, foldable_against, groups_put, lemma_admits_monotone, lemma_meet_rows_associative,
    lemma_meet_rows_commutative, lemma_meet_rows_idempotent, lemma_meet_rows_typed, meet_rows,
    project, typed_row, Layout, MeetAggrStore, TempStore,
};
use crate::value::{DataValue, Row, Tuple};

verus! {

/// Values whose sets are listed in order, as every set is.
pub open spec fn enumerated(vals: Row) -> bool {
    forall|i: int|
        0 <= i < vals.len() && (#[trigger] vals[i]) is Members ==> strictly_sorted::<DataValue>(
            vals[i]->Members_0,
        )
}

/// Groups with one value per operator.
pub open spec fn proper_groups(ops: Seq<Aggregation>, groups: Map<Row, Row>) -> bool {
    forall|k: Row| #[trigger]
        groups.contains_key(k) ==> groups[k].len() == ops.len() && enumerated(groups[k])
}

/// Head tuples with one value per operator.
pub open spec fn proper_heads(ops: Seq<Aggregation>, layout: Layout, rows: Seq<Row>) -> bool {
    &&& layout.val_positions.len() == ops.len()
    &&& forall|i: int|
        0 <= i < rows.len() ==> enumerated(project(#[trigger] rows[i], layout.val_positions))
}

/// The groups after folding head tuples in one after the other; nothing if a
/// value cannot be folded.
pub open spec fn puts(
    ops: Seq<Aggregation>,
    layout: Layout,
    groups: Map<Row, Row>,
    rows: Seq<Row>,
) -> Option<Map<Row, Row>>
    decreases rows.len(),
{
    if rows.len() == 0 {
        Some(groups)
    } else {
        match puts(ops, layout, groups, rows.drop_last()) {
            Some(before) => groups_put(ops, layout, before, rows.last()),
            None => None,
        }
    }
}

/// What can be folded is of the operators' types.
proof fn lemma_folded_typed(ops: Seq<Aggregation>, a: Row, b: Row)
    requires
        a.len() == ops.len(),
        b.len() == ops.len(),
        enumerated(a),
        enumerated(b),
        meet_rows(ops, a, b) is Some,
    ensures
        typed_row(ops, a),
        typed_row(ops, b),
{
    assert forall|i: int| 0 <= i < ops.len() implies typed(ops[i], #[trigger] a[i]) by {
        assert(meet(ops[i], a[i], b[i]) is Some);
    }
    assert forall|i: int| 0 <= i < ops.len() implies typed(ops[i], #[trigger] b[i]) by {
        assert(meet(ops[i], a[i], b[i]) is Some);
    }
}

/// Typed values that fold to sets fold to ordered ones.
proof fn lemma_typed_enumerated(ops: Seq<Aggregation>, a: Row, b: Row)
    requires
        typed_row(ops, a),
        typed_row(ops, b),
        enumerated(a),
        enumerated(b),
    ensures
        enumerated(meet_rows(ops, a, b)->Some_0),
{
    lemma_meet_rows_typed(ops, a, b);
    let m = meet_rows(ops, a, b)->Some_0;
    assert forall|i: int| 0 <= i < m.len() && (#[trigger] m[i]) is Members implies strictly_sorted::<
        DataValue,
    >(m[i]->Members_0) by {
        assert(typed(ops[i], m[i]));
        assert(m[i] == meet(ops[i], a[i], b[i])->Some_0);
        assert(a[i] is Members ==> strictly_sorted::<DataValue>(a[i]->Members_0));
        assert(b[i] is Members ==> strictly_sorted::<DataValue>(b[i]->Members_0));
    }
}

/// Folding keeps groups proper.
proof fn lemma_put_proper(
    ops: Seq<Aggregation>,
    layout: Layout,
    groups: Map<Row, Row>,
    row: Row,
)
    requires
        proper_groups(ops, groups),
        layout.val_positions.len() == ops.len(),
        enumerated(project(row, layout.val_positions)),
        groups_put(ops, layout, groups, row) is Some,
    ensures
        proper_groups(ops, groups_put(ops, layout, groups, row)->Some_0),
{
    let key = project(row, layout.key_positions);
    let vals = project(row, layout.val_positions);
    if groups.contains_key(key) {
        lemma_folded_typed(ops, groups[key], vals);
        lemma_typed_enumerated(ops, groups[key], vals);
    }
}

proof fn lemma_puts_proper(
    ops: Seq<Aggregation>,
    layout: Layout,
    groups: Map<Row, Row>,
    rows: Seq<Row>,
)
    requires
        proper_groups(ops, groups),
        proper_heads(ops, layout, rows),
        puts(ops, layout, groups, rows) is Some,
    ensures
        proper_groups(ops, puts(ops, layout, groups, rows)->Some_0),
    decreases rows.len(),
{
    if rows.len() > 0 {
        let rest = rows.drop_last();
        assert forall|i: int| 0 <= i < rest.len() implies enumerated(
            project(#[trigger] rest[i], layout.val_positions),
        ) by {
            assert(rest[i] == rows[i]);
        }
        lemma_puts_proper(ops, layout, groups, rest);
        assert(rows[rows.len() - 1] == rows.last());
        lemma_put_proper(ops, layout, puts(ops, layout, groups, rest)->Some_0, rows.last());
    }
}

/// A head tuple that has been folded changes nothing when it is folded again.
pub proof fn law_meet_put_twice(
    ops: Seq<Aggregation>,
    layout: Layout,
    groups: Map<Row, Row>,
    row: Row,
)
    requires
        proper_groups(ops, groups),
        proper_heads(ops, layout, seq![row]),
        puts(ops, layout, groups, seq![row, row]) is Some,
    ensures
        puts(ops, layout, groups, seq![row, row]) == groups_put(ops, layout, groups, row),
{
    reveal_with_fuel(puts, 3);
    assert(seq![row, row].drop_last() =~= seq![row]);
    assert(seq![row].drop_last() =~= Seq::<Row>::empty());
    assert(seq![row][0] == row);
    let key = project(row, layout.key_positions);
    let vals = project(row, layout.val_positions);
    let once = groups_put(ops, layout, groups, row)->Some_0;
    lemma_put_proper(ops, layout, groups, row);
    lemma_folded_typed(ops, once[key], vals);
    if groups.contains_key(key) {
        let g = groups[key];
        lemma_folded_typed(ops, g, vals);
        lemma_meet_rows_associative(ops, g, vals, vals);
        lemma_meet_rows_idempotent(ops, vals);
        assert(once.insert(key, once[key]) =~= once);
    } else {
        lemma_meet_rows_idempotent(ops, vals);
        assert(once.insert(key, vals) =~= once);
    }
}

/// Where two head tuples can be folded one after the other, they can be folded
/// the other way round, and leave the same groups.
pub proof fn law_meet_puts_exchange(
    ops: Seq<Aggregation>,
    layout: Layout,
    groups: Map<Row, Row>,
    a: Row,
    b: Row,
)
    requires
        proper_groups(ops, groups),
        layout.val_positions.len() == ops.len(),
        enumerated(project(a, layout.val_positions)),
        enumerated(project(b, layout.val_positions)),
        groups_put(ops, layout, groups, a) is Some,
        groups_put(ops, layout, groups_put(ops, layout, groups, a)->Some_0, b) is Some,
    ensures
        groups_put(ops, layout, groups, b) is Some,
        groups_put(ops, layout, groups_put(ops, layout, groups, b)->Some_0, a) == groups_put(
            ops,
            layout,
            groups_put(ops, layout, groups, a)->Some_0,
            b,
        ),
{
    let ka = project(a, layout.key_positions);
    let kb = project(b, layout.key_positions);
    let va = project(a, layout.val_positions);
    let vb = project(b, layout.val_positions);
    let ga = groups_put(ops, layout, groups, a)->Some_0;
    lemma_put_proper(ops, layout, groups, a);
    if ka == kb {
        if groups.contains_key(ka) {
            let g = groups[ka];
            lemma_folded_typed(ops, g, va);
            lemma_folded_typed(ops, ga[ka], vb);
            lemma_meet_rows_typed(ops, g, vb);
            lemma_meet_rows_associative(ops, g, va, vb);
            lemma_meet_rows_associative(ops, g, vb, va);
            lemma_meet_rows_commutative(ops, va, vb);
            let gb = groups_put(ops, layout, groups, b)->Some_0;
            lemma_meet_rows_typed(ops, gb[ka], va);
        } else {
            lemma_folded_typed(ops, va, vb);
            lemma_meet_rows_commutative(ops, va, vb);
        }
    }
    let x = groups_put(ops, layout, ga, b)->Some_0;
    let gb = groups_put(ops, layout, groups, b)->Some_0;
    let y = groups_put(ops, layout, gb, a)->Some_0;
    assert(x =~= y);
}

/// What can be put last may as well be put earlier.
proof fn lemma_put_earlier(
    ops: Seq<Aggregation>,
    layout: Layout,
    groups: Map<Row, Row>,
    rows: Seq<Row>,
    i: int,
)
    requires
        proper_groups(ops, groups),
        proper_heads(ops, layout, rows),
        0 <= i < rows.len(),
        puts(ops, layout, groups, rows.remove(i).push(rows[i])) is Some,
    ensures
        puts(ops, layout, groups, rows) == puts(
            ops,
            layout,
            groups,
            rows.remove(i).push(rows[i]),
        ),
    decreases rows.len(),
{
    let x = rows[i];
    let others = rows.remove(i);
    if i == rows.len() - 1 {
        assert(others.push(x) =~= rows);
    } else {
        let y = rows.last();
        let c = rows.drop_last();
        let d = c.remove(i);
        assert(others =~= d.push(y));
        assert(others.push(x).drop_last() =~= others);
        assert(others.push(x).last() == x);
        assert(d.push(y).drop_last() =~= d);
        assert(puts(ops, layout, groups, others.push(x)) is Some);
        assert(puts(ops, layout, groups, others) is Some);
        assert(puts(ops, layout, groups, d.push(y)) is Some);
        assert forall|j: int| 0 <= j < d.len() implies enumerated(
            project(#[trigger] d[j], layout.val_positions),
        ) by {
            assert(d[j] == rows[if j < i {
                j
            } else {
                j + 1
            }]);
        }
        lemma_puts_proper(ops, layout, groups, d);
        let g = puts(ops, layout, groups, d)->Some_0;
        assert(rows[rows.len() - 1] == y);
        law_meet_puts_exchange(ops, layout, g, y, x);
        assert(d.push(x).drop_last() =~= d);
        assert(c[i] == x);
        assert forall|j: int| 0 <= j < c.len() implies enumerated(
            project(#[trigger] c[j], layout.val_positions),
        ) by {
            assert(c[j] == rows[j]);
        }
        lemma_put_earlier(ops, layout, groups, c, i);
    }
}

/// The order in which head tuples arrive does not matter: where they can all be
/// folded, any arrangement of them can, and leaves the same groups.
pub proof fn law_meet_puts_any_order(
    ops: Seq<Aggregation>,
    layout: Layout,
    groups: Map<Row, Row>,
    a: Seq<Row>,
    b: Seq<Row>,
)
    requires
        proper_groups(ops, groups),
        proper_heads(ops, layout, a),
        a.to_multiset() == b.to_multiset(),
        puts(ops, layout, groups, a) is Some,
    ensures
        puts(ops, layout, groups, b) == puts(ops, layout, groups, a),
    decreases a.len(),
{
    broadcast use vstd::seq_lib::group_to_multiset_ensures;

    assert(a.len() == a.to_multiset().len());
    assert(b.len() == b.to_multiset().len());
    if a.len() > 0 {
        let x = a.last();
        let rest = a.drop_last();
        assert(a.contains(x));
        assert(a.to_multiset().count(x) > 0);
        assert(b.contains(x));
        let i = b.index_of(x);
        assert forall|j: int| 0 <= j < b.len() implies enumerated(
            project(#[trigger] b[j], layout.val_positions),
        ) by {
            assert(b.contains(b[j]));
            assert(b.to_multiset().count(b[j]) > 0);
            assert(a.to_multiset().count(b[j]) > 0);
            assert(a.contains(b[j]));
            let k = a.index_of(b[j]);
            assert(a[k] == b[j]);
        }
        assert(a.remove(a.len() - 1) =~= rest);
        assert(rest.to_multiset() =~= a.to_multiset().remove(x));
        assert(b.remove(i).to_multiset() =~= b.to_multiset().remove(x));
        assert forall|j: int| 0 <= j < rest.len() implies enumerated(
            project(#[trigger] rest[j], layout.val_positions),
        ) by {
            assert(rest[j] == a[j]);
        }
        law_meet_puts_any_order(ops, layout, groups, rest, b.remove(i));
        assert(b.remove(i).push(x).drop_last() =~= b.remove(i));
        lemma_put_earlier(ops, layout, groups, b, i);
    } else {
        assert(a =~= b);
    }
}

/// Folding a head tuple into an epoch's output makes at most its own group
/// admissible, and no group inadmissible: the count of admissible groups rises
/// by one exactly when the tuple's group turns admissible.
pub proof fn law_admission_is_faithful(
    ops: Seq<Aggregation>,
    layout: Layout,
    total: Map<Row, Row>,
    out: Map<Row, Row>,
    row: Row,
)
    requires
        proper_groups(ops, total),
        proper_groups(ops, out),
        proper_heads(ops, layout, seq![row]),
        foldable_against(ops, layout, total, out, row),
        out.dom().finite(),
    ensures
        ({
            let key = project(row, layout.key_positions);
            let before = admissible(ops, total, out);
            let after = admissible(ops, total, groups_put(ops, layout, out, row)->Some_0);
            &&& after == (if after.contains(key) {
                before.insert(key)
            } else {
                before
            })
            &&& before.finite()
            &&& after.len() == before.len() + (if after.contains(key) && !before.contains(key) {
                1int
            } else {
                0int
            })
        }),
{
    let key = project(row, layout.key_positions);
    let vals = project(row, layout.val_positions);
    let next = groups_put(ops, layout, out, row)->Some_0;
    let before = admissible(ops, total, out);
    let after = admissible(ops, total, next);
    assert(seq![row][0] == row);
    if before.contains(key) {
        if total.contains_key(key) {
            lemma_folded_typed(ops, total[key], out[key]);
            lemma_folded_typed(ops, out[key], vals);
            lemma_admits_monotone(ops, total, key, out[key], vals);
        }
        assert(after.contains(key));
    }
    assert forall|k: Row| k != key implies before.contains(k) == after.contains(k) by {}
    assert(after =~= (if after.contains(key) {
        before.insert(key)
    } else {
        before
    }));
    assert(before.subset_of(out.dom()));
    vstd::set_lib::lemma_len_subset(before, out.dom());
}

/// Every head tuple's admission can be counted when its turn comes.
pub open spec fn all_foldable(
    ops: Seq<Aggregation>,
    layout: Layout,
    total: Map<Row, Row>,
    out: Map<Row, Row>,
    rows: Seq<Row>,
) -> bool
    decreases rows.len(),
{
    rows.len() > 0 ==> {
        let rest = rows.drop_last();
        &&& all_foldable(ops, layout, total, out, rest)
        &&& puts(ops, layout, out, rest) is Some
        &&& foldable_against(
            ops,
            layout,
            total,
            puts(ops, layout, out, rest)->Some_0,
            rows.last(),
        )
    }
}

/// How many of a sequence of head tuples make their group admissible to a total
/// when it was not before.
pub open spec fn counted(
    ops: Seq<Aggregation>,
    layout: Layout,
    total: Map<Row, Row>,
    out: Map<Row, Row>,
    rows: Seq<Row>,
) -> nat
    decreases rows.len(),
{
    if rows.len() == 0 {
        0
    } else {
        let rest = rows.drop_last();
        let key = project(rows.last(), layout.key_positions);
        let before = puts(ops, layout, out, rest)->Some_0;
        let after = puts(ops, layout, out, rows)->Some_0;
        let risen = admissible(ops, total, after).contains(key) && !admissible(
            ops,
            total,
            before,
        ).contains(key);
        counted(ops, layout, total, out, rest) + if risen {
            1nat
        } else {
            0nat
        }
    }
}

/// The count of admissions over a sequence of head tuples is what the output
/// gained in admissible groups; the output ends as the same puts leave it.
pub proof fn law_admissions_add_up(
    ops: Seq<Aggregation>,
    layout: Layout,
    total: Map<Row, Row>,
    out: Map<Row, Row>,
    rows: Seq<Row>,
)
    requires
        proper_groups(ops, total),
        proper_groups(ops, out),
        proper_heads(ops, layout, rows),
        all_foldable(ops, layout, total, out, rows),
        out.dom().finite(),
    ensures
        puts(ops, layout, out, rows) is Some,
        puts(ops, layout, out, rows)->Some_0.dom().finite(),
        admissible(ops, total, puts(ops, layout, out, rows)->Some_0).finite(),
        admissible(ops, total, puts(ops, layout, out, rows)->Some_0).len() == admissible(
            ops,
            total,
            out,
        ).len() + counted(ops, layout, total, out, rows),
    decreases rows.len(),
{
    if rows.len() == 0 {
        assert(admissible(ops, total, out).subset_of(out.dom()));
        vstd::set_lib::lemma_len_subset(admissible(ops, total, out), out.dom());
    } else {
        let rest = rows.drop_last();
        assert forall|j: int| 0 <= j < rest.len() implies enumerated(
            project(#[trigger] rest[j], layout.val_positions),
        ) by {
            assert(rest[j] == rows[j]);
        }
        law_admissions_add_up(ops, layout, total, out, rest);
        lemma_puts_proper(ops, layout, out, rest);
        let before = puts(ops, layout, out, rest)->Some_0;
        let after = puts(ops, layout, out, rows)->Some_0;
        assert(rows[rows.len() - 1] == rows.last());
        law_admission_is_faithful(ops, layout, total, before, rows.last());
        let key = project(rows.last(), layout.key_positions);
        assert(after.dom() =~= before.dom().insert(key));
    }
}

/// What is counted while an epoch's output is filled from nothing is what its
/// merge admits.
pub proof fn law_counted_is_admitted(
    before: EpochStore,
    out: MeetAggrStore,
    after: EpochStore,
    rows: Seq<Row>,
)
    requires
        before.total is MeetAggr,
        same_head(before.total->MeetAggr_0, out),
        after.wf(),
        EpochStore::merged(before, TempStore::MeetAggr(out), after),
        proper_groups(out.meets@, before.total->MeetAggr_0.groups()),
        proper_heads(out.meets@, out.layout@, rows),
        all_foldable(
            out.meets@,
            out.layout@,
            before.total->MeetAggr_0.groups(),
            Map::empty(),
            rows,
        ),
        puts(out.meets@, out.layout@, Map::empty(), rows) == Some(out.groups()),
    ensures
        after.admissions().len() == counted(
            out.meets@,
            out.layout@,
            before.total->MeetAggr_0.groups(),
            Map::empty(),
            rows,
        ),
{
    let ops = out.meets@;
    let total = before.total->MeetAggr_0.groups();
    let none = Map::<Row, Row>::empty();
    law_admissions_add_up(ops, out.layout@, total, none, rows);
    assert(admissible(ops, total, none) =~= Set::<Row>::empty());
    let d = after.delta->MeetAggr_0;
    let keys = d.by_group.keys.deep_view();
    assert(d.groups() == delta_groups(ops, total, out.groups()));
    assert(d.groups().dom() =~= admissible(ops, total, out.groups()));
    crate::order::lemma_sorted_no_duplicates::<Tuple>(keys);
    assert(keys.to_set() =~= d.groups().dom()) by {
        assert forall|k: Row| keys.to_set().contains(k) == d.groups().dom().contains(k) by {
            assert(keys.contains(k) == d.groups().contains_key(k));
        }
    }
    keys.unique_seq_to_set();
}

} // verus!
