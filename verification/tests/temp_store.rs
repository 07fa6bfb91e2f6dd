//! The stores of derived tuples, and the total and delta across epochs.

use kyzo_query::aggr::{parse_aggr, Aggregation};
use kyzo_query::epoch::{Admitted, EpochStore, MergeError, Recorder};
use kyzo_query::order::Rank;
use kyzo_query::temp_store::{
    MeetAggrStore, MeetLayout, RegularTempStore, TempStore, TupleInIter,
};
use kyzo_query::value::{DataValue, Tuple};

fn n(i: i64) -> DataValue {
    DataValue::Num(i)
}

fn s(x: &str) -> DataValue {
    DataValue::Str(x.to_string())
}

fn b(x: bool) -> DataValue {
    DataValue::Bool(x)
}

fn t(vals: &[i64]) -> Tuple {
    vals.iter().map(|v| n(*v)).collect()
}

fn gv(group: &str, val: DataValue) -> Tuple {
    vec![s(group), val]
}

fn vg(val: DataValue, group: &str) -> Tuple {
    vec![val, s(group)]
}

fn rows(found: Vec<TupleInIter<'_>>) -> Vec<Tuple> {
    found.iter().map(|x| x.into_tuple()).collect()
}

fn all(store: &EpochStore) -> Vec<Tuple> {
    rows(store.all_iter())
}

fn delta(store: &EpochStore) -> Vec<Tuple> {
    rows(store.delta_all_iter())
}

fn aggr(name: &str) -> Option<Aggregation> {
    Some(parse_aggr(name).unwrap())
}

#[test]
fn regular_total_delta_discipline() {
    let mut store = EpochStore::new_normal(2);
    assert_eq!(store.arity, 2);
    assert!(!store.has_delta());

    let mut out0 = RegularTempStore::default();
    out0.put(t(&[1, 1]));
    out0.put(t(&[1, 2]));
    let admitted = store.merge_in(out0.wrap(), &mut ()).unwrap();
    assert_eq!(admitted, Admitted(2));
    assert!(store.has_delta());
    assert_eq!(all(&store), vec![t(&[1, 1]), t(&[1, 2])]);
    assert_eq!(delta(&store), all(&store));

    let mut out1 = RegularTempStore::default();
    out1.put(t(&[1, 1]));
    let admitted = store.merge_in(out1.wrap(), &mut ()).unwrap();
    assert_eq!(admitted, Admitted(0));
    assert!(!store.has_delta());
    assert!(delta(&store).is_empty());
    assert_eq!(all(&store).len(), 2);

    let mut out2 = RegularTempStore::default();
    out2.put(t(&[1, 1]));
    out2.put(t(&[2, 3]));
    let admitted = store.merge_in(out2.wrap(), &mut ()).unwrap();
    assert_eq!(admitted, Admitted(1));
    assert!(store.has_delta());
    assert_eq!(delta(&store), vec![t(&[2, 3])]);
    assert_eq!(all(&store), vec![t(&[1, 1]), t(&[1, 2]), t(&[2, 3])]);
}

#[test]
fn empty_epoch_is_fixpoint() {
    let mut store = EpochStore::new_normal(1);
    let mut out = RegularTempStore::default();
    out.put(t(&[7]));
    store.merge_in(out.wrap(), &mut ()).unwrap();
    assert!(store.has_delta());

    store
        .merge_in(RegularTempStore::default().wrap(), &mut ())
        .unwrap();
    assert!(!store.has_delta());
    assert_eq!(all(&store), vec![t(&[7])]);
}

#[test]
fn admission_sink_sees_admissions_in_canonical_order() {
    let mut store = EpochStore::new_normal(1);

    let mut out0 = RegularTempStore::default();
    out0.put(t(&[3]));
    out0.put(t(&[1]));
    let mut rec = Recorder::new();
    let admitted = store.merge_in(out0.wrap(), &mut rec).unwrap();
    assert_eq!(admitted, Admitted(2));
    assert_eq!(rec.tuples, vec![t(&[1]), t(&[3])]);

    let mut out1 = RegularTempStore::default();
    out1.put(t(&[3]));
    out1.put(t(&[2]));
    let mut rec = Recorder::new();
    let admitted = store.merge_in(out1.wrap(), &mut rec).unwrap();
    assert_eq!(admitted, Admitted(1));
    assert_eq!(rec.tuples, vec![t(&[2])]);
}

#[test]
fn meet_delta_regression_changed_flag_drives_delta() {
    let spec = vec![None, aggr("or")];
    let mut store = EpochStore::new_meet(&spec).unwrap();

    let mut out0 = MeetAggrStore::new(spec.clone()).unwrap();
    out0.meet_put(&gv("g", b(false))).unwrap();
    let admitted = store.merge_in(out0.wrap(), &mut ()).unwrap();
    assert_eq!(admitted, Admitted(1));
    assert!(store.has_delta());
    assert_eq!(all(&store), vec![gv("g", b(false))]);

    let mut out1 = MeetAggrStore::new(spec.clone()).unwrap();
    out1.meet_put(&gv("g", b(true))).unwrap();
    let mut rec = Recorder::new();
    let admitted = store.merge_in(out1.wrap(), &mut rec).unwrap();
    assert_eq!(admitted, Admitted(1));
    assert!(
        store.has_delta(),
        "changed meet value must produce a delta; empty means premature fixpoint"
    );
    assert_eq!(delta(&store), vec![gv("g", b(true))]);
    assert_eq!(all(&store), vec![gv("g", b(true))]);
    assert_eq!(rec.tuples, vec![gv("g", b(true))]);

    let mut out2 = MeetAggrStore::new(spec).unwrap();
    out2.meet_put(&gv("g", b(false))).unwrap();
    let admitted = store.merge_in(out2.wrap(), &mut ()).unwrap();
    assert_eq!(admitted, Admitted(0));
    assert!(!store.has_delta());
    assert_eq!(all(&store), vec![gv("g", b(true))]);
}

#[test]
fn meet_put_changed_flag() {
    let mut store = MeetAggrStore::new(vec![None, aggr("or")]).unwrap();
    assert!(store.is_empty());
    assert!(store.meet_put(&gv("g", b(false))).unwrap());
    assert!(store.meet_put(&gv("g", b(true))).unwrap());
    assert!(!store.meet_put(&gv("g", b(true))).unwrap());
    assert!(!store.is_empty());

    let mut store = MeetAggrStore::new(vec![None, aggr("min")]).unwrap();
    assert!(store.meet_put(&gv("g", n(5))).unwrap());
    assert!(!store.meet_put(&gv("g", n(7))).unwrap());
    assert!(store.meet_put(&gv("g", n(3))).unwrap());
    assert!(store.contains(&gv("g", n(999))));
}

#[test]
fn meet_store_rejects_normal_aggregation() {
    let count = parse_aggr("count").unwrap();
    assert!(!count.is_meet());
    let res = MeetAggrStore::new(vec![None, Some(count)]);
    assert!(res.is_err());
    assert_eq!(res.err().unwrap().aggr, count);
}

#[test]
fn a_meet_of_the_wrong_type_is_an_error() {
    let mut store = MeetAggrStore::new(vec![None, aggr("and")]).unwrap();
    store.meet_put(&gv("g", b(true))).unwrap();
    let err = store.meet_put(&gv("g", n(1))).err().unwrap();
    assert_eq!(Some(err.aggr), aggr("and"));
}

#[test]
fn meet_iteration_spans_key_and_value() {
    let spec = vec![None, aggr("min")];
    let mut store = EpochStore::new_meet(&spec).unwrap();
    assert_eq!(store.arity, 2);

    let mut out = MeetAggrStore::new(spec).unwrap();
    out.meet_put(&gv("a", n(4))).unwrap();
    out.meet_put(&gv("b", n(2))).unwrap();
    store.merge_in(out.wrap(), &mut ()).unwrap();

    assert!(store.contains(&gv("a", n(0))));
    assert!(!store.contains(&gv("c", n(0))));

    let got = rows(store.prefix_iter(&vec![s("b")]));
    assert_eq!(got, vec![gv("b", n(2))]);

    let found = store.all_iter();
    assert_eq!(found[0].get(0), s("a"));
    assert_eq!(found[0].get(1), n(4));

    let lower = gv("a", n(5));
    let upper = gv("b", n(2));
    let got = rows(store.range_iter(&lower, &upper, true));
    assert_eq!(got, vec![gv("b", n(2))]);
    let got = rows(store.range_iter(&lower, &upper, false));
    assert!(got.is_empty());
}

#[test]
fn skip_flags_gate_early_return_only() {
    let mut store = EpochStore::new_normal(1);
    let mut out = RegularTempStore::default();
    out.put(t(&[1]));
    out.put_with_skip(t(&[2]));
    assert!(out.contains(&t(&[2])));
    store.merge_in(out.wrap(), &mut ()).unwrap();

    assert!(store.contains(&t(&[2])));
    assert_eq!(all(&store).len(), 2);
    assert_eq!(rows(store.early_returned_iter()), vec![t(&[1])]);
    assert_eq!(rows(store.delta_prefix_iter(&t(&[2]))), vec![t(&[2])]);
}

#[test]
fn kind_mismatch_is_error_not_panic() {
    let mut store = EpochStore::new_normal(1);
    let meet_out = MeetAggrStore::new(vec![aggr("min")]).unwrap();
    assert!(store.merge_in(meet_out.wrap(), &mut ()).is_err());
}

#[test]
fn meet_layout_projection_round_trips_interleaved() {
    let spec = vec![aggr("min"), None, aggr("max")];
    let layout = MeetLayout::from_signature(&spec);
    assert_eq!(layout.key_positions, vec![1]);
    assert_eq!(layout.val_positions, vec![0, 2]);

    let row: Tuple = vec![n(2), s("g"), n(9)];
    let key = layout.project_key(&row);
    let vals = layout.project_vals(&row);
    assert_eq!(key, vec![s("g")]);
    assert_eq!(vals, vec![n(2), n(9)]);
    assert_eq!(
        layout.interleave(&key, &vals),
        row,
        "interleave is the exact inverse of the two projections"
    );
}

#[test]
fn meet_put_and_scan_non_suffix() {
    let spec = vec![aggr("min"), None];
    let mut out = MeetAggrStore::new(spec.clone()).unwrap();
    assert!(out.meet_put(&vg(n(4), "a")).unwrap());
    assert!(out.meet_put(&vg(n(2), "a")).unwrap());
    assert!(!out.meet_put(&vg(n(9), "a")).unwrap());
    assert!(out.meet_put(&vg(n(5), "b")).unwrap());
    assert!(out.contains(&vg(n(999), "a")));
    assert!(!out.contains(&vg(n(0), "c")));

    let mut store = EpochStore::new_meet(&spec).unwrap();
    store.merge_in(out.wrap(), &mut ()).unwrap();
    assert_eq!(all(&store), vec![vg(n(2), "a"), vg(n(5), "b")]);
    let found = store.all_iter();
    assert_eq!(found[0].get(0), n(2));
    assert_eq!(found[0].get(1), s("a"));
}

#[test]
fn meet_admissions_follow_group_key_order_not_row_order_non_suffix() {
    let spec = vec![aggr("min"), None];
    let mut out = MeetAggrStore::new(spec.clone()).unwrap();
    out.meet_put(&vg(n(9), "a")).unwrap();
    out.meet_put(&vg(n(1), "z")).unwrap();

    let mut store = EpochStore::new_meet(&spec).unwrap();
    let mut rec = Recorder::new();
    store.merge_in(out.wrap(), &mut rec).unwrap();
    assert_eq!(
        rec.tuples,
        vec![vg(n(9), "a"), vg(n(1), "z")],
        "admissions are in group-key order (a before z)"
    );
    assert_eq!(
        all(&store),
        vec![vg(n(1), "z"), vg(n(9), "a")],
        "the scan surface is in head-tuple order (value-first)"
    );
}

#[test]
fn meet_merge_delta_non_suffix() {
    let spec = vec![aggr("min"), None];
    let mut store = EpochStore::new_meet(&spec).unwrap();

    let mut out0 = MeetAggrStore::new(spec.clone()).unwrap();
    out0.meet_put(&vg(n(5), "a")).unwrap();
    assert_eq!(store.merge_in(out0.wrap(), &mut ()).unwrap(), Admitted(1));
    assert_eq!(all(&store), vec![vg(n(5), "a")]);

    let mut out1 = MeetAggrStore::new(spec.clone()).unwrap();
    out1.meet_put(&vg(n(3), "a")).unwrap();
    let mut rec = Recorder::new();
    assert_eq!(store.merge_in(out1.wrap(), &mut rec).unwrap(), Admitted(1));
    assert!(store.has_delta());
    assert_eq!(delta(&store), vec![vg(n(3), "a")]);
    assert_eq!(all(&store), vec![vg(n(3), "a")]);
    assert_eq!(rec.tuples, vec![vg(n(3), "a")]);

    let mut out2 = MeetAggrStore::new(spec).unwrap();
    out2.meet_put(&vg(n(8), "a")).unwrap();
    assert_eq!(store.merge_in(out2.wrap(), &mut ()).unwrap(), Admitted(0));
    assert!(!store.has_delta());
    assert_eq!(all(&store), vec![vg(n(3), "a")]);
}

fn rev_assert_lockstep(store: &MeetAggrStore) {
    let mut derived: Vec<Tuple> = Vec::new();
    for i in 0..store.by_group.keys.len() {
        derived.push(
            store
                .layout
                .interleave(&store.by_group.keys[i], &store.by_group.vals[i]),
        );
    }
    if store.layout.is_suffix() {
        assert!(
            store.by_row.items.is_empty(),
            "a suffix layout must not materialize the by_row mirror"
        );
    } else {
        assert_eq!(store.by_row.items.len(), derived.len());
        for row in &derived {
            assert!(
                store.by_row.contains(row),
                "by_row diverged from the interleave of by_group"
            );
        }
    }
}

fn rev_lockstep_of(store: &EpochStore) {
    for level in [&store.total, &store.delta] {
        match level {
            TempStore::MeetAggr(m) => rev_assert_lockstep(m),
            _ => panic!("expected meet stores"),
        }
    }
}

#[test]
fn rev_meet_views_lockstep_through_all_paths() {
    let spec = vec![aggr("min"), None];

    let mut out = MeetAggrStore::new(spec.clone()).unwrap();
    assert!(out.meet_put(&vg(n(9), "a")).unwrap());
    rev_assert_lockstep(&out);
    assert!(out.meet_put(&vg(n(4), "a")).unwrap());
    rev_assert_lockstep(&out);
    assert!(!out.meet_put(&vg(n(7), "a")).unwrap());
    rev_assert_lockstep(&out);
    assert!(out.meet_put(&vg(n(1), "z")).unwrap());
    rev_assert_lockstep(&out);

    let mut store = EpochStore::new_meet(&spec).unwrap();
    store.merge_in(out.wrap(), &mut ()).unwrap();
    rev_lockstep_of(&store);

    let mut out1 = MeetAggrStore::new(spec.clone()).unwrap();
    out1.meet_put(&vg(n(2), "a")).unwrap();
    out1.meet_put(&vg(n(5), "z")).unwrap();
    out1.meet_put(&vg(n(8), "q")).unwrap();
    store.merge_in(out1.wrap(), &mut ()).unwrap();
    rev_lockstep_of(&store);
    assert_eq!(
        all(&store),
        vec![vg(n(1), "z"), vg(n(2), "a"), vg(n(8), "q")],
        "scan surface reflects post-merge rows in head-tuple order"
    );
    assert_eq!(
        delta(&store),
        vec![vg(n(2), "a"), vg(n(8), "q")],
        "delta carries exactly the changed + new groups"
    );

    let out2 = MeetAggrStore::new(spec.clone()).unwrap();
    store.merge_in(out2.wrap(), &mut ()).unwrap();
    rev_lockstep_of(&store);
    assert!(!store.has_delta());

    assert_eq!(all(&store).len(), 3);
    assert!(!all(&store).contains(&vg(n(4), "a")));
}

#[test]
fn rev_meet_all_aggregated_single_group() {
    let spec = vec![aggr("min"), aggr("max")];
    let mut out = MeetAggrStore::new(spec.clone()).unwrap();
    assert!(out.meet_put(&t(&[5, 5])).unwrap());
    assert!(out.meet_put(&t(&[3, 9])).unwrap());
    assert!(!out.meet_put(&t(&[4, 6])).unwrap());
    assert_eq!(out.by_group.len(), 1, "one group keyed by the empty tuple");
    assert!(out.contains(&t(&[100, -100])), "any probe hits the one group");
    rev_assert_lockstep(&out);

    let mut store = EpochStore::new_meet(&spec).unwrap();
    store.merge_in(out.wrap(), &mut ()).unwrap();
    assert_eq!(all(&store), vec![t(&[3, 9])]);
}

#[test]
fn rev_meet_admissions_insertion_order_independent() {
    let spec = vec![aggr("min"), None];
    let entries: Vec<Tuple> = vec![
        vg(n(9), "m"),
        vg(n(1), "z"),
        vg(n(5), "a"),
        vg(n(3), "m"),
        vg(n(7), "b"),
        vg(n(2), "a"),
    ];
    let run = |order: &[usize]| -> (Vec<Tuple>, Vec<Tuple>, Vec<Tuple>) {
        let mut out = MeetAggrStore::new(spec.clone()).unwrap();
        for i in order {
            out.meet_put(&entries[*i]).unwrap();
        }
        let mut store = EpochStore::new_meet(&spec).unwrap();
        let mut rec = Recorder::new();
        store.merge_in(out.wrap(), &mut rec).unwrap();
        (rec.tuples, all(&store), delta(&store))
    };
    let baseline = run(&[0, 1, 2, 3, 4, 5]);
    for order in [[5, 4, 3, 2, 1, 0], [3, 0, 5, 2, 4, 1], [2, 5, 0, 3, 1, 4]] {
        assert_eq!(run(&order), baseline, "order {order:?} diverged");
    }
    assert_eq!(
        baseline.0,
        vec![vg(n(2), "a"), vg(n(7), "b"), vg(n(3), "m"), vg(n(1), "z")]
    );
}

#[test]
fn admission_faithful_count_is_what_the_merge_admits() {
    let spec = vec![None, aggr("min")];
    let mut store = EpochStore::new_meet(&spec).unwrap();
    let mut first = MeetAggrStore::new(spec.clone()).unwrap();
    first.meet_put(&gv("a", n(5))).unwrap();
    store.merge_in(first.wrap(), &mut ()).unwrap();

    let mut out = MeetAggrStore::new(spec).unwrap();
    let mut in_flight = 0;
    {
        let total = match &store.total {
            TempStore::MeetAggr(m) => m,
            _ => panic!("expected a meet store"),
        };
        for row in [gv("a", n(9)), gv("a", n(4)), gv("a", n(3)), gv("b", n(1))] {
            if out.meet_put_admission_faithful(&row, total).unwrap() {
                in_flight += 1;
            }
        }
    }
    assert_eq!(in_flight, 2);
    assert_eq!(store.merge_in(out.wrap(), &mut ()).unwrap(), Admitted(2));
}

#[test]
fn tuple_in_iter_ordering() {
    let k1 = t(&[1]);
    let v1 = t(&[5]);
    let k2 = t(&[1, 5]);
    let none: Tuple = vec![];
    let joined = TupleInIter::new(&k1, &v1, false);
    let flat = TupleInIter::new(&k2, &none, false);
    assert_eq!(joined.into_tuple(), flat.into_tuple());
    assert_eq!(joined.rank(&flat), Rank::Same);
    assert_eq!(joined.rank_slice(&t(&[1, 6])), Rank::Before);
    assert_eq!(joined.rank_slice(&t(&[1, 5])), Rank::Same);
}

/// The rows of an output once it is merged into an empty total.
fn merged(spec: &Vec<Option<Aggregation>>, out: MeetAggrStore) -> Vec<Tuple> {
    let mut store = EpochStore::new_meet(spec).unwrap();
    store.merge_in(out.wrap(), &mut ()).unwrap();
    all(&store)
}

#[test]
fn what_comes_before_a_value_that_cannot_be_folded_is_folded() {
    let spec = vec![None, aggr("min"), aggr("and"), aggr("max")];
    let mut out = MeetAggrStore::new(spec.clone()).unwrap();
    out.meet_put(&vec![s("g"), n(5), b(true), n(1)]).unwrap();
    let err = out.meet_put(&vec![s("g"), n(3), n(0), n(9)]).err().unwrap();
    assert_eq!(Some(err.aggr), aggr("and"));
    assert_eq!(merged(&spec, out), vec![vec![s("g"), n(3), b(true), n(1)]]);

    let spec = vec![aggr("min"), None, aggr("and")];
    let mut out = MeetAggrStore::new(spec.clone()).unwrap();
    out.meet_put(&vec![n(5), s("g"), b(true)]).unwrap();
    assert!(out.meet_put(&vec![n(3), s("g"), n(0)]).is_err());
    assert_eq!(merged(&spec, out), vec![vec![n(3), s("g"), b(true)]]);
}

#[test]
fn an_admission_that_cannot_be_counted_is_an_error() {
    let spec = vec![None, aggr("and")];
    let mut total = MeetAggrStore::new(spec.clone()).unwrap();
    total.meet_put(&gv("a", b(true))).unwrap();

    // The group cannot be folded into the total, before or after the tuple.
    let mut out = MeetAggrStore::new(spec.clone()).unwrap();
    let err = out.meet_put_admission_faithful(&gv("a", n(1)), &total).err().unwrap();
    assert_eq!(Some(err.aggr), aggr("and"));
    assert!(out.contains(&gv("a", n(1))));
    let err = out.meet_put_admission_faithful(&gv("a", b(false)), &total).err().unwrap();
    assert_eq!(Some(err.aggr), aggr("and"));
    assert_eq!(merged(&spec, out), vec![gv("a", n(1))]);

    // The tuple cannot be folded into its group.
    let mut out = MeetAggrStore::new(spec.clone()).unwrap();
    assert!(out.meet_put_admission_faithful(&gv("b", b(true)), &total).unwrap());
    assert!(out.meet_put_admission_faithful(&gv("b", n(1)), &total).is_err());
    assert_eq!(merged(&spec, out), vec![gv("b", b(true))]);
}

#[test]
fn admissions_add_up_to_what_the_merge_admits_in_any_order() {
    let spec = vec![None, aggr("min")];
    let entries: Vec<Tuple> = vec![
        gv("a", n(9)),
        gv("a", n(2)),
        gv("b", n(7)),
        gv("c", n(4)),
        gv("a", n(1)),
        gv("b", n(8)),
    ];
    let mut outcomes = vec![];
    for order in [[0, 1, 2, 3, 4, 5], [5, 4, 3, 2, 1, 0], [3, 0, 5, 2, 4, 1]] {
        let mut store = EpochStore::new_meet(&spec).unwrap();
        let mut first = MeetAggrStore::new(spec.clone()).unwrap();
        first.meet_put(&gv("a", n(5))).unwrap();
        first.meet_put(&gv("b", n(6))).unwrap();
        store.merge_in(first.wrap(), &mut ()).unwrap();
        let mut out = MeetAggrStore::new(spec.clone()).unwrap();
        let mut in_flight = 0;
        if let TempStore::MeetAggr(total) = &store.total {
            for i in order {
                if out.meet_put_admission_faithful(&entries[i], total).unwrap() {
                    in_flight += 1;
                }
            }
        }
        assert_eq!(store.merge_in(out.wrap(), &mut ()).unwrap(), Admitted(in_flight));
        outcomes.push((in_flight, all(&store), delta(&store)));
    }
    assert_eq!(outcomes[0].0, 2);
    assert_eq!(outcomes[0], outcomes[1]);
    assert_eq!(outcomes[0], outcomes[2]);
}

#[test]
fn a_merge_that_cannot_be_folded_names_the_first_group_and_changes_nothing() {
    let spec = vec![None, aggr("and"), aggr("or")];
    let mut store = EpochStore::new_meet(&spec).unwrap();
    let mut first = MeetAggrStore::new(spec.clone()).unwrap();
    first.meet_put(&vec![s("a"), b(true), b(true)]).unwrap();
    first.meet_put(&vec![s("b"), b(true), b(true)]).unwrap();
    store.merge_in(first.wrap(), &mut ()).unwrap();
    let before = all(&store);
    let mut out = MeetAggrStore::new(spec).unwrap();
    out.meet_put(&vec![s("b"), n(1), b(true)]).unwrap();
    out.meet_put(&vec![s("a"), b(false), n(1)]).unwrap();
    match store.merge_in(out.wrap(), &mut ()) {
        Err(MergeError::Untyped(e)) => assert_eq!(Some(e.aggr), aggr("or")),
        _ => panic!("the merge went through"),
    }
    assert_eq!(all(&store), before);
}
