//! Plans run row by row and in batches, with and without segments.

use kyzo_query::batch::BATCH_ROWS;
use kyzo_query::epoch::EpochStore;
use kyzo_query::batch_join::PrefixProbeBatchJoin;
use kyzo_query::expr::{EvalError, Expr, Op, OpError, SourceSpan};
use kyzo_query::groups::chunk_stream;
use kyzo_query::history::{AsOf, ClaimPolarity, FactTable, RawVersion};
use kyzo_query::meaning::{Env, SearchIndex, Stores};
use kyzo_query::plan::{
    InlineFixedRA, InnerJoin, Joiner, KeyspaceKind, NegRight, RelAlgebra, RelationHandle,
    SearchKind, SearchRA, TempStoreRA, ValidityClause,
};
use kyzo_query::segment::{Segment, Segments};
use kyzo_query::spans::InvalidInterval;
use kyzo_query::stream::{PlanInvariant, QueryError, TupleStream};
use kyzo_query::temp_store::RegularTempStore;
use kyzo_query::value::{DataValue, Tuple};

fn sp() -> SourceSpan {
    SourceSpan { start: 0, len: 0 }
}

fn sym(name: &str) -> String {
    name.to_string()
}

fn v(i: i64) -> DataValue {
    DataValue::Num(i)
}

fn s(x: &str) -> DataValue {
    DataValue::Str(x.to_string())
}

fn no_env() -> Env {
    env_of(vec![])
}

fn env_of(tables: Vec<FactTable>) -> Env {
    Env {
        stores: Stores::new(),
        tables,
        indexes: vec![],
    }
}

fn off() -> Segments {
    Segments { by_relation: vec![] }
}

fn handle(name: &str, id: usize) -> RelationHandle {
    RelationHandle {
        name: name.to_string(),
        id,
        keyspace_kind: KeyspaceKind::Facts,
    }
}

fn put(table: &mut FactTable, key: Vec<DataValue>, payload: Vec<DataValue>, valid: i64, sys: i64) {
    table.record(
        key,
        RawVersion {
            valid,
            sys,
            polarity: ClaimPolarity::Assert,
            payload,
        },
    );
}

fn rows_of(ra: &RelAlgebra, env: &Env) -> Vec<Tuple> {
    let by_row = ra.iter(env, None).unwrap().collect().unwrap();
    let batched = ra.iter_batched(env, None, &off()).unwrap();
    let batched = batched.into_rows().collect().unwrap();
    assert_eq!(by_row, batched, "both paths give the same rows");
    batched
}

fn constant(val: DataValue) -> Expr {
    Expr::Const { val, span: sp() }
}

fn binding(var: &str) -> Expr {
    Expr::Binding {
        var: sym(var),
        span: sp(),
        tuple_pos: None,
    }
}

fn apply(op: Op, a: Expr, b: Expr) -> Expr {
    Expr::Apply {
        op,
        args: vec![a, b],
        span: sp(),
    }
}

fn fixed(bindings: &[&str], data: Vec<Tuple>) -> InlineFixedRA {
    InlineFixedRA {
        bindings: bindings.iter().map(|b| sym(b)).collect(),
        data,
        to_eliminate: vec![],
        span: sp(),
    }
}

fn check_inline_fixed_join_branches() {
    let left = || TupleStream::of(vec![vec![v(1)], vec![v(2)]]);

    let null = fixed(&["y"], vec![]);
    assert_eq!(null.join_type(), "null_join");
    let got = null.join(left(), &vec![0], &vec![0], &vec![]);
    assert!(got.items.is_empty());

    let singleton = fixed(&["y"], vec![vec![v(2)]]);
    assert_eq!(singleton.join_type(), "singleton_join");
    let got = singleton.join(left(), &vec![0], &vec![0], &vec![]);
    assert_eq!(got.collect(), Ok(vec![vec![v(2), v(2)]]));

    let many = fixed(
        &["y", "z"],
        vec![vec![v(1), v(10)], vec![v(1), v(11)], vec![v(3), v(12)]],
    );
    assert_eq!(many.join_type(), "fixed_join");
    let got = many.join(left(), &vec![0], &vec![0], &vec![]);
    assert_eq!(
        got.collect(),
        Ok(vec![vec![v(1), v(1), v(10)], vec![v(1), v(1), v(11)]])
    );
}

#[test]
fn ra_inline_fixed_join_branches() {
    check_inline_fixed_join_branches();
}

#[test]
fn mod_inline_fixed_join_branches() {
    check_inline_fixed_join_branches();
}

fn check_singleton_fixed_left_is_not_unit() {
    let right = RelAlgebra::unit(sp()).unify(
        sym("x"),
        constant(DataValue::List(vec![v(1), v(2), v(3)])),
        true,
        sp(),
    );
    let left = RelAlgebra::Fixed(fixed(&["y"], vec![vec![v(2)]]));
    assert!(!left.is_unit(), "a data-bearing singleton must not be unit");
    let mut ra = left
        .join(right, vec![sym("y")], vec![sym("x")], sp())
        .unwrap();
    ra.fill_binding_indices_and_compile().unwrap();
    assert_eq!(rows_of(&ra, &no_env()), vec![vec![v(2), v(2)]]);
}

#[test]
fn ra_batched_join_singleton_fixed_left_is_not_unit() {
    check_singleton_fixed_left_is_not_unit();
}

#[test]
fn mod_batched_join_singleton_fixed_left_is_not_unit() {
    check_singleton_fixed_left_is_not_unit();
}

#[test]
fn materialized_batch_join_matches_analytic_oracle_across_boundaries() {
    let mut left = FactTable::new(1);
    let mut right = FactTable::new(1);
    for j in [7i64, 8, 9] {
        put(&mut left, vec![v(j)], vec![], 0, 0);
    }
    for i in 0..2000i64 {
        put(&mut right, vec![v(i)], vec![v(7)], 0, 0);
    }
    for i in 5000..5003i64 {
        put(&mut right, vec![v(i)], vec![v(8)], 0, 0);
    }
    let env = env_of(vec![left, right]);
    let mut ra = RelAlgebra::relation(vec![sym("j")], handle("ml", 0), sp(), None)
        .join(
            RelAlgebra::relation(vec![sym("i"), sym("j2")], handle("mr", 1), sp(), None),
            vec![sym("j")],
            vec![sym("j2")],
            sp(),
        )
        .unwrap();
    if let RelAlgebra::Join(j) = &ra {
        assert_eq!(
            j.join_type().unwrap(),
            "stored_mat_join",
            "the shape must route through the materialized join"
        );
    } else {
        panic!("plan root must be the join");
    }
    ra.fill_binding_indices_and_compile().unwrap();
    let got = rows_of(&ra, &env);
    let expected: Vec<Tuple> = (0..2000i64)
        .map(|i| vec![v(7), v(i), v(7)])
        .chain((5000..5003i64).map(|i| vec![v(8), v(i), v(8)]))
        .collect();
    assert_eq!(got.len(), expected.len());
    for row in &expected {
        assert!(got.contains(row), "materialized batch join lost {row:?}");
    }
}

fn check_spread_unification() {
    let mut ra = RelAlgebra::unit(sp()).unify(
        sym("x"),
        constant(DataValue::List(vec![v(1), v(2), v(3)])),
        true,
        sp(),
    );
    ra.fill_binding_indices_and_compile().unwrap();
    assert_eq!(
        rows_of(&ra, &no_env()),
        vec![vec![v(1)], vec![v(2)], vec![v(3)]]
    );

    let mut bad = RelAlgebra::unit(sp()).unify(sym("x"), constant(v(7)), true, sp());
    bad.fill_binding_indices_and_compile().unwrap();
    let err = bad.iter(&no_env(), None).unwrap().collect().unwrap_err();
    assert!(err.message().contains("Invalid spread unification"));
    let batched = bad.iter_batched(&no_env(), None, &off()).unwrap();
    assert_eq!(batched.into_rows().collect(), Err(err));
}

#[test]
fn ra_spread_unification() {
    check_spread_unification();
}

#[test]
fn mod_spread_unification() {
    check_spread_unification();
}

#[test]
fn mod_stored_with_validity_scan() {
    let mut table = FactTable::new(1);
    for (ts, val) in [(10i64, "ten"), (20, "twenty")] {
        put(&mut table, vec![v(1)], vec![s(val)], ts, 0);
    }
    let env = env_of(vec![table]);
    let scan_at = |ts: i64| -> Vec<Tuple> {
        let mut ra = RelAlgebra::relation(
            vec![sym("k"), sym("v")],
            handle("hist", 0),
            sp(),
            Some(ValidityClause::At(AsOf::current(ts))),
        );
        ra.fill_binding_indices_and_compile().unwrap();
        rows_of(&ra, &env)
    };
    let at_15 = scan_at(15);
    assert_eq!(at_15.len(), 1);
    assert_eq!(at_15[0][1], s("ten"));
    let at_25 = scan_at(25);
    assert_eq!(at_25.len(), 1);
    assert_eq!(at_25[0][1], s("twenty"));
    let at_5 = scan_at(5);
    assert!(at_5.is_empty());
}

#[test]
fn mod_join_rhs_refusals_are_typed() {
    let derived = |occurrence| RelAlgebra::derived(vec![sym("x")], sym("?"), occurrence, sp());

    let reordered = derived(0).reorder(vec![sym("x")]);
    let err = RelAlgebra::unit(sp())
        .join(reordered, vec![], vec![], sp())
        .unwrap_err();
    assert_eq!(err, QueryError::Plan(PlanInvariant::ReorderOnTheRight));

    let neg = derived(0)
        .neg_join(derived(1), vec![sym("x")], vec![sym("x")], sp())
        .unwrap();
    let err = RelAlgebra::unit(sp())
        .join(neg, vec![], vec![], sp())
        .unwrap_err();
    assert_eq!(err, QueryError::Plan(PlanInvariant::NegationOnTheRight));

    let err = RelAlgebra::unit(sp())
        .neg_join(RelAlgebra::unit(sp()), vec![], vec![], sp())
        .unwrap_err();
    assert_eq!(err, QueryError::Plan(PlanInvariant::NegatedRight));

    let vld_scan = RelAlgebra::relation(
        vec![sym("k"), sym("at")],
        handle("hist2", 0),
        sp(),
        Some(ValidityClause::At(AsOf::current(0))),
    );
    let neg = RelAlgebra::unit(sp())
        .neg_join(vld_scan, vec![], vec![], sp())
        .unwrap();
    assert!(matches!(
        neg,
        RelAlgebra::NegJoin(ref b) if matches!(b.right, NegRight::StoredWithValidity(_))
    ));
}

#[test]
fn general_join_batched_matches_iterator_at_batch_boundaries() {
    for n in [BATCH_ROWS - 1, BATCH_ROWS, BATCH_ROWS + 1] {
        let mut left = FactTable::new(1);
        let mut right = FactTable::new(1);
        let mut expected_matches = 0usize;
        for i in 0..n {
            let k = i as i64;
            put(&mut left, vec![v(k)], vec![], 0, 0);
            if k % 2 == 0 {
                put(&mut right, vec![v(k)], vec![v(k * 10)], 0, 0);
                expected_matches += 1;
            }
        }
        let env = env_of(vec![left, right]);
        let mut ra = RelAlgebra::relation(vec![sym("k")], handle("bl", 0), sp(), None)
            .join(
                RelAlgebra::relation(vec![sym("k2"), sym("v")], handle("br", 1), sp(), None),
                vec![sym("k")],
                vec![sym("k2")],
                sp(),
            )
            .unwrap();
        ra.fill_binding_indices_and_compile().unwrap();
        let got = rows_of(&ra, &env);
        assert_eq!(got.len(), expected_matches, "n={n}: wrong match count");
    }
}

#[test]
fn general_join_batched_with_eliminate_indices() {
    let mut left = FactTable::new(1);
    let mut right = FactTable::new(1);
    for k in 1..=5i64 {
        put(&mut left, vec![v(k)], vec![v(k * 100)], 0, 0);
        put(&mut right, vec![v(k)], vec![v(k + 1000)], 0, 0);
    }
    let env = env_of(vec![left, right]);
    let mut ra = RelAlgebra::Join(Box::new(InnerJoin {
        left: RelAlgebra::relation(vec![sym("k"), sym("extra")], handle("el", 0), sp(), None),
        right: RelAlgebra::relation(vec![sym("k2"), sym("v")], handle("er", 1), sp(), None),
        joiner: Joiner {
            left_keys: vec![sym("k")],
            right_keys: vec![sym("k2")],
        },
        to_eliminate: vec![sym("extra"), sym("k2")],
        span: sp(),
    }));
    ra.fill_binding_indices_and_compile().unwrap();
    let got = rows_of(&ra, &env);
    let expected: Vec<Tuple> = (1..=5i64).map(|k| vec![v(k), v(k + 1000)]).collect();
    assert_eq!(got, expected, "eliminate_indices: wrong surviving columns");
}

#[test]
fn general_join_batched_delta_threading_matches_iterator() {
    let mut store = EpochStore::new_normal(2);
    let mut baseline = RegularTempStore::default();
    baseline.put(vec![v(0), s("a")]);
    baseline.put(vec![v(1), s("b")]);
    store.merge_in(baseline.wrap(), &mut ()).unwrap();
    let mut fresh = RegularTempStore::default();
    fresh.put(vec![v(2), s("c")]);
    store.merge_in(fresh.wrap(), &mut ()).unwrap();
    assert!(store.has_delta(), "the second merge must have a delta");

    let mut env = no_env();
    env.stores.insert(sym("?"), store);

    let left = RelAlgebra::Fixed(fixed(&["k"], vec![vec![v(0)], vec![v(1)], vec![v(2)]]));
    let right = RelAlgebra::TempStore(TempStoreRA {
        bindings: vec![sym("k2"), sym("val")],
        storage_key: sym("?"),
        occurrence: 0,
        filters: vec![],
        span: sp(),
    });
    let mut ra = left
        .join(right, vec![sym("k")], vec![sym("k2")], sp())
        .unwrap();
    ra.fill_binding_indices_and_compile().unwrap();

    assert_eq!(rows_of(&ra, &env).len(), 3, "the total must join all three keys");

    let it = ra.iter(&env, Some(0)).unwrap().collect().unwrap();
    let ba = ra.iter_batched(&env, Some(0), &off()).unwrap();
    let ba = ba.into_rows().collect().unwrap();
    assert_eq!(it, ba, "delta-threaded batched join diverged from iterator");
    assert_eq!(
        it,
        vec![vec![v(2), v(2), s("c")]],
        "delta threading must narrow the join to the fresh row only"
    );
}

#[test]
fn stored_point_lookup_join_segments_match_oracle_and_storage() {
    let mut left = FactTable::new(1);
    let mut right = FactTable::new(1);
    let n = BATCH_ROWS + 37;
    let mut expected: Vec<Tuple> = Vec::new();
    for i in 0..n {
        let k = i as i64;
        put(&mut left, vec![v(k)], vec![], 0, 0);
        if k % 3 == 0 {
            put(&mut right, vec![v(k)], vec![v(k * 10)], 0, 0);
            expected.push(vec![v(k), v(k), v(k * 10)]);
        }
    }
    let on = Segments {
        by_relation: vec![None, Some(Segment::build(&right))],
    };
    let env = env_of(vec![left, right]);
    let mut ra = RelAlgebra::relation(vec![sym("k")], handle("plj_l", 0), sp(), None)
        .join(
            RelAlgebra::relation(vec![sym("k2"), sym("v")], handle("plj_r", 1), sp(), None),
            vec![sym("k")],
            vec![sym("k2")],
            sp(),
        )
        .unwrap();
    ra.fill_binding_indices_and_compile().unwrap();
    let stored = rows_of(&ra, &env);
    assert_eq!(stored, expected, "storage probe diverged from hand-computed join");
    let served = ra.iter_batched(&env, None, &on).unwrap();
    let served = served.into_rows().collect().unwrap();
    assert_eq!(
        served, expected,
        "segment-served point-lookup probe diverged from hand-computed join"
    );
    assert_eq!(served, stored, "segment path must be identical to storage path");
}

#[test]
fn stored_prefix_join_segments_match_oracle_and_storage() {
    let mut left = FactTable::new(1);
    let mut right = FactTable::new(2);
    let n = 200;
    let mut expected: Vec<Tuple> = Vec::new();
    for z in 0..n {
        put(&mut left, vec![v(z)], vec![], 0, 0);
        for w in 0..(z % 7) {
            put(&mut right, vec![v(z), v(w)], vec![], 0, 0);
            expected.push(vec![v(z), v(z), v(w)]);
        }
    }
    let on = Segments {
        by_relation: vec![Some(Segment::build(&left)), Some(Segment::build(&right))],
    };
    let env = env_of(vec![left, right]);
    let mut ra = RelAlgebra::relation(vec![sym("z")], handle("ppj_l", 0), sp(), None)
        .join(
            RelAlgebra::relation(vec![sym("z2"), sym("w")], handle("ppj_r", 1), sp(), None),
            vec![sym("z")],
            vec![sym("z2")],
            sp(),
        )
        .unwrap();
    ra.fill_binding_indices_and_compile().unwrap();
    let stored = rows_of(&ra, &env);
    assert_eq!(stored, expected, "storage probe diverged from hand-computed join");
    let served = ra.iter_batched(&env, None, &on).unwrap();
    let served = served.into_rows().collect().unwrap();
    assert_eq!(
        served, expected,
        "segment-served prefix probe diverged from hand-computed join"
    );
    assert_eq!(served, stored, "segment path must be identical to storage path");
}

#[test]
fn batched_filter_reports_earlier_predicate_error_before_stream_error() {
    // Row 1 poisons the predicate; the stream itself fails at row 2.
    let mut ra = RelAlgebra::Fixed(fixed(
        &["l"],
        vec![
            vec![DataValue::List(vec![v(5), s("poison")])],
            vec![v(2)],
            vec![DataValue::List(vec![v(7)])],
        ],
    ))
    .unify(sym("c0"), binding("l"), true, sp())
    .filter(apply(Op::Gt, binding("c0"), constant(v(0))))
    .unwrap();
    ra.eliminate_temp_vars(&vec![sym("c0")]).unwrap();
    ra.fill_binding_indices_and_compile().unwrap();
    let poison = || {
        QueryError::Eval(EvalError::Raised {
            op: Op::Gt,
            cause: OpError::Type,
            span: sp(),
        })
    };
    let decode = || QueryError::BadSpread(sp());
    let by_row = ra.iter(&no_env(), None).unwrap();
    assert_eq!(
        by_row.items,
        vec![Ok(vec![v(5)]), Err(poison()), Err(decode()), Ok(vec![v(7)])],
        "a failure takes its own place, and what comes after it is still there"
    );
    assert_eq!(by_row.collect(), Err(poison()));

    let mut ra = RelAlgebra::unit(sp())
        .unify(
            sym("c0"),
            constant(DataValue::List(vec![v(5), s("poison"), v(7)])),
            true,
            sp(),
        )
        .filter(apply(Op::Gt, binding("c0"), constant(v(0))))
        .unwrap();
    ra.fill_binding_indices_and_compile().unwrap();
    let batched = ra.iter_batched(&no_env(), None, &off()).unwrap();
    assert_eq!(
        batched.into_rows().collect(),
        Err(poison()),
        "a later failure must not outrank the earlier predicate poison"
    );

    // Rows that would share a batch with a failure are lost to it; the next
    // batch begins after it.
    let groups = chunk_stream(TupleStream {
        items: vec![
            Ok(vec![v(5)]),
            Err(poison()),
            Err(decode()),
            Ok(vec![v(7)]),
            Ok(vec![v(8)]),
        ],
    });
    assert_eq!(groups.items.len(), 3);
    assert_eq!(
        groups.into_rows().items,
        vec![Err(poison()), Err(decode()), Ok(vec![v(7)]), Ok(vec![v(8)])]
    );
}

/// The probe of a rule store whose second column is filtered to numbers above
/// zero: a row without a number fails the filter.
fn failing_matches() -> (TempStoreRA, Env) {
    let mut store = RegularTempStore::default();
    for k in [1, 2] {
        store.put(vec![v(k), DataValue::Null]);
        store.put(vec![v(k), v(k + 4)]);
        store.put(vec![v(k), v(-1)]);
        store.put(vec![v(k), v(k + 6)]);
    }
    let mut env = no_env();
    let mut epoch = EpochStore::new_normal(2);
    epoch.merge_in(store.wrap(), &mut ()).unwrap();
    env.stores.insert(sym("r"), epoch);
    // The sum keeps the filter from setting a bound.
    let mut above = apply(
        Op::Gt,
        apply(Op::Add, binding("w"), constant(v(0))),
        constant(v(0)),
    );
    above.fill_binding_indices(&vec![sym("k2"), sym("w")]).unwrap();
    let ra = TempStoreRA {
        bindings: vec![sym("k2"), sym("w")],
        storage_key: sym("r"),
        occurrence: 0,
        filters: vec![above],
        span: sp(),
    };
    (ra, env)
}

#[test]
fn a_join_in_batches_goes_on_after_a_failure() {
    let (ra, env) = failing_matches();
    let failure = || {
        QueryError::Eval(EvalError::Raised {
            op: Op::Add,
            cause: OpError::Type,
            span: sp(),
        })
    };
    let places = vec![0];
    let none = vec![];
    let probe = ra.prober(&places, &places, &none, None, &env.stores).unwrap();
    let left = chunk_stream(TupleStream {
        items: vec![
            Ok(vec![v(1)]),
            Err(QueryError::BadSpread(sp())),
            Ok(vec![v(1)]),
            Ok(vec![v(2)]),
        ],
    });
    let mut join = PrefixProbeBatchJoin::new(left, &probe);
    let mut next = || join.next().map(|r| r.map(|b| b.into_rows()));
    // The left row before the failure on the left shares its batch.
    assert_eq!(next(), Some(Err(QueryError::BadSpread(sp()))));
    // The first match of the next left row fails.
    assert_eq!(next(), Some(Err(failure())));
    // Its other matches are gathered, and lost to the failure of the last row's
    // first match.
    assert_eq!(next(), Some(Err(failure())));
    assert_eq!(
        next(),
        Some(Ok(vec![vec![v(2), v(2), v(6)], vec![v(2), v(2), v(8)]]))
    );
    assert_eq!(next(), None);
    assert_eq!(next(), None);
}

#[test]
fn a_join_row_by_row_keeps_what_comes_after_a_failure() {
    let (ra, env) = failing_matches();
    let left = TupleStream::of(vec![vec![v(1)], vec![v(3)], vec![v(2)]]);
    let found = ra
        .prefix_join(left, &vec![0], &vec![0], &vec![], None, &env.stores)
        .unwrap();
    let failure = || {
        QueryError::Eval(EvalError::Raised {
            op: Op::Add,
            cause: OpError::Type,
            span: sp(),
        })
    };
    assert_eq!(
        found.items,
        vec![
            Err(failure()),
            Ok(vec![v(1), v(1), v(5)]),
            Ok(vec![v(1), v(1), v(7)]),
            Err(failure()),
            Ok(vec![v(2), v(2), v(6)]),
            Ok(vec![v(2), v(2), v(8)]),
        ]
    );
}

#[test]
fn each_failure_says_what_failed() {
    assert_eq!(
        too_short().message(),
        "a stored row of relation 'r' is too short: index is 1, length is 1"
    );
    let far = QueryError::RowTooShort {
        relation: sym("people"),
        index: 1204,
        len: 0,
        span: sp(),
    };
    assert_eq!(
        far.message(),
        "a stored row of relation 'people' is too short: index is 1204, length is 0"
    );
    let interval = QueryError::Interval(InvalidInterval {
        start: -30,
        end: i64::MIN,
    });
    assert_eq!(
        interval.message(),
        "temporal derivation produced an invalid interval [-30, -9223372036854775808)"
    );
    let unbound = QueryError::Eval(EvalError::Unbound {
        var: sym("x"),
        span: sp(),
    });
    assert_eq!(unbound.message(), "The variable 'x' is unbound");
    let search = QueryError::SearchQueryType {
        value: v(3),
        span: sp(),
    };
    assert_eq!(
        search.message(),
        "the search query evaluated to 3, which this index cannot search for"
    );
    assert_eq!(far.clone(), far);
    assert_eq!(search.clone(), search);
}

#[test]
fn filters_sink_to_the_side_they_speak_of() {
    let mut left = FactTable::new(1);
    let mut right = FactTable::new(1);
    for k in 0..10i64 {
        put(&mut left, vec![v(k)], vec![v(k * 2)], 0, 0);
        put(&mut right, vec![v(k)], vec![v(k * 3)], 0, 0);
    }
    let env = env_of(vec![left, right]);
    let joined = || {
        RelAlgebra::relation(vec![sym("a"), sym("b")], handle("l", 0), sp(), None)
            .join(
                RelAlgebra::relation(vec![sym("c"), sym("d")], handle("r", 1), sp(), None),
                vec![sym("a")],
                vec![sym("c")],
                sp(),
            )
            .unwrap()
    };
    let mut sunk = joined()
        .filter(apply(Op::Gt, binding("b"), constant(v(6))))
        .unwrap()
        .filter(apply(Op::Lt, binding("d"), constant(v(21))))
        .unwrap();
    assert!(
        matches!(sunk, RelAlgebra::Join(ref j)
            if matches!(j.left, RelAlgebra::Stored(ref t) if t.filters.len() == 1)
            && matches!(j.right, RelAlgebra::Stored(ref t) if t.filters.len() == 1)),
        "each filter stands at its scan"
    );
    sunk.fill_binding_indices_and_compile().unwrap();
    let expected: Vec<Tuple> = (4..7i64)
        .map(|k| vec![v(k), v(k * 2), v(k), v(k * 3)])
        .collect();
    assert_eq!(rows_of(&sunk, &env), expected);

    let mut spanning = joined()
        .filter(apply(Op::Eq, binding("b"), binding("d")))
        .unwrap();
    assert!(matches!(spanning, RelAlgebra::Filter(_)));
    spanning.fill_binding_indices_and_compile().unwrap();
    assert_eq!(rows_of(&spanning, &env), vec![vec![v(0), v(0), v(0), v(0)]]);
}

#[test]
fn negation_is_what_the_join_leaves() {
    let mut left = FactTable::new(1);
    let mut right = FactTable::new(2);
    for k in 0..20i64 {
        put(&mut left, vec![v(k)], vec![v(k % 3)], 0, 0);
        if k % 4 == 0 {
            put(&mut right, vec![v(k), v(1)], vec![v(k % 2)], 0, 0);
        }
    }
    let env = env_of(vec![left, right]);
    for (lk, rk) in [("k", "x"), ("m", "z")] {
        let scan = || RelAlgebra::relation(vec![sym("k"), sym("m")], handle("l", 0), sp(), None);
        let other = || {
            RelAlgebra::relation(
                vec![sym("x"), sym("y"), sym("z")],
                handle("r", 1),
                sp(),
                None,
            )
        };
        let mut all = scan();
        let mut met = scan()
            .join(other(), vec![sym(lk)], vec![sym(rk)], sp())
            .unwrap();
        let mut spared = scan()
            .neg_join(other(), vec![sym(lk)], vec![sym(rk)], sp())
            .unwrap();
        all.fill_binding_indices_and_compile().unwrap();
        met.fill_binding_indices_and_compile().unwrap();
        spared.fill_binding_indices_and_compile().unwrap();
        let met: Vec<Tuple> = rows_of(&met, &env).iter().map(|r| r[..2].to_vec()).collect();
        let spared = rows_of(&spared, &env);
        for row in rows_of(&all, &env) {
            assert_eq!(met.contains(&row), !spared.contains(&row));
        }
    }
}

#[test]
fn a_reorder_permutes_and_refuses_other_columns() {
    let mut ra = RelAlgebra::Fixed(fixed(&["a", "b"], vec![vec![v(1), v(2)]]))
        .reorder(vec![sym("b"), sym("a")]);
    ra.fill_binding_indices_and_compile().unwrap();
    assert_eq!(rows_of(&ra, &no_env()), vec![vec![v(2), v(1)]]);

    let bad = RelAlgebra::Fixed(fixed(&["a", "b"], vec![vec![v(1), v(2)]]))
        .reorder(vec![sym("b"), sym("c")]);
    let err = match bad.iter(&no_env(), None) {
        Err(e) => e,
        Ok(s) => s.collect().expect_err("must fail"),
    };
    assert_eq!(err, QueryError::Plan(PlanInvariant::ReorderColumns));
}

#[test]
fn a_scan_of_a_rule_without_a_store_fails() {
    let mut ra = RelAlgebra::derived(vec![sym("x")], sym("gone"), 0, sp());
    ra.fill_binding_indices_and_compile().unwrap();
    let err = ra.iter(&no_env(), None).err().unwrap();
    assert_eq!(err, QueryError::Plan(PlanInvariant::NoStore));
    assert_eq!(
        err.message(),
        "query plan invariant violated: a compiled scan references a rule with no store"
    );
}

#[test]
fn a_search_extends_each_row_by_its_results() {
    let index = SearchIndex {
        queries: vec![s("cat"), s("dog")],
        results: vec![vec![vec![v(1)], vec![v(2)]], vec![]],
    };
    let env = Env {
        stores: Stores::new(),
        tables: vec![],
        indexes: vec![index],
    };
    let search = |words: Vec<DataValue>| {
        let mut ra = RelAlgebra::Search(Box::new(SearchRA {
            parent: Box::new(RelAlgebra::Fixed(fixed(
                &["q"],
                words.into_iter().map(|w| vec![w]).collect(),
            ))),
            kind: SearchKind::Fts,
            index: 0,
            query: binding("q"),
            filter: None,
            own_bindings: vec![sym("doc")],
            span: sp(),
        }));
        ra.fill_binding_indices_and_compile().unwrap();
        ra
    };
    let ra = search(vec![s("cat"), s("dog"), s("eel")]);
    assert_eq!(
        rows_of(&ra, &env),
        vec![vec![s("cat"), v(1)], vec![s("cat"), v(2)]]
    );
    let bad = search(vec![v(3)]);
    assert_eq!(
        bad.iter(&env, None).unwrap().collect(),
        Err(QueryError::SearchQueryType {
            value: v(3),
            span: sp(),
        })
    );
}

#[test]
fn unused_columns_are_shed_where_they_are_last_needed() {
    let mut left = FactTable::new(1);
    let mut right = FactTable::new(1);
    for k in 1..=3i64 {
        put(&mut left, vec![v(k)], vec![v(k * 100)], 0, 0);
        put(&mut right, vec![v(k)], vec![v(k + 1000)], 0, 0);
    }
    let env = env_of(vec![left, right]);
    let mut ra = RelAlgebra::relation(vec![sym("k"), sym("extra")], handle("el", 0), sp(), None)
        .join(
            RelAlgebra::relation(vec![sym("k2"), sym("v")], handle("er", 1), sp(), None),
            vec![sym("k")],
            vec![sym("k2")],
            sp(),
        )
        .unwrap();
    ra.eliminate_temp_vars(&vec![sym("k"), sym("v")]).unwrap();
    assert_eq!(ra.bindings_after_eliminate(), vec![sym("k"), sym("v")]);
    ra.fill_binding_indices_and_compile().unwrap();
    let expected: Vec<Tuple> = (1..=3i64).map(|k| vec![v(k), v(k + 1000)]).collect();
    assert_eq!(rows_of(&ra, &env), expected);
}

#[test]
fn a_plan_explains_itself() {
    let ra = RelAlgebra::relation(vec![sym("a"), sym("b")], handle("l", 0), sp(), None)
        .join(
            RelAlgebra::relation(vec![sym("c")], handle("r", 1), sp(), None),
            vec![sym("a")],
            vec![sym("c")],
            sp(),
        )
        .unwrap();
    let text = format!("{:?}", ra.explain());
    assert!(text.starts_with("Join { bindings: [\"a\", \"b\", \"c\"]"), "{text}");
    if let RelAlgebra::Join(j) = &ra {
        assert_eq!(j.joiner.describe(), "[a]<->[c]");
    }
}

fn three_columns() -> (FactTable, FactTable) {
    let mut left = FactTable::new(1);
    let mut right = FactTable::new(1);
    for i in 0..6 {
        put(&mut left, vec![v(i)], vec![v(i % 3), v(i * 10)], 0, 1);
    }
    for i in 0..2 {
        put(&mut right, vec![v(i)], vec![s("name"), v(i + 100)], 0, 1);
    }
    (left, right)
}

fn joined_plan() -> RelAlgebra {
    RelAlgebra::relation(
        vec![sym("k"), sym("g"), sym("x")],
        handle("l", 0),
        sp(),
        None,
    )
    .join(
        RelAlgebra::relation(
            vec![sym("h"), sym("n"), sym("y")],
            handle("r", 1),
            sp(),
            None,
        ),
        vec![sym("g")],
        vec![sym("h")],
        sp(),
    )
    .unwrap()
    .unify(
        sym("z"),
        apply(Op::Add, binding("x"), binding("y")),
        false,
        sp(),
    )
}

#[test]
fn elimination_keeps_what_is_used() {
    let (left, right) = three_columns();
    let env = env_of(vec![left, right]);
    let mut whole = joined_plan();
    whole.fill_binding_indices_and_compile().unwrap();
    let mut less = joined_plan();
    less.eliminate_temp_vars(&vec![sym("k"), sym("z")]).unwrap();
    less.fill_binding_indices_and_compile().unwrap();
    assert_eq!(less.bindings_after_eliminate(), vec![sym("k"), sym("z")]);
    let place = |name: &str| {
        let all = whole.bindings_after_eliminate();
        all.iter().position(|b| b == name).unwrap()
    };
    let (k, z) = (place("k"), place("z"));
    let want: Vec<(DataValue, DataValue)> = rows_of(&whole, &env)
        .into_iter()
        .map(|mut row| {
            let last = row.remove(z);
            (row.remove(k), last)
        })
        .collect();
    let got: Vec<(DataValue, DataValue)> = rows_of(&less, &env)
        .into_iter()
        .map(|mut row| {
            let last = row.remove(1);
            (row.remove(0), last)
        })
        .collect();
    assert_eq!(got, want);
    assert_eq!(got.len(), 4);
    assert!(got.contains(&(v(4), v(40 + 101))));
}

#[test]
fn negation_keeps_what_the_join_leaves() {
    let scan = || {
        RelAlgebra::relation(
            vec![sym("k"), sym("g"), sym("x")],
            handle("l", 0),
            sp(),
            None,
        )
    };
    let other = || {
        RelAlgebra::relation(
            vec![sym("h"), sym("n"), sym("y")],
            handle("r", 1),
            sp(),
            None,
        )
    };
    let (left, right) = three_columns();
    let env = env_of(vec![left, right]);
    let all = rows_of(&scan(), &env);
    let on = || (vec![sym("g")], vec![sym("h")]);
    let joined = rows_of(&scan().join(other(), on().0, on().1, sp()).unwrap(), &env);
    let negated = rows_of(&scan().neg_join(other(), on().0, on().1, sp()).unwrap(), &env);
    let extended = |row: &Tuple| joined.iter().any(|x| x[..3] == row[..]);
    let want: Vec<&Tuple> = all.iter().filter(|row| !extended(row)).collect();
    assert_eq!(negated.iter().collect::<Vec<_>>(), want);
    assert_eq!(negated.len(), 2);
}

/// A relation keyed by one column whose second row lost its payload.
fn truncated() -> FactTable {
    let mut table = FactTable::new(1);
    put(&mut table, vec![v(1)], vec![v(10)], 0, 0);
    put(&mut table, vec![v(2)], vec![], 0, 0);
    put(&mut table, vec![v(3)], vec![v(31)], 0, 0);
    table
}

fn pairs(keys: &[i64]) -> RelAlgebra {
    RelAlgebra::Fixed(fixed(
        &["k", "x"],
        keys.iter().map(|k| vec![v(*k), v(*k * 10)]).collect(),
    ))
}

fn truncated_scan(valid: Option<ValidityClause>) -> RelAlgebra {
    RelAlgebra::relation(vec![sym("k2"), sym("v")], handle("r", 0), sp(), valid)
}

fn too_short() -> QueryError {
    QueryError::RowTooShort {
        relation: sym("r"),
        index: 1,
        len: 1,
        span: sp(),
    }
}

#[test]
fn a_probed_row_without_a_join_column_fails_the_join() {
    let on = Segments {
        by_relation: vec![Some(Segment::build(&truncated()))],
    };
    let env = env_of(vec![truncated()]);
    let join = |keys: &[i64]| {
        pairs(keys)
            .join(
                truncated_scan(None),
                vec![sym("k"), sym("x")],
                vec![sym("k2"), sym("v")],
                sp(),
            )
            .unwrap()
    };
    let by_row = join(&[1, 2, 3]).iter(&env, None).unwrap();
    assert_eq!(
        by_row.items,
        vec![Ok(vec![v(1), v(10), v(1), v(10)]), Err(too_short())]
    );
    for segments in [&off(), &on] {
        let batched = join(&[1, 2, 3]).iter_batched(&env, None, segments).unwrap();
        assert_eq!(batched.into_rows().items, vec![Err(too_short())]);
    }
    // A row that no left row finds by its key does no harm.
    assert_eq!(
        rows_of(&join(&[1, 3]), &env),
        vec![vec![v(1), v(10), v(1), v(10)]]
    );
    let served = join(&[1, 3]).iter_batched(&env, None, &on).unwrap();
    assert_eq!(served.into_rows().collect().unwrap().len(), 1);
}

#[test]
fn the_first_join_column_that_differs_or_is_missing_decides() {
    let mut table = FactTable::new(1);
    put(&mut table, vec![v(1)], vec![v(5)], 0, 0);
    let env = env_of(vec![table]);
    let left = || RelAlgebra::Fixed(fixed(&["a", "b", "c"], vec![vec![v(1), v(6), v(7)]]));
    let right = || {
        RelAlgebra::relation(
            vec![sym("k"), sym("x"), sym("y")],
            handle("r", 0),
            sp(),
            None,
        )
    };
    let join = |l: [&str; 3], r: [&str; 3]| {
        left()
            .join(
                right(),
                l.iter().map(|n| sym(n)).collect(),
                r.iter().map(|n| sym(n)).collect(),
                sp(),
            )
            .unwrap()
            .iter(&env, None)
            .unwrap()
    };
    // The second column differs before the missing third one is read.
    let differs = join(["a", "b", "c"], ["k", "x", "y"]);
    assert!(differs.items.is_empty());
    let missing = join(["a", "c", "b"], ["k", "y", "x"]);
    assert_eq!(
        missing.collect(),
        Err(QueryError::RowTooShort {
            relation: sym("r"),
            index: 2,
            len: 2,
            span: sp(),
        })
    );
}

#[test]
fn a_row_without_a_join_column_is_found_by_no_prefix_as_of_a_coordinate() {
    let env = env_of(vec![truncated()]);
    let as_of = ValidityClause::At(AsOf {
        valid: i64::MAX,
        sys: i64::MAX,
    });
    let join = pairs(&[1, 2, 3])
        .join(
            truncated_scan(Some(as_of)),
            vec![sym("k"), sym("x")],
            vec![sym("k2"), sym("v")],
            sp(),
        )
        .unwrap();
    assert_eq!(rows_of(&join, &env), vec![vec![v(1), v(10), v(1), v(10)]]);
}

#[test]
fn a_negation_fails_on_a_row_without_a_join_column() {
    let env = env_of(vec![truncated()]);
    // The column is read from every row before the first left row.
    let by_value = pairs(&[1, 3])
        .neg_join(truncated_scan(None), vec![sym("x")], vec![sym("v")], sp())
        .unwrap();
    assert_eq!(by_value.iter(&env, None).err(), Some(too_short()));
    assert_eq!(by_value.iter_batched(&env, None, &off()).err(), Some(too_short()));
    // By prefix it is read from the rows that a left row finds.
    let by_prefix = |keys: &[i64]| {
        pairs(keys)
            .neg_join(
                truncated_scan(None),
                vec![sym("k"), sym("x")],
                vec![sym("k2"), sym("v")],
                sp(),
            )
            .unwrap()
    };
    let failing = by_prefix(&[3, 4, 2, 1]).iter(&env, None).unwrap();
    assert_eq!(
        failing.items,
        vec![Ok(vec![v(3), v(30)]), Ok(vec![v(4), v(40)]), Err(too_short())]
    );
    assert_eq!(rows_of(&by_prefix(&[3, 1]), &env), vec![vec![v(3), v(30)]]);
}

#[test]
fn bounds_leave_no_match_out() {
    let mut table = FactTable::new(2);
    for a in 0..4 {
        for b in 0..6 {
            put(&mut table, vec![v(a), v(b)], vec![], 0, 0);
        }
    }
    let env = env_of(vec![table]);
    let left = RelAlgebra::Fixed(fixed(&["a"], vec![vec![v(3)], vec![v(1)]]));
    let right = RelAlgebra::relation(vec![sym("k"), sym("n")], handle("r", 0), sp(), None);
    let mut ra = left
        .join(right, vec![sym("a")], vec![sym("k")], sp())
        .unwrap()
        .filter(apply(Op::Gt, binding("n"), constant(v(3))))
        .unwrap();
    ra.fill_binding_indices_and_compile().unwrap();
    let want: Vec<Tuple> = [3, 1]
        .iter()
        .flat_map(|a| (4..6).map(move |b| vec![v(*a), v(*a), v(b)]))
        .collect();
    assert_eq!(rows_of(&ra, &env), want);
}

#[test]
fn a_segment_serves_facts_and_no_working_rows() {
    let mut table = FactTable::new(1);
    put(&mut table, vec![v(1)], vec![v(10)], 0, 0);
    put(&mut table, vec![v(2)], vec![v(20)], 0, 0);
    let on = Segments {
        by_relation: vec![Some(Segment::build(&table))],
    };
    let env = env_of(vec![table]);
    let working = || RelationHandle {
        name: sym("state"),
        id: 0,
        keyspace_kind: KeyspaceKind::AlgorithmState,
    };
    assert!(on.serving(&handle("facts", 0)).is_some());
    assert!(on.serving(&handle("other", 1)).is_none());
    assert!(on.serving(&working()).is_none());
    let scan = |h: RelationHandle| RelAlgebra::relation(vec![sym("k"), sym("v")], h, sp(), None);
    let served = scan(handle("facts", 0)).iter_batched(&env, None, &on).unwrap();
    let raw = scan(working()).iter_batched(&env, None, &on).unwrap();
    assert_eq!(served.into_rows().collect(), raw.into_rows().collect());
}

#[test]
fn a_materialized_row_without_a_column_fails_the_join() {
    let env = env_of(vec![truncated()]);
    let join = |keys: &[i64]| {
        pairs(keys)
            .join(truncated_scan(None), vec![sym("x")], vec![sym("v")], sp())
            .unwrap()
    };
    assert_eq!(join(&[1]).iter(&env, None).err(), Some(too_short()));
    assert_eq!(join(&[1]).iter_batched(&env, None, &off()).err(), Some(too_short()));
    // With nothing on the left, nothing on the right is read.
    assert!(rows_of(&join(&[]), &env).is_empty());
}
