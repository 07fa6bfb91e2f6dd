//! Queries over the history of stored relations, held to what a history is.

use kyzo_query::asof::{naive_asof, naive_asof_cfg, table_of, Write};
use kyzo_query::delta::{compose, SignedFact};
use kyzo_query::epoch::{EpochStore, Recorder};
use kyzo_query::expr::{Expr, Op, SourceSpan};
use kyzo_query::history::{AsOf, ClaimPolarity, FactTable, RawVersion};
use kyzo_query::instants::interesting_instants;
use kyzo_query::meaning::{Env, Stores};
use kyzo_query::order::OrderedSet;
use kyzo_query::plan::{DeltaAxis, KeyspaceKind, RelAlgebra, RelationHandle, ValidityClause};
use kyzo_query::reach::{naive_present_edges, naive_transitive_closure};
use kyzo_query::rng::{Rng, STRIDE};
use kyzo_query::segment::Segments;
use kyzo_query::temp_store::RegularTempStore;
use kyzo_query::value::{copy_row, DataValue, Interval, Tuple};

fn sp() -> SourceSpan {
    SourceSpan { start: 0, len: 0 }
}

fn v(i: i64) -> DataValue {
    DataValue::Num(i)
}

fn s(x: &str) -> DataValue {
    DataValue::Str(x.to_string())
}

fn num(x: &DataValue) -> i64 {
    match x {
        DataValue::Num(n) => *n,
        other => panic!("not a number: {other:?}"),
    }
}

fn set(rows: Vec<Tuple>) -> Vec<Tuple> {
    OrderedSet::from_vec(rows).items
}

fn ver(key: &[i64], ts: i64, asserted: bool, vals: Vec<DataValue>) -> Write {
    Write {
        key: key.to_vec(),
        ts,
        asserted,
        vals,
    }
}

/// All versions in one commit.
fn written(key_len: usize, versions: &Vec<Write>) -> FactTable {
    table_of(versions, key_len, true)
}

/// One commit per version; the stamps start at 1.
fn written_one_by_one(key_len: usize, versions: &[Write]) -> FactTable {
    let mut table = FactTable::new(key_len);
    for (i, w) in versions.iter().enumerate() {
        table.record(
            w.key.iter().map(|k| v(*k)).collect(),
            RawVersion {
                valid: w.ts,
                sys: i as i64 + 1,
                polarity: if w.asserted {
                    ClaimPolarity::Assert
                } else {
                    ClaimPolarity::Retract
                },
                payload: copy_row(&w.vals),
            },
        );
    }
    table
}

fn plain(rows: &[Vec<i64>], arity: usize) -> FactTable {
    let mut table = FactTable::new(arity);
    for row in rows {
        table.record(
            row.iter().map(|k| v(*k)).collect(),
            RawVersion {
                valid: 0,
                sys: 1,
                polarity: ClaimPolarity::Assert,
                payload: vec![],
            },
        );
    }
    table
}

fn env_of(tables: Vec<FactTable>) -> Env {
    Env {
        stores: Stores::new(),
        tables,
        indexes: vec![],
    }
}

enum Atom {
    /// A stored relation, by its place among the tables.
    Rel(usize, Vec<&'static str>, Option<ValidityClause>),
    NotRel(usize, Vec<&'static str>, Option<ValidityClause>),
    /// A rule's store.
    Rule(&'static str, Vec<&'static str>, usize),
    Pred(Expr),
}

fn at(t: i64) -> Option<ValidityClause> {
    Some(ValidityClause::At(AsOf::current(t)))
}

fn spans(sys: i64) -> Option<ValidityClause> {
    Some(ValidityClause::Spans {
        sys,
        var: "iv".to_string(),
    })
}

fn delta(axis: DeltaAxis, from: i64, to: i64) -> Option<ValidityClause> {
    Some(ValidityClause::Delta {
        axis,
        from,
        to,
        var: "sgn".to_string(),
    })
}

fn pred(op: Op, var: &str, k: i64) -> Atom {
    Atom::Pred(Expr::Apply {
        op,
        args: vec![
            Expr::Binding {
                var: var.to_string(),
                span: sp(),
                tuple_pos: None,
            },
            Expr::Const {
                val: v(k),
                span: sp(),
            },
        ],
        span: sp(),
    })
}

/// Names for the columns of an atom: those already bound get a fresh name.
fn columns(bound: &[String], args: &[&str], fresh: usize) -> (Vec<String>, Vec<String>, Vec<String>) {
    let (mut cols, mut left, mut right) = (vec![], vec![], vec![]);
    for a in args {
        if bound.iter().any(|b| b == a) {
            let name = format!("{a}~{fresh}");
            left.push(a.to_string());
            right.push(name.clone());
            cols.push(name);
        } else {
            cols.push(a.to_string());
        }
    }
    (cols, left, right)
}

fn handle(id: usize) -> RelationHandle {
    RelationHandle {
        name: format!("rel{id}"),
        id,
        keyspace_kind: KeyspaceKind::Facts,
    }
}

/// The plan of a rule body.
fn plan(head: &[&str], body: Vec<Atom>) -> RelAlgebra {
    let mut ra = RelAlgebra::unit(sp());
    for (i, atom) in body.into_iter().enumerate() {
        let bound: Vec<String> = ra.bindings_after_eliminate();
        ra = match atom {
            Atom::Rel(id, args, clause) => {
                let (cols, l, r) = columns(&bound, &args, i);
                let scan = RelAlgebra::relation(cols, handle(id), sp(), clause);
                ra.join(scan, l, r, sp()).unwrap()
            }
            Atom::NotRel(id, args, clause) => {
                let (cols, l, r) = columns(&bound, &args, i);
                let scan = RelAlgebra::relation(cols, handle(id), sp(), clause);
                ra.neg_join(scan, l, r, sp()).unwrap()
            }
            Atom::Rule(name, args, occurrence) => {
                let (cols, l, r) = columns(&bound, &args, i);
                let scan = RelAlgebra::derived(cols, name.to_string(), occurrence, sp());
                ra.join(scan, l, r, sp()).unwrap()
            }
            Atom::Pred(e) => ra.filter(e).unwrap(),
        };
    }
    let head: Vec<String> = head.iter().map(|h| h.to_string()).collect();
    ra.eliminate_temp_vars(&head).unwrap();
    if ra.bindings_after_eliminate() != head {
        ra = ra.reorder(head);
    }
    ra.fill_binding_indices_and_compile().unwrap();
    ra
}

fn run_delta_of(ra: &RelAlgebra, env: &Env, of: Option<usize>) -> Vec<Tuple> {
    let by_row = ra.iter(env, of).unwrap().collect().unwrap();
    let off = Segments {
        by_relation: vec![],
    };
    let batched = ra.iter_batched(env, of, &off).unwrap();
    let rows = set(batched.into_rows().collect().unwrap());
    assert_eq!(set(by_row), rows, "both paths give the same rows");
    rows
}

fn run(env: &Env, head: &[&str], body: Vec<Atom>) -> Vec<Tuple> {
    run_delta_of(&plan(head, body), env, None)
}

fn select_asof(env: &Env, clause: Option<ValidityClause>) -> Vec<Tuple> {
    run(
        env,
        &["k0", "val"],
        vec![Atom::Rel(0, vec!["k0", "val"], clause)],
    )
}

fn naive(hist: &Vec<Write>, t: i64) -> Vec<Tuple> {
    naive_asof(hist, hist[0].key.len(), t).items
}

#[test]
fn boundary_at_instant_is_inclusive() {
    let hist = vec![ver(&[1], 10, true, vec![s("ten")])];
    let env = env_of(vec![written(1, &hist)]);
    assert_eq!(select_asof(&env, at(9)), naive(&hist, 9));
    assert!(select_asof(&env, at(9)).is_empty());
    assert_eq!(select_asof(&env, at(10)), vec![vec![v(1), s("ten")]]);
    assert_eq!(select_asof(&env, at(11)), vec![vec![v(1), s("ten")]]);
}

#[test]
fn same_instant_newest_write_governs() {
    let hist = vec![
        ver(&[1], 10, true, vec![s("present")]),
        ver(&[1], 10, false, vec![]),
    ];
    let got = select_asof(&env_of(vec![written(1, &hist)]), at(10));
    assert!(got.is_empty(), "the later retract governs the instant");
    assert_eq!(got, naive(&hist, 10));

    let hist = vec![
        ver(&[1], 10, false, vec![]),
        ver(&[1], 10, true, vec![s("present")]),
    ];
    let got = select_asof(&env_of(vec![written(1, &hist)]), at(10));
    assert_eq!(got, vec![vec![v(1), s("present")]]);
    assert_eq!(got, naive(&hist, 10));
}

#[test]
fn mutation_first_write_wins_is_caught() {
    let hist = vec![
        ver(&[1], 10, true, vec![s("present")]),
        ver(&[1], 10, false, vec![]),
    ];
    let engine = select_asof(&env_of(vec![written(1, &hist)]), at(10));
    assert_eq!(engine, naive_asof_cfg(&hist, 1, 10, true, true).items);
    assert_ne!(engine, naive_asof_cfg(&hist, 1, 10, true, false).items);
}

#[test]
fn same_instant_identical_key_last_write_wins() {
    let hist = vec![
        ver(&[1], 10, true, vec![s("first")]),
        ver(&[1], 10, true, vec![s("second")]),
    ];
    let got = select_asof(&env_of(vec![written(1, &hist)]), at(10));
    assert_eq!(got, vec![vec![v(1), s("second")]]);
    assert_eq!(got, naive(&hist, 10));
}

#[test]
fn whole_history_of_retractions_never_present() {
    let hist = vec![
        ver(&[7], 10, false, vec![]),
        ver(&[7], 20, false, vec![]),
        ver(&[7], 30, false, vec![]),
    ];
    let env = env_of(vec![written(1, &hist)]);
    for t in [5, 10, 15, 20, 25, 30, 35] {
        let got = select_asof(&env, at(t));
        assert!(got.is_empty(), "retraction-only key visible at {t}: {got:?}");
        assert_eq!(got, naive(&hist, t));
    }
}

#[test]
fn full_history_matrix_differential() {
    let hist = vec![
        ver(&[1], 10, true, vec![s("a")]),
        ver(&[1], 30, true, vec![s("b")]),
        ver(&[1], 50, false, vec![]),
        ver(&[1], 70, true, vec![s("c")]),
        ver(&[2], 20, true, vec![s("p")]),
        ver(&[2], 40, false, vec![]),
        ver(&[3], 60, true, vec![s("q")]),
        ver(&[4], 10, true, vec![s("blink")]),
        ver(&[4], 10, false, vec![]),
    ];
    let env = env_of(vec![written(1, &hist)]);
    for t in interesting_instants(&hist) {
        assert_eq!(select_asof(&env, at(t)), naive(&hist, t), "at {t}");
    }
}

/// Evaluate `path` to its fixpoint, round by round over the changes.
fn closure(table: FactTable, t: i64) -> Vec<Tuple> {
    let base = plan(
        &["x", "y"],
        vec![Atom::Rel(0, vec!["x", "y"], at(t))],
    );
    let step = plan(
        &["x", "y"],
        vec![
            Atom::Rel(0, vec!["x", "z"], at(t)),
            Atom::Rule("path", vec!["z", "y"], 0),
        ],
    );
    let mut env = env_of(vec![table]);
    env.stores.insert("path".to_string(), EpochStore::new_normal(2));
    let mut rows = run_delta_of(&base, &env, None);
    loop {
        let mut out = RegularTempStore::new();
        for row in rows {
            out.put(row);
        }
        let added = env.stores.stores[0]
            .merge_in(out.wrap(), &mut Recorder::new())
            .unwrap();
        if added.0 == 0 {
            let store = env.stores.get(&"path".to_string()).unwrap();
            return store.all_iter().iter().map(|t| t.into_tuple()).collect();
        }
        rows = run_delta_of(&step, &env, Some(0));
    }
}

#[test]
fn tc_over_time_reachability_differs_per_instant() {
    let edges = vec![
        ver(&[1, 2], 10, true, vec![]),
        ver(&[2, 3], 20, true, vec![]),
        ver(&[3, 4], 30, true, vec![]),
        ver(&[2, 3], 40, false, vec![]),
    ];
    let mut sizes = vec![];
    for t in interesting_instants(&edges) {
        let expected = naive_transitive_closure(&naive_present_edges(&edges, 2, t)).items;
        let got = closure(written(2, &edges), t);
        assert_eq!(set(got), expected, "reachability at {t}");
        sizes.push(expected.len());
    }
    assert_eq!(sizes.iter().max(), Some(&6));
}

#[test]
fn join_two_relations_at_same_instant() {
    let ha = vec![
        ver(&[1], 10, true, vec![s("a1")]),
        ver(&[2], 10, true, vec![s("a2")]),
        ver(&[1], 30, false, vec![s("a1")]),
    ];
    let hb = vec![
        ver(&[1], 10, true, vec![s("b1")]),
        ver(&[2], 20, true, vec![s("b2")]),
    ];
    let env = env_of(vec![written(1, &ha), written(1, &hb)]);
    for t in [5, 10, 15, 20, 25, 30, 35] {
        let mut expected = vec![];
        for ar in naive(&ha, t) {
            for br in naive(&hb, t) {
                if ar[0] == br[0] {
                    let mut row = copy_row(&ar);
                    row.extend(copy_row(&br).into_iter().skip(1));
                    expected.push(row);
                }
            }
        }
        let got = run(
            &env,
            &["k", "a", "b"],
            vec![
                Atom::Rel(0, vec!["k", "a"], at(t)),
                Atom::Rel(1, vec!["k", "b"], at(t)),
            ],
        );
        assert_eq!(got, set(expected), "join mismatch at instant {t}");
    }
}

#[test]
fn bounded_asof_scan_over_post_prefix_key_range() {
    let hist = vec![
        ver(&[1, 10], 5, true, vec![s("below")]),
        ver(&[1, 25], 5, true, vec![s("b")]),
        ver(&[1, 35], 5, true, vec![s("c")]),
        ver(&[1, 45], 5, true, vec![s("above")]),
        ver(&[1, 25], 50, false, vec![s("b")]),
        ver(&[2, 30], 5, true, vec![s("e")]),
        ver(&[3, 25], 5, true, vec![s("f")]),
    ];
    let env = env_of(vec![plain(&[vec![1], vec![2]], 1), written(2, &hist)]);
    let bounded = |t: i64| {
        run(
            &env,
            &["k0", "k1", "val"],
            vec![
                Atom::Rel(0, vec!["k0"], None),
                Atom::Rel(1, vec!["k0", "k1", "val"], at(t)),
                pred(Op::Ge, "k1", 20),
                pred(Op::Le, "k1", 40),
            ],
        )
    };
    assert_eq!(
        bounded(10),
        vec![
            vec![v(1), v(25), s("b")],
            vec![v(1), v(35), s("c")],
            vec![v(2), v(30), s("e")],
        ]
    );
    assert_eq!(
        bounded(55),
        vec![vec![v(1), v(35), s("c")], vec![v(2), v(30), s("e")]]
    );
    for t in interesting_instants(&hist) {
        let want: Vec<Tuple> = naive(&hist, t)
            .into_iter()
            .filter(|row| {
                [1, 2].contains(&num(&row[0])) && (20..=40).contains(&num(&row[1]))
            })
            .collect();
        assert_eq!(bounded(t), want, "bounded as-of mismatch at instant {t}");
    }
}

#[test]
fn retraction_is_revision_not_erasure() {
    let hist = vec![
        ver(&[1], 10, true, vec![s("born")]),
        ver(&[1], 50, false, vec![s("born")]),
        ver(&[1], 90, true, vec![s("reborn")]),
    ];
    let env = env_of(vec![written(1, &hist)]);
    let read = |t: i64| select_asof(&env, at(t));
    assert_eq!(read(30), vec![vec![v(1), s("born")]]);
    assert!(read(70).is_empty());
    assert_eq!(read(100), vec![vec![v(1), s("reborn")]]);
    assert!(read(50).is_empty());
    for t in interesting_instants(&hist) {
        assert_eq!(read(t), naive(&hist, t), "revision mismatch at {t}");
    }
}

#[test]
fn plain_scan_reads_current_state_not_versions() {
    let hist = vec![
        ver(&[1], 10, true, vec![s("a")]),
        ver(&[1], 30, false, vec![]),
        ver(&[2], 20, true, vec![s("b")]),
        ver(&[3], 5, true, vec![s("old")]),
        ver(&[3], 25, true, vec![s("new")]),
    ];
    let got = select_asof(&env_of(vec![written(1, &hist)]), None);
    assert_eq!(got, vec![vec![v(2), s("b")], vec![v(3), s("new")]]);
}

fn gen_versions(rng: &mut Rng, n_keys: i64, n_events: usize) -> Vec<Write> {
    (0..n_events)
        .map(|_| {
            let key = vec![rng.range(0, n_keys)];
            let ts = rng.range(0, 8);
            let asserted = rng.chance(7, 10);
            let vals = if asserted {
                vec![v(rng.range(0, 4))]
            } else {
                vec![]
            };
            ver(&key, ts, asserted, vals)
        })
        .collect()
}

fn rows_of(pairs: &[(i64, i64)]) -> Vec<Vec<i64>> {
    pairs.iter().map(|&(k, x)| vec![k, x]).collect()
}

fn pairs_of(rows: &[Tuple]) -> Vec<(i64, i64)> {
    let mut pairs: Vec<(i64, i64)> = rows.iter().map(|r| (num(&r[0]), num(&r[1]))).collect();
    pairs.sort();
    pairs.dedup();
    pairs
}

fn without(candidates: &[(i64, i64)], present: &[(i64, i64)]) -> Vec<Tuple> {
    let rows = candidates
        .iter()
        .filter(|c| !present.contains(c))
        .map(|&(k, x)| vec![v(k), v(x)])
        .collect();
    set(rows)
}

#[test]
fn negation_over_asof_matches_the_independent_complement_generatively() {
    let mut cases = 0usize;
    for seed in 0..300u64 {
        let mut rng = Rng::new(0x9E6A5F_u64.wrapping_mul(STRIDE) ^ seed);
        let n_keys = rng.range(1, 4);
        let n_events = rng.range(1, 15) as usize;
        let hist = gen_versions(&mut rng, n_keys, n_events);
        let mut candidates: Vec<(i64, i64)> = hist
            .iter()
            .filter(|w| w.asserted)
            .map(|w| (w.key[0], num(&w.vals[0])))
            .collect();
        candidates.push((n_keys, 99));
        let env = env_of(vec![written(1, &hist), plain(&rows_of(&candidates), 2)]);
        for t in interesting_instants(&hist) {
            let got = run(
                &env,
                &["k0", "val"],
                vec![
                    Atom::Rel(1, vec!["k0", "val"], None),
                    Atom::NotRel(0, vec!["k0", "val"], at(t)),
                ],
            );
            let present = pairs_of(&naive(&hist, t));
            assert_eq!(got, without(&candidates, &present), "seed {seed} at {t}");
            cases += 1;
        }
    }
    assert!(cases >= 300, "ran {cases}");
}

#[test]
fn negation_over_asof_non_prefix_join_matches_independent_complement() {
    let hist = vec![
        ver(&[1], 10, true, vec![v(100)]),
        ver(&[2], 10, true, vec![v(200)]),
        ver(&[1], 20, false, vec![]),
    ];
    let candidates = plain(&[vec![100], vec![200], vec![999]], 1);
    let env = env_of(vec![written(1, &hist), candidates]);
    let negated = |t: i64| {
        run(
            &env,
            &["val"],
            vec![
                Atom::Rel(1, vec!["val"], None),
                Atom::NotRel(0, vec!["dummy", "val"], at(t)),
            ],
        )
    };
    assert_eq!(negated(10), vec![vec![v(999)]]);
    assert_eq!(negated(20), vec![vec![v(100)], vec![v(999)]]);
}

#[test]
fn validity_scan_is_a_constructible_relation() {
    let ra = RelAlgebra::relation(
        vec!["k0".to_string(), "val".to_string()],
        handle(0),
        sp(),
        at(20),
    );
    assert!(matches!(ra, RelAlgebra::StoredWithValidity(_)));
}

#[test]
fn mutation_exclusive_boundary_is_caught() {
    let hist = vec![
        ver(&[1], 10, true, vec![s("ten")]),
        ver(&[2], 20, true, vec![s("twenty")]),
    ];
    let engine = select_asof(&env_of(vec![written(1, &hist)]), at(10));
    assert_eq!(engine, naive_asof_cfg(&hist, 1, 10, true, true).items);
    assert_ne!(engine, naive_asof_cfg(&hist, 1, 10, false, true).items);
}

#[test]
fn mutation_dropped_retraction_is_caught() {
    let full = vec![
        ver(&[1], 10, true, vec![s("a")]),
        ver(&[1], 30, false, vec![]),
    ];
    let sabotaged = vec![ver(&[1], 10, true, vec![s("a")])];
    let engine = select_asof(&env_of(vec![written(1, &full)]), at(40));
    assert_eq!(engine, naive(&full, 40));
    assert!(engine.is_empty());
    assert_ne!(engine, naive(&sabotaged, 40));
}

#[test]
fn two_coordinate_asof_sees_the_record_as_it_was() {
    let hist = [
        ver(&[1], 100, true, vec![s("original")]),
        ver(&[1], 100, true, vec![s("corrected")]),
    ];
    let env = env_of(vec![written_one_by_one(1, &hist)]);
    let (s1, s2) = (1, 2);
    let read_at = |as_of: AsOf| select_asof(&env, Some(ValidityClause::At(as_of)));
    assert_eq!(
        read_at(AsOf {
            sys: s1,
            valid: 150
        }),
        vec![vec![v(1), s("original")]]
    );
    assert_eq!(
        read_at(AsOf {
            sys: s2,
            valid: 150
        }),
        vec![vec![v(1), s("corrected")]]
    );
    assert_eq!(
        read_at(AsOf::current(150)),
        vec![vec![v(1), s("corrected")]]
    );
    assert!(read_at(AsOf { sys: s2, valid: 50 }).is_empty());
}

/// The payload that governs a key at an instant, by search through the writes.
fn governing(hist: &[Write], key: i64, at: i64, sys: i64) -> Option<i64> {
    let mut best: Option<(i64, usize)> = None;
    for (i, w) in hist.iter().enumerate() {
        let stamp = i as i64 + 1;
        if w.key[0] == key && w.ts <= at && stamp <= sys {
            if best.map_or(true, |(ts, _)| w.ts >= ts) {
                best = Some((w.ts, i));
            }
        }
    }
    best.and_then(|(_, i)| hist[i].vals.first().map(num))
}

fn keys_of(hist: &[Write]) -> Vec<i64> {
    let mut keys: Vec<i64> = hist.iter().map(|w| w.key[0]).collect();
    keys.sort();
    keys.dedup();
    keys
}

fn one_interval(k: i64, val: i64, start: i64, end: i64) -> Tuple {
    vec![v(k), v(val), DataValue::Interval(Interval { start, end })]
}

fn oracle_spans(hist: &[Write], sys: i64) -> Vec<Tuple> {
    let mut rows = vec![];
    for k in keys_of(hist) {
        let mut open: Option<(i64, i64)> = None;
        for t in -1..=9 {
            let now = governing(hist, k, t, sys);
            if open.map(|(x, _)| x) != now {
                if let Some((x, start)) = open {
                    rows.push(one_interval(k, x, start, t));
                }
                open = now.map(|x| (x, t));
            }
        }
        if let Some((x, start)) = open {
            rows.push(one_interval(k, x, start, i64::MAX));
        }
    }
    set(rows)
}

fn spans_of(env: &Env, sys: i64) -> Vec<Tuple> {
    run(
        env,
        &["k0", "val", "iv"],
        vec![Atom::Rel(0, vec!["k0", "val"], spans(sys))],
    )
}

#[test]
fn spans_engine_matches_the_unified_oracle_generatively() {
    let mut cases = 0usize;
    for seed in 0..300u64 {
        let mut rng = Rng::new(0x5FA5FA_u64.wrapping_mul(STRIDE) ^ seed);
        let n_keys = rng.range(1, 4);
        let n_events = rng.range(1, 15) as usize;
        let hist = gen_versions(&mut rng, n_keys, n_events);
        let env = env_of(vec![written_one_by_one(1, &hist)]);
        for sys in [i64::MAX, hist.len() as i64 / 2 + 1] {
            assert_eq!(
                spans_of(&env, sys),
                oracle_spans(&hist, sys),
                "seed {seed} sys={sys}: {hist:?}"
            );
            cases += 1;
        }
    }
    assert!(cases >= 300, "ran {cases}");
}

#[test]
fn spans_composes_through_ordinary_rule_nesting() {
    let hist = [
        ver(&[1], 10, true, vec![v(100)]),
        ver(&[1], 20, true, vec![v(200)]),
    ];
    let mut env = env_of(vec![written_one_by_one(1, &hist)]);
    let mut inner = RegularTempStore::new();
    for row in spans_of(&env, i64::MAX) {
        inner.put(row);
    }
    let mut store = EpochStore::new_normal(3);
    store.merge_in(inner.wrap(), &mut Recorder::new()).unwrap();
    env.stores.insert("sp_inner".to_string(), store);
    let got = run(
        &env,
        &["k0", "val", "iv"],
        vec![
            Atom::Rule("sp_inner", vec!["k0", "val", "iv"], 0),
            pred(Op::Ge, "val", 150),
        ],
    );
    assert_eq!(got, vec![one_interval(1, 200, 20, i64::MAX)]);
}

fn snapshot(hist: &[Write], at: AsOf) -> Vec<(i64, i64)> {
    keys_of(hist)
        .into_iter()
        .filter_map(|k| governing(hist, k, at.valid, at.sys).map(|x| (k, x)))
        .collect()
}

fn oracle_delta(hist: &[Write], from: AsOf, to: AsOf) -> Vec<Tuple> {
    let (a, b) = (snapshot(hist, from), snapshot(hist, to));
    let mut rows = vec![];
    for (k, x) in &b {
        if !a.contains(&(*k, *x)) {
            rows.push(vec![v(*k), v(*x), v(1)]);
        }
    }
    for (k, x) in &a {
        if !b.contains(&(*k, *x)) {
            rows.push(vec![v(*k), v(*x), v(-1)]);
        }
    }
    set(rows)
}

fn delta_of(env: &Env, axis: DeltaAxis, from: i64, to: i64) -> Vec<Tuple> {
    run(
        env,
        &["k0", "val", "sgn"],
        vec![Atom::Rel(0, vec!["k0", "val"], delta(axis, from, to))],
    )
}

#[test]
fn delta_engine_matches_the_unified_oracle_generatively_both_axes() {
    let mut cases = 0usize;
    for seed in 0..300u64 {
        let mut rng = Rng::new(0xDE17AD_u64.wrapping_mul(STRIDE) ^ seed);
        let n_keys = rng.range(1, 4);
        let n_events = rng.range(1, 15) as usize;
        let hist = gen_versions(&mut rng, n_keys, n_events);
        let env = env_of(vec![written_one_by_one(1, &hist)]);
        for from in -1..=9 {
            for to in -1..=9 {
                let want = oracle_delta(&hist, AsOf::current(from), AsOf::current(to));
                assert_eq!(
                    delta_of(&env, DeltaAxis::Valid, from, to),
                    want,
                    "seed {seed} {from}->{to}: {hist:?}"
                );
                cases += 1;
            }
        }
        let stamps = [0, hist.len() as i64 / 2 + 1, hist.len() as i64 + 1];
        for from in stamps {
            for to in stamps {
                let sys = |sys: i64| AsOf {
                    valid: i64::MAX,
                    sys,
                };
                let want = oracle_delta(&hist, sys(from), sys(to));
                assert_eq!(
                    delta_of(&env, DeltaAxis::Sys, from, to),
                    want,
                    "seed {seed} sys {from}->{to}: {hist:?}"
                );
                cases += 1;
            }
        }
    }
    assert!(cases >= 300, "ran {cases}");
}

fn to_signed(rows: Vec<Tuple>) -> OrderedSet<SignedFact> {
    let facts = rows
        .into_iter()
        .map(|mut row| match row.pop() {
            Some(DataValue::Num(1)) => SignedFact::Plus(row),
            Some(DataValue::Num(-1)) => SignedFact::Minus(row),
            other => panic!("unexpected sign column: {other:?}"),
        })
        .collect();
    OrderedSet::from_vec(facts)
}

fn check_composition(salt: u64) {
    for seed in 0..80u64 {
        let mut rng = Rng::new(salt.wrapping_mul(STRIDE) ^ seed);
        let n_keys = rng.range(1, 3);
        let n_events = rng.range(2, 12) as usize;
        let hist = gen_versions(&mut rng, n_keys, n_events);
        let env = env_of(vec![written_one_by_one(1, &hist)]);
        let change = |from: i64, to: i64| to_signed(delta_of(&env, DeltaAxis::Valid, from, to));
        for (a, b, c) in [(-1, 3, 9), (0, 0, 5), (2, 2, 2), (-1, 9, -1)] {
            assert_eq!(
                compose(&change(a, b), &change(b, c)),
                change(a, c),
                "seed {seed} a={a} b={b} c={c}"
            );
        }
    }
}

#[test]
fn delta_composition_law_holds_through_the_real_engine() {
    check_composition(0xC02EC0);
}

#[test]
fn production_compose_matches_the_composition_law_on_real_engine_output() {
    check_composition(0xC0DE);
}

fn spans_now(hist: &[Write]) -> Vec<Tuple> {
    spans_of(&env_of(vec![written_one_by_one(1, hist)]), i64::MAX)
}

#[test]
fn spans_double_assert_same_payload_is_idempotent_one_interval() {
    let hist = [
        ver(&[1], 10, true, vec![v(100)]),
        ver(&[1], 20, true, vec![v(100)]),
    ];
    assert_eq!(spans_now(&hist), vec![one_interval(1, 100, 10, i64::MAX)]);
}

#[test]
fn spans_payload_split_produces_two_intervals() {
    let hist = [
        ver(&[1], 10, true, vec![v(100)]),
        ver(&[1], 20, true, vec![v(200)]),
    ];
    assert_eq!(
        spans_now(&hist),
        vec![
            one_interval(1, 100, 10, 20),
            one_interval(1, 200, 20, i64::MAX)
        ]
    );
}

#[test]
fn spans_dangling_retract_holds_nowhere() {
    assert!(spans_now(&[ver(&[1], 10, false, vec![])]).is_empty());
}

#[test]
fn spans_assert_after_retract_opens_a_new_interval() {
    let hist = [
        ver(&[1], 10, true, vec![v(100)]),
        ver(&[1], 20, false, vec![]),
        ver(&[1], 30, true, vec![v(100)]),
    ];
    assert_eq!(
        spans_now(&hist),
        vec![
            one_interval(1, 100, 10, 20),
            one_interval(1, 100, 30, i64::MAX)
        ]
    );
}

#[test]
fn spans_no_zero_width_intervals_ever() {
    let hist = [
        ver(&[1], 10, true, vec![v(100)]),
        ver(&[1], 10, true, vec![v(200)]),
    ];
    for row in spans_now(&hist) {
        match row.last() {
            Some(DataValue::Interval(iv)) => assert!(iv.start < iv.end, "{iv:?}"),
            other => panic!("expected an interval column: {other:?}"),
        }
    }
}

#[test]
fn negation_over_spans_matches_the_independent_complement_generatively() {
    let mut cases = 0usize;
    for seed in 0..150u64 {
        let mut rng = Rng::new(0xB16_5FA5_u64.wrapping_mul(STRIDE) ^ seed);
        let n_keys = rng.range(1, 4);
        let n_events = rng.range(1, 15) as usize;
        let hist = gen_versions(&mut rng, n_keys, n_events);
        for sys in [i64::MAX, hist.len() as i64 / 2 + 1] {
            let present = pairs_of(&oracle_spans(&hist, sys));
            let mut candidates = present.clone();
            candidates.push((n_keys, 99));
            let env = env_of(vec![
                written_one_by_one(1, &hist),
                plain(&rows_of(&candidates), 2),
            ]);
            let got = run(
                &env,
                &["k0", "val"],
                vec![
                    Atom::Rel(1, vec!["k0", "val"], None),
                    Atom::NotRel(0, vec!["k0", "val"], spans(sys)),
                ],
            );
            assert_eq!(got, without(&candidates, &present), "seed {seed} sys={sys}");
            cases += 1;
        }
    }
    assert!(cases >= 150, "ran {cases}");
}

#[test]
fn negation_over_delta_matches_the_independent_complement_generatively() {
    let mut cases = 0usize;
    for seed in 0..150u64 {
        let mut rng = Rng::new(0xDE17ADBAD_u64.wrapping_mul(STRIDE) ^ seed);
        let n_keys = rng.range(1, 4);
        let n_events = rng.range(1, 15) as usize;
        let hist = gen_versions(&mut rng, n_keys, n_events);
        for (from, to) in [(-1, 9), (0, 5), (3, 3), (9, -1)] {
            let changed = oracle_delta(&hist, AsOf::current(from), AsOf::current(to));
            let present = pairs_of(&changed);
            let mut candidates = present.clone();
            candidates.push((n_keys, 99));
            let env = env_of(vec![
                written_one_by_one(1, &hist),
                plain(&rows_of(&candidates), 2),
            ]);
            let got = run(
                &env,
                &["k0", "val"],
                vec![
                    Atom::Rel(1, vec!["k0", "val"], None),
                    Atom::NotRel(0, vec!["k0", "val"], delta(DeltaAxis::Valid, from, to)),
                ],
            );
            assert_eq!(got, without(&candidates, &present), "seed {seed} {from}->{to}");
            cases += 1;
        }
    }
    assert!(cases >= 150, "ran {cases}");
}
