//! Proofs rebuilt from the witnesses of an evaluation, and checked.

use kyzo_query::arity::{fixed_arities_of, model_arities};
use kyzo_query::depend::{head_class, strata_of};
use kyzo_query::epoch::{EpochStore, Recorder};
use kyzo_query::fixed::fixed_endpoints;
use kyzo_query::meaning::Stores;
use kyzo_query::order::{OrderedMap, OrderedSet};
use kyzo_query::prepare::{compile_for, Definition};
use kyzo_query::program::{idb_of, FixedEval, FixedRule, Literal, Program, Rule, Term};
use kyzo_query::proof_tree::{
    all_leaves_ground, corrupt_first_step_premise, flip_interior_rule, proof_depth, same_proof,
    with_bumped_tuple, Proof, RulesByHead,
};
use kyzo_query::provenance::{per_head_rules, verify, ProofFault};
use kyzo_query::reach::{naive_transitive_closure, Link};
use kyzo_query::temp_store::{MeetAggrStore, RegularTempStore, TempStore};
use kyzo_query::value::{copy_row, DataValue, Tuple};
use kyzo_query::witness::{index_witness, reconstruct, Witness};
use kyzo_query::aggr::Aggregation;

fn v(i: i64) -> DataValue {
    DataValue::Num(i)
}

fn var(name: &str) -> Term {
    Term::Var(name.to_string())
}

fn vars(names: &[&str]) -> Vec<Term> {
    names.iter().map(|n| var(n)).collect()
}

fn pos(rel: &str, args: &[&str]) -> Literal {
    Literal::pos(rel, vars(args))
}

fn pairs(ps: &[(i64, i64)]) -> OrderedSet<Tuple> {
    OrderedSet::from_vec(ps.iter().map(|(a, b)| vec![v(*a), v(*b)]).collect())
}

fn provenance_fixture() -> Program {
    let mut facts: OrderedMap<String, OrderedSet<Tuple>> = OrderedMap::new();
    facts.insert("edge".to_string(), pairs(&[(1, 2), (2, 3), (3, 4), (2, 5)]));
    facts.insert("tag".to_string(), pairs(&[(4, 100), (5, 200)]));
    let rules = vec![
        Rule::plain("path", vars(&["x", "y"]), vec![pos("edge", &["x", "y"])]),
        Rule::plain(
            "path",
            vars(&["x", "z"]),
            vec![pos("edge", &["x", "y"]), pos("path", &["y", "z"])],
        ),
        Rule::plain(
            "labeled",
            vars(&["x", "z"]),
            vec![pos("path", &["x", "y"]), pos("tag", &["y", "z"])],
        ),
    ];
    Program {
        rules,
        fixed: vec![],
        facts,
    }
}

/// Evaluate a program stratum by stratum. With `over_deltas`, after the first
/// round a rule only runs with one occurrence at a time reading what the last
/// round added.
fn evaluate(program: &Program, entry: &str, arity: usize, over_deltas: bool) -> (Stores, Vec<Witness>) {
    let arities = model_arities(program);
    let fixed_arities = fixed_arities_of(program, &arities);
    let idb = idb_of(program);
    let compiled = compile_for(program, &idb, entry, arity, &fixed_arities);
    let mut stores = Stores::new();
    let mut witnesses: Vec<Witness> = vec![];
    for stratum in &compiled.strata {
        for (name, def) in stratum.defs.keys.iter().zip(&stratum.defs.vals) {
            let store = match def {
                Definition::Fixed { arity, .. } => EpochStore::new_normal(*arity),
                Definition::Rules(set) if set.aggr.iter().any(|a| a.is_some()) => {
                    EpochStore::new_meet(&set.aggr).unwrap()
                }
                Definition::Rules(set) => EpochStore::new_normal(set.aggr.len()),
            };
            stores.insert(name.clone(), store);
        }
        let mut first = true;
        loop {
            let mut outs: Vec<(String, TempStore)> = vec![];
            for (name, def) in stratum.defs.keys.iter().zip(&stratum.defs.vals) {
                match def {
                    Definition::Fixed { rule, .. } => {
                        if first {
                            let mut out = RegularTempStore::new();
                            rule.run(&stores, &mut out);
                            outs.push((name.clone(), out.wrap()));
                        }
                    }
                    Definition::Rules(set) => {
                        let held = stores.get(name).unwrap();
                        let meets = set.aggr.iter().any(|a| a.is_some());
                        let mut out = RegularTempStore::new();
                        let mut meet = MeetAggrStore::new(set.aggr.clone());
                        for (rule_idx, body) in set.bodies.iter().enumerate() {
                            let runs: Vec<Option<usize>> = if first || !over_deltas {
                                vec![None]
                            } else {
                                body.contained_rules().iter().map(|o| Some(o.at)).collect()
                            };
                            for delta in runs {
                                for d in body.for_each_derivation(&stores, delta, true) {
                                    if meets {
                                        meet.as_mut().unwrap().meet_put(&d.head).unwrap();
                                    } else if !held.contains(&d.head) && !out.contains(&d.head) {
                                        witnesses.push(Witness {
                                            store: name.clone(),
                                            tuple: copy_row(&d.head),
                                            derivation: Some((rule_idx, d.premises)),
                                        });
                                        out.put(d.head);
                                    }
                                }
                            }
                        }
                        outs.push((
                            name.clone(),
                            if meets {
                                meet.unwrap().wrap()
                            } else {
                                out.wrap()
                            },
                        ));
                    }
                }
            }
            let mut added = 0;
            for (name, out) in outs {
                let at = stores.keys.iter().position(|k| *k == name).unwrap();
                added += stores.stores[at].merge_in(out, &mut Recorder::new()).unwrap().0;
            }
            if added == 0 {
                break;
            }
            first = false;
        }
    }
    (stores, witnesses)
}

fn rows_of(stores: &Stores, rel: &str) -> Vec<Tuple> {
    let store = stores.get(&rel.to_string()).unwrap();
    store.all_iter().iter().map(|t| t.into_tuple()).collect()
}

fn rebuilt(rel: &str, tuple: &Tuple, ws: &Vec<Witness>, rules: &RulesByHead, idb: &OrderedSet<String>) -> Proof {
    reconstruct(&rel.to_string(), tuple, ws, rules, idb)
        .unwrap_or_else(|| panic!("reconstruct {rel}{tuple:?}"))
}

#[test]
fn provenance_reconstructs_and_verifies_every_derived_fact() {
    let model = provenance_fixture();
    for over_deltas in [false, true] {
        let (stores, witnesses) = evaluate(&model, "labeled", 2, over_deltas);
        let rules = per_head_rules(&model);
        let idb = idb_of(&model);
        let rows = rows_of(&stores, "labeled");
        assert_eq!(
            rows,
            pairs(&[(1, 100), (1, 200), (2, 100), (2, 200), (3, 100)]).items
        );
        for tuple in &rows {
            let proof = rebuilt("labeled", tuple, &witnesses, &rules, &idb);
            assert_eq!(proof.head(), (&"labeled".to_string(), tuple));
            assert!(verify(&proof, &rules, &model.facts).is_ok());
            assert!(all_leaves_ground(&proof, &model.facts));
        }
        let paths = rows_of(&stores, "path");
        assert_eq!(paths.len(), 8);
        for tuple in &paths {
            let proof = rebuilt("path", tuple, &witnesses, &rules, &idb);
            assert!(verify(&proof, &rules, &model.facts).is_ok());
        }
    }
}

#[test]
fn provenance_negative_control_checker_rejects_corruption() {
    let model = provenance_fixture();
    let (stores, witnesses) = evaluate(&model, "labeled", 2, true);
    let rules = per_head_rules(&model);
    let idb = idb_of(&model);
    let honest = rows_of(&stores, "labeled")
        .iter()
        .map(|t| rebuilt("labeled", t, &witnesses, &rules, &idb))
        .find(|p| proof_depth(p) >= 3)
        .expect("a multi-step labeled fact exists");
    assert!(verify(&honest, &rules, &model.facts).is_ok());

    let corrupt_premise = corrupt_first_step_premise(&honest);
    assert!(verify(&corrupt_premise, &rules, &model.facts).is_err());

    let (rel, tuple, rule_idx, premises) = match honest.clone() {
        Proof::Step {
            rel,
            tuple,
            rule_idx,
            premises,
        } => (rel, tuple, rule_idx, premises),
        ground => panic!("{ground:?}"),
    };
    let mut other = copy_row(&tuple);
    other[0] = v(9999);
    let corrupt_head = Proof::Step {
        rel: rel.clone(),
        tuple: other,
        rule_idx,
        premises: premises.iter().map(|p| p.clone()).collect(),
    };
    assert!(verify(&corrupt_head, &rules, &model.facts).is_err());

    let corrupt_root_idx = Proof::Step {
        rel: rel.clone(),
        tuple,
        rule_idx: 999,
        premises,
    };
    match verify(&corrupt_root_idx, &rules, &model.facts) {
        Err(ProofFault::RuleOutOfRange { rule_idx: 999, .. }) => {}
        got => panic!("{got:?}"),
    }

    let corrupt_sibling = flip_interior_rule(&honest, &rules);
    assert_ne!(corrupt_sibling, honest);
    assert!(!same_proof(&corrupt_sibling, &honest));
    assert!(verify(&corrupt_sibling, &rules, &model.facts).is_err());
}

fn ground(rel: &str, a: i64, b: i64) -> Proof {
    Proof::Ground {
        rel: rel.to_string(),
        tuple: vec![v(a), v(b)],
    }
}

fn step(rel: &str, a: i64, b: i64, rule_idx: usize, premises: Vec<Proof>) -> Proof {
    Proof::Step {
        rel: rel.to_string(),
        tuple: vec![v(a), v(b)],
        rule_idx,
        premises,
    }
}

#[test]
fn each_proof_fault_has_a_proof() {
    let mut model = provenance_fixture();
    model.rules.push(Rule::plain(
        "apart",
        vars(&["x", "y"]),
        vec![pos("edge", &["x", "y"]), Literal::neg("tag", vars(&["x", "y"]))],
    ));
    let mut rules = per_head_rules(&model);
    let check = |rules: &RulesByHead, p: Proof| verify(&p, rules, &model.facts);
    assert!(check(&rules, ground("edge", 1, 2)).is_ok());
    assert!(matches!(
        check(&rules, ground("edge", 2, 1)),
        Err(ProofFault::NotAFact { .. })
    ));
    assert!(matches!(
        check(&rules, step("nowhere", 1, 2, 0, vec![])),
        Err(ProofFault::NoRules { .. })
    ));
    assert!(matches!(
        check(&rules, step("path", 1, 2, 2, vec![])),
        Err(ProofFault::RuleOutOfRange { rule_idx: 2, .. })
    ));
    assert!(matches!(
        check(&rules, step("apart", 1, 2, 0, vec![ground("edge", 1, 2)])),
        Err(ProofFault::NegatedPremise { .. })
    ));
    assert!(matches!(
        check(&rules, step("path", 1, 2, 0, vec![])),
        Err(ProofFault::PremiseCount {
            premises: 0,
            literals: 1,
            ..
        })
    ));
    assert!(matches!(
        check(&rules, step("path", 1, 2, 0, vec![ground("tag", 4, 100)])),
        Err(ProofFault::PremiseRelation { .. })
    ));
    assert!(matches!(
        check(&rules, step("path", 1, 2, 0, vec![ground("edge", 2, 3)])),
        Err(ProofFault::PremiseMismatch { .. })
    ));
    let narrow = Proof::Step {
        rel: "path".to_string(),
        tuple: vec![v(1)],
        rule_idx: 0,
        premises: vec![ground("edge", 1, 2)],
    };
    assert!(matches!(
        check(&rules, narrow),
        Err(ProofFault::HeadMismatch { .. })
    ));
    // A rule filed under a relation that is not its head.
    rules.insert(
        "odd".to_string(),
        vec![Rule::plain(
            "path",
            vars(&["x", "y"]),
            vec![pos("edge", &["x", "y"])],
        )],
    );
    assert!(matches!(
        check(&rules, step("odd", 1, 2, 0, vec![ground("edge", 1, 2)])),
        Err(ProofFault::WrongHead { .. })
    ));
}

#[test]
fn proofs_have_depth_and_can_be_bumped() {
    let leaf = ground("edge", 3, 4);
    let p = step("path", 2, 4, 1, vec![ground("edge", 2, 3), step("path", 3, 4, 0, vec![leaf])]);
    assert_eq!(proof_depth(&ground("edge", 1, 2)), 1);
    assert_eq!(proof_depth(&p), 3);
    let bumped = with_bumped_tuple(&p);
    assert_eq!(bumped.head().0, "path");
    assert_ne!(bumped.head().1, p.head().1);
}

#[test]
fn a_fact_without_a_witness_has_no_proof() {
    let model = provenance_fixture();
    let (_, witnesses) = evaluate(&model, "labeled", 2, true);
    let (rules, idb) = (per_head_rules(&model), idb_of(&model));
    let path = "path".to_string();
    assert!(reconstruct(&path, &vec![v(4), v(1)], &witnesses, &rules, &idb).is_none());
    assert_eq!(
        index_witness(&witnesses, &path, &vec![v(4), v(1)]),
        witnesses.len()
    );
    let first = index_witness(&witnesses, &path, &vec![v(1), v(2)]);
    assert_eq!(witnesses[first].derivation, Some((0, vec![vec![v(1), v(2)]])));
}

#[test]
fn rounds_over_changes_reach_what_rounds_over_everything_reach() {
    let links: Vec<(i64, i64)> = (0..12).map(|i| (i * 7 % 11, i * 5 % 11)).collect();
    let mut facts: OrderedMap<String, OrderedSet<Tuple>> = OrderedMap::new();
    facts.insert("edge".to_string(), pairs(&links));
    let program = Program {
        rules: vec![
            Rule::plain("path", vars(&["x", "y"]), vec![pos("edge", &["x", "y"])]),
            Rule::plain(
                "path",
                vars(&["x", "z"]),
                vec![pos("path", &["x", "y"]), pos("path", &["y", "z"])],
            ),
            Rule::aggregated(
                "least",
                vars(&["x", "y"]),
                vec![None, Some(Aggregation::Min)],
                vec![pos("path", &["x", "y"])],
            ),
            Rule::plain(
                "loose",
                vars(&["n"]),
                vec![pos("node", &["n"]), Literal::neg("path", vars(&["n", "n"]))],
            ),
        ],
        fixed: vec![FixedRule {
            head_rel: "node".to_string(),
            inputs: vec!["edge".to_string()],
            eval: FixedEval::Endpoints,
        }],
        facts,
    };
    let (naive, _) = evaluate(&program, "loose", 1, false);
    let (semi, _) = evaluate(&program, "loose", 1, true);
    for rel in ["path", "least", "node", "loose"] {
        assert_eq!(rows_of(&naive, rel), rows_of(&semi, rel), "{rel}");
    }
    let edges = OrderedSet::from_vec(links.iter().map(|&(from, to)| Link { from, to }).collect());
    let closed = naive_transitive_closure(&edges).items;
    assert_eq!(rows_of(&semi, "path"), closed);
    let nodes = fixed_endpoints(&vec![pairs(&links)]).items;
    assert_eq!(rows_of(&semi, "node"), nodes);
    for row in rows_of(&semi, "least") {
        let least = closed.iter().find(|r| r[0] == row[0]).unwrap();
        assert_eq!(&row, least);
    }
    let loose: Vec<&Tuple> = nodes
        .iter()
        .filter(|n| !closed.iter().any(|r| r[0] == n[0] && r[1] == n[0]))
        .collect();
    assert_eq!(rows_of(&semi, "loose").iter().collect::<Vec<_>>(), loose);
}

#[test]
fn strata_keep_negation_apart() {
    let mut model = provenance_fixture();
    model.rules.push(Rule::plain(
        "bare",
        vars(&["x", "y"]),
        vec![pos("path", &["x", "y"]), Literal::neg("labeled", vars(&["x", "y"]))],
    ));
    let strata = strata_of(&model);
    let at = |rel: &str| *strata.get(&rel.to_string()).unwrap();
    assert_eq!(at("path"), at("labeled"));
    assert_eq!(at("bare"), at("labeled") + 1);
    let class = head_class(&model, &"path".to_string());
    assert!(!class.is_meet && !class.has_aggr);
}
