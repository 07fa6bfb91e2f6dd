//! Standing queries: commits folded into patches, and answers kept up to date.

use kyzo_query::delta::{diff_sets, SignedFact};
use kyzo_query::model_body::ModelBody;
use kyzo_query::order::{OrderedMap, OrderedSet};
use kyzo_query::program::{copy_body, copy_terms, idb_of, Literal, Program, Rule, Term};
use kyzo_query::standing::{
    fold_events, patch_rows, pending_patches, CallbackEvent, CallbackOp, Patches,
    StandingQuery,
};
use kyzo_query::epoch::{EpochStore, Recorder};
use kyzo_query::meaning::Stores;
use kyzo_query::temp_store::RegularTempStore;
use kyzo_query::value::{copy_row, DataValue, Tuple};

fn v(i: i64) -> DataValue {
    DataValue::Num(i)
}

fn rows(xs: &[i64]) -> Vec<Tuple> {
    xs.iter().map(|x| vec![v(*x)]).collect()
}

fn copy_set(set: &OrderedSet<Tuple>) -> OrderedSet<Tuple> {
    OrderedSet::from_vec(set.items.iter().map(copy_row).collect())
}

/// Stored relations whose commits are told to subscribers.
struct Db {
    names: Vec<String>,
    held: Vec<OrderedSet<Tuple>>,
    /// Each subscription: its id, its relation, and what it has not seen.
    live: Vec<(u32, String, Vec<CallbackEvent>)>,
    next: u32,
}

impl Db {
    fn new(names: &[&str]) -> Db {
        Db {
            names: names.iter().map(|n| n.to_string()).collect(),
            held: names.iter().map(|_| OrderedSet::new()).collect(),
            live: vec![],
            next: 1,
        }
    }

    fn place(&self, rel: &str) -> usize {
        self.names.iter().position(|n| n == rel).unwrap()
    }

    fn tell(&mut self, rel: &str, op: CallbackOp, new: &Tuple, old: Option<&Tuple>) {
        for (_, of, queue) in &mut self.live {
            if of == rel {
                queue.push(CallbackEvent {
                    op,
                    new: vec![copy_row(new)],
                    old: old.iter().map(|o| copy_row(o)).collect(),
                });
            }
        }
    }

    fn put(&mut self, rel: &str, row: Tuple) {
        let at = self.place(rel);
        let had = !self.held[at].insert(copy_row(&row));
        self.tell(rel, CallbackOp::Put, &row, if had { Some(&row) } else { None });
    }

    fn rm(&mut self, rel: &str, row: Tuple) {
        let at = self.place(rel);
        let had = self.held[at].remove(&row);
        self.tell(rel, CallbackOp::Rm, &row, if had { Some(&row) } else { None });
    }

    fn drain(&mut self, ids: &[u32]) -> Vec<Vec<CallbackEvent>> {
        ids.iter()
            .map(|id| {
                let sub = self.live.iter_mut().find(|s| s.0 == *id).unwrap();
                std::mem::take(&mut sub.2)
            })
            .collect()
    }

    fn unregister(&mut self, id: u32) -> bool {
        let n = self.live.len();
        self.live.retain(|s| s.0 != id);
        self.live.len() < n
    }
}

/// The rows of every relation that a program derives, in dependency order.
fn evaluate(rules: &[Rule], edb: &[String], held: &[OrderedSet<Tuple>]) -> (Vec<String>, Vec<OrderedSet<Tuple>>) {
    let mut facts: OrderedMap<String, OrderedSet<Tuple>> = OrderedMap::new();
    for (name, set) in edb.iter().zip(held) {
        facts.insert(name.clone(), copy_set(set));
    }
    let program = Program {
        rules: rules
            .iter()
            .map(|r| Rule::plain(&r.head_rel, copy_terms(&r.head_args), copy_body(&r.body)))
            .collect(),
        fixed: vec![],
        facts,
    };
    let idb = idb_of(&program);
    let mut names: Vec<String> = vec![];
    let mut state: Vec<OrderedSet<Tuple>> = vec![];
    let mut stores = Stores::new();
    for rule in &program.rules {
        let body = ModelBody::new(
            copy_terms(&rule.head_args),
            copy_body(&rule.body),
            &program,
            &idb,
        );
        let mut out = RegularTempStore::new();
        let mut set = OrderedSet::new();
        for d in body.for_each_derivation(&stores, None, false) {
            set.insert(copy_row(&d.head));
            out.put(d.head);
        }
        let mut store = EpochStore::new_normal(rule.head_args.len());
        store.merge_in(out.wrap(), &mut Recorder::new()).unwrap();
        stores.insert(rule.head_rel.clone(), store);
        names.push(rule.head_rel.clone());
        state.push(set);
    }
    (names, state)
}

/// A standing query with the program it answers.
struct Watch {
    rules: Vec<Rule>,
    edb: Vec<String>,
    sq: StandingQuery,
}

fn patched(rows: &[OrderedSet<Tuple>], patches: &Patches) -> Vec<OrderedSet<Tuple>> {
    rows.iter()
        .zip(&patches.patches)
        .map(|(set, patch)| patch_rows(set, patch))
        .collect()
}

impl Watch {
    fn register(db: &mut Db, rules: Vec<Rule>, edb: &[&str]) -> Watch {
        let edb: Vec<String> = edb.iter().map(|e| e.to_string()).collect();
        let mut ids = vec![];
        for rel in &edb {
            ids.push(db.next);
            db.live.push((db.next, rel.clone(), vec![]));
            db.next += 1;
        }
        let snapshot: Vec<OrderedSet<Tuple>> =
            edb.iter().map(|r| copy_set(&db.held[db.place(r)])).collect();
        let none: Vec<OrderedSet<Tuple>> = edb.iter().map(|_| OrderedSet::new()).collect();
        let (mut sq, seed) = StandingQuery::register(edb.clone(), ids, snapshot);
        assert_eq!(patched(&none, &seed), sq.stored);
        assert!(sq.heads.is_empty());
        let (heads, derived) = evaluate(&rules, &edb, &sq.stored);
        sq.heads = heads;
        sq.derived = derived;
        Watch { rules, edb, sq }
    }

    /// Catch up; what changed in each relation.
    fn apply_pending(&mut self, db: &mut Db) -> Vec<(String, OrderedSet<SignedFact>)> {
        let ids: Vec<u32> = self.sq.subscriptions.iter().map(|s| s.id).collect();
        let pending = db.drain(&ids);
        let patches = match self.sq.apply_pending(&pending) {
            None => return vec![],
            Some(p) => p,
        };
        assert_eq!(patches.relations, self.edb);
        let stored = patched(&self.sq.stored, &patches);
        let (heads, derived) = evaluate(&self.rules, &self.edb, &stored);
        let mut changes = vec![];
        for (name, new) in self.edb.iter().zip(&stored).chain(heads.iter().zip(&derived)) {
            let change = diff_sets(self.sq.current(name).unwrap(), new);
            if !change.items.is_empty() {
                changes.push((name.clone(), change));
            }
        }
        self.sq.settle(&patches, heads, derived);
        assert_eq!(self.sq.stored, stored);
        changes
    }

    fn current(&self, rel: &str) -> &OrderedSet<Tuple> {
        self.sq.current(&rel.to_string()).unwrap()
    }

    fn teardown(self, db: &mut Db) -> Vec<u32> {
        let ids = self.sq.teardown();
        for id in &ids {
            db.unregister(*id);
        }
        ids
    }
}

fn var(name: &str) -> Term {
    Term::Var(name.to_string())
}

fn vars(names: &[&str]) -> Vec<Term> {
    names.iter().map(|n| var(n)).collect()
}

/// `?(x) :- p(x), not r(x)`
fn hard_corner_program() -> Vec<Rule> {
    vec![Rule::plain(
        "?",
        vars(&["X"]),
        vec![
            Literal::pos("p", vars(&["X"])),
            Literal::neg("r", vars(&["X"])),
        ],
    )]
}

#[test]
fn register_snapshots_current_state_then_apply_pending_tracks_real_commits() {
    let mut db = Db::new(&["p", "r"]);
    db.put("p", vec![v(1)]);
    let mut w = Watch::register(&mut db, hard_corner_program(), &["p", "r"]);
    assert_eq!(w.current("?").items, rows(&[1]));
    assert!(w.apply_pending(&mut db).is_empty());

    db.put("r", vec![v(1)]);
    let deltas = w.apply_pending(&mut db);
    let of = |deltas: Vec<(String, OrderedSet<SignedFact>)>| {
        deltas.into_iter().find(|d| d.0 == "?").unwrap().1.items
    };
    assert_eq!(of(deltas), vec![SignedFact::Minus(vec![v(1)])]);
    assert!(w.current("?").items.is_empty());

    db.rm("r", vec![v(1)]);
    let deltas = w.apply_pending(&mut db);
    assert_eq!(of(deltas), vec![SignedFact::Plus(vec![v(1)])]);
    assert_eq!(w.current("?").items, rows(&[1]));
    assert!(w.sq.current(&"elsewhere".to_string()).is_none());
    w.teardown(&mut db);
}

#[test]
fn teardown_unregisters_every_subscription() {
    let mut db = Db::new(&["p", "r"]);
    let w = Watch::register(&mut db, hard_corner_program(), &["p", "r"]);
    let ids: Vec<u32> = w.sq.subscriptions.iter().map(|s| s.id).collect();
    assert!(!ids.is_empty());
    assert_eq!(w.teardown(&mut db), ids);
    for id in ids {
        assert!(!db.unregister(id), "id {id} should already be gone");
    }
}

fn shapes() -> Vec<(Vec<Rule>, Vec<(&'static str, usize)>)> {
    let p = || Literal::pos("p", vars(&["X", "Y"]));
    let not = |rel: &str| Literal::neg(rel, vars(&["X"]));
    vec![
        (
            vec![Rule::plain("?", vars(&["X"]), vec![p(), not("r")])],
            vec![("p", 2), ("r", 1)],
        ),
        (
            vec![
                Rule::plain("mid", vars(&["X"]), vec![p(), not("r")]),
                Rule::plain(
                    "?",
                    vars(&["X"]),
                    vec![Literal::pos("mid", vars(&["X"])), not("s")],
                ),
            ],
            vec![("p", 2), ("r", 1), ("s", 1)],
        ),
        (
            vec![Rule::plain(
                "?",
                vars(&["X", "Y"]),
                vec![p(), Literal::pos("r2", vars(&["X", "Y"]))],
            )],
            vec![("p", 2), ("r2", 2)],
        ),
    ]
}

#[test]
fn incremental_matches_recompute_across_real_commit_sequences() {
    let mut rng: u64 = 0xC0FF_EE00_DEAD_BEEF;
    let mut next_range = move |n: u64| {
        rng ^= rng << 13;
        rng ^= rng >> 7;
        rng ^= rng << 17;
        rng % n
    };
    let mut cases = 0;
    for shape in 0..shapes().len() {
        for _iteration in 0..8 {
            let program = || shapes().remove(shape).0;
            let edb = shapes().remove(shape).1;
            let names: Vec<&str> = edb.iter().map(|e| e.0).collect();
            let mut db = Db::new(&names);
            for &(rel, arity) in &edb {
                for _ in 0..next_range(4) {
                    let row: Tuple = (0..arity).map(|_| v(next_range(3) as i64)).collect();
                    if !db.held[db.place(rel)].contains(&row) {
                        db.put(rel, row);
                    }
                }
            }
            let mut incremental = Watch::register(&mut db, program(), &names);
            for commit in 0..5 {
                let (rel, arity) = edb[next_range(edb.len() as u64) as usize];
                let existing: Vec<Tuple> =
                    db.held[db.place(rel)].items.iter().map(copy_row).collect();
                if !existing.is_empty() && next_range(2) == 0 {
                    let victim = copy_row(&existing[next_range(existing.len() as u64) as usize]);
                    db.rm(rel, victim);
                } else {
                    let row: Tuple = (0..arity).map(|_| v(next_range(3) as i64)).collect();
                    db.put(rel, row);
                }
                incremental.apply_pending(&mut db);
                let fresh = Watch::register(&mut db, program(), &names);
                assert_eq!(incremental.sq.stored, fresh.sq.stored);
                assert_eq!(incremental.sq.heads, fresh.sq.heads);
                assert_eq!(
                    incremental.sq.derived, fresh.sq.derived,
                    "shape {shape}, commit {commit}"
                );
                fresh.teardown(&mut db);
                cases += 1;
            }
            incremental.teardown(&mut db);
        }
    }
    assert!(cases > 100, "ran {cases}");
}

fn event(op: CallbackOp, new: &[i64], old: &[i64]) -> CallbackEvent {
    CallbackEvent {
        op,
        new: rows(new),
        old: rows(old),
    }
}

#[test]
fn events_fold_into_one_patch() {
    let put = event(CallbackOp::Put, &[1, 2], &[2, 3]);
    let removal = event(CallbackOp::Rm, &[9], &[4]);
    let folded = fold_events(&vec![put, removal]);
    assert_eq!(
        folded.items,
        OrderedSet::from_vec(vec![
            SignedFact::Plus(vec![v(1)]),
            SignedFact::Minus(vec![v(3)]),
            SignedFact::Minus(vec![v(4)]),
        ])
        .items
    );
    // A row written again, unchanged, is no change.
    let again = event(CallbackOp::Put, &[5], &[5]);
    assert!(fold_events(&vec![again]).items.is_empty());
}

#[test]
fn nothing_pending_is_no_patch() {
    let relations = vec!["p".to_string(), "r".to_string()];
    let quiet = vec![vec![event(CallbackOp::Put, &[5], &[5])], vec![]];
    assert!(pending_patches(&relations, &quiet).is_none());
    let loud = vec![vec![], vec![event(CallbackOp::Rm, &[5], &[5])]];
    let got = pending_patches(&relations, &loud).unwrap();
    assert_eq!(got.relations, relations);
    assert!(got.patches[0].items.is_empty());
    assert_eq!(got.patches[1].items, vec![SignedFact::Minus(vec![v(5)])]);
}

#[test]
fn folded_commits_lead_where_the_commits_lead() {
    let events = || {
        vec![
            event(CallbackOp::Put, &[4, 2], &[2]),
            event(CallbackOp::Rm, &[1], &[1]),
            event(CallbackOp::Put, &[5], &[3]),
        ]
    };
    let start = OrderedSet::from_vec(rows(&[1, 2, 3]));
    let mut one_by_one = copy_set(&start);
    for e in events() {
        one_by_one = patch_rows(&one_by_one, &fold_events(&vec![e]));
    }
    let at_once = patch_rows(&start, &fold_events(&events()));
    assert_eq!(one_by_one, at_once);
    assert_eq!(at_once.items, rows(&[2, 4, 5]));
}

#[test]
fn a_row_put_and_removed_again_is_gone() {
    let events = vec![
        event(CallbackOp::Put, &[7], &[]),
        event(CallbackOp::Rm, &[7], &[7]),
    ];
    let folded = fold_events(&events);
    assert_eq!(folded.items, vec![SignedFact::Minus(vec![v(7)])]);
    let none = OrderedSet::new();
    assert!(patch_rows(&none, &folded).items.is_empty());
    let held = OrderedSet::from_vec(rows(&[7, 8]));
    assert_eq!(patch_rows(&held, &folded).items, rows(&[8]));
}

#[test]
fn a_row_put_removed_and_put_again_is_there() {
    let events = vec![
        event(CallbackOp::Put, &[7], &[]),
        event(CallbackOp::Rm, &[7], &[7]),
        event(CallbackOp::Put, &[7], &[]),
    ];
    let folded = fold_events(&events);
    assert_eq!(folded.items, vec![SignedFact::Plus(vec![v(7)])]);
    let none = OrderedSet::new();
    assert_eq!(patch_rows(&none, &folded).items, rows(&[7]));
}

#[test]
fn a_query_follows_a_row_through_put_removal_and_put() {
    let mut db = Db::new(&["p", "r"]);
    let mut w = Watch::register(&mut db, hard_corner_program(), &["p", "r"]);
    db.put("p", vec![v(1)]);
    db.rm("p", vec![v(1)]);
    w.apply_pending(&mut db);
    assert!(w.current("?").items.is_empty());
    db.put("p", vec![v(1)]);
    db.rm("p", vec![v(1)]);
    db.put("p", vec![v(1)]);
    w.apply_pending(&mut db);
    assert_eq!(w.current("?").items, rows(&[1]));
    assert_eq!(w.current("p").items, rows(&[1]));
    let fresh = Watch::register(&mut db, hard_corner_program(), &["p", "r"]);
    assert_eq!(w.sq.stored, fresh.sq.stored);
    assert_eq!(w.sq.derived, fresh.sq.derived);
    fresh.teardown(&mut db);
    w.teardown(&mut db);
}
