//! Proof trees: how a derived fact follows from stored ones.

use vstd::prelude::*;
use crate::names::Name;
use crate::order::{OrderedMap, OrderedSet};
use crate::program::{facts_wf, stored_rows, fact_sets, Rule, RuleModel};
use crate::value::{copy_row, same_row, DataValue, Row, Tuple, Val};

verus! {

/// A proof of a fact: it is stored, or a rule of its relation entails it from
/// premises.
#[derive(Debug, PartialEq, Eq)]
pub enum Proof {
    Ground { rel: String, tuple: Tuple },
    Step { rel: String, tuple: Tuple, rule_idx: usize, premises: Vec<Proof> },
}

/// The model of a [`Proof`].
pub enum ProofModel {
    Ground { rel: Name, tuple: Row },
    Step { rel: Name, tuple: Row, rule_idx: usize, premises: Seq<ProofModel> },
}

impl DeepView for Proof {
    type V = ProofModel;

    open spec fn deep_view(&self) -> ProofModel {
        proof_model(*self)
    }
}

pub open spec fn proof_model(p: Proof) -> ProofModel
    decreases p,
{
    match p {
        Proof::Ground { rel, tuple } => ProofModel::Ground { rel: rel@, tuple: tuple.deep_view() },
        Proof::Step { rel, tuple, rule_idx, premises } => ProofModel::Step {
            rel: rel@,
            tuple: tuple.deep_view(),
            rule_idx,
            premises: Seq::new(
                premises@.len(),
                |i: int|
                    if 0 <= i < premises@.len() {
                        proof_model(premises@[i])
                    } else {
                        ProofModel::Ground { rel: Seq::empty(), tuple: Seq::empty() }
                    },
            ),
        },
    }
}

/// The premises of a step's model are the models of its premises.
pub broadcast proof fn lemma_step_model(
    rel: String,
    tuple: Tuple,
    rule_idx: usize,
    premises: Vec<Proof>,
)
    ensures
        #[trigger] proof_model(Proof::Step { rel, tuple, rule_idx, premises })
            == (ProofModel::Step {
            rel: rel@,
            tuple: tuple.deep_view(),
            rule_idx,
            premises: premises.deep_view(),
        }),
{
    assert(proof_model(Proof::Step { rel, tuple, rule_idx, premises })->premises
        =~= premises.deep_view());
}

/// The relation of the fact that a proof proves.
pub open spec fn proved_rel(p: ProofModel) -> Name {
    match p {
        ProofModel::Ground { rel, .. } => rel,
        ProofModel::Step { rel, .. } => rel,
    }
}

/// The row of the fact that a proof proves.
pub open spec fn proved_row(p: ProofModel) -> Row {
    match p {
        ProofModel::Ground { tuple, .. } => tuple,
        ProofModel::Step { tuple, .. } => tuple,
    }
}

impl Proof {
    /// The fact that the proof proves.
    pub fn head(&self) -> (r: (&String, &Tuple))
        ensures
            r.0@ == proved_rel(self.deep_view()),
            r.1.deep_view() == proved_row(self.deep_view()),
    {
        match self {
            Proof::Ground { rel, tuple } => (rel, tuple),
            Proof::Step { rel, tuple, .. } => (rel, tuple),
        }
    }
}

impl Clone for Proof {
    fn clone(&self) -> (r: Self)
        ensures
            r.deep_view() == self.deep_view(),
        decreases self,
    {
        proof {
            broadcast use lemma_step_model;
        }
        match self {
            Proof::Ground { rel, tuple } => Proof::Ground {
                rel: rel.clone(),
                tuple: copy_row(tuple),
            },
            Proof::Step { rel, tuple, rule_idx, premises } => Proof::Step {
                rel: rel.clone(),
                tuple: copy_row(tuple),
                rule_idx: *rule_idx,
                premises: copy_proofs(premises),
            },
        }
    }
}

/// A copy of some proofs.
pub fn copy_proofs(ps: &Vec<Proof>) -> (r: Vec<Proof>)
    ensures
        r.deep_view() == ps.deep_view(),
        r@.len() == ps@.len(),
    decreases ps,
{
    let mut out: Vec<Proof> = Vec::new();
    let mut i: usize = 0;
    while i < ps.len()
        invariant
            i <= ps@.len(),
            out@.len() == i,
            out.deep_view() == ps.deep_view().take(i as int),
        decreases ps.len() - i,
    {
        let ghost prev = out.deep_view();
        let copy = ps[i].clone();
        out.push(copy);
        proof {
            assert(out.deep_view() =~= prev.push(ps@[i as int].deep_view()));
            assert(ps.deep_view().take(i + 1) =~= prev.push(ps@[i as int].deep_view()));
        }
        i = i + 1;
    }
    proof {
        assert(ps.deep_view().take(i as int) =~= ps.deep_view());
    }
    out
}

/// Whether two proofs are the same.
pub fn same_proof(a: &Proof, b: &Proof) -> (r: bool)
    ensures
        r == (a.deep_view() == b.deep_view()),
    decreases a,
{
    proof {
        broadcast use lemma_step_model;
    }
    match (a, b) {
        (Proof::Ground { rel: r1, tuple: t1 }, Proof::Ground { rel: r2, tuple: t2 }) => *r1 == *r2
            && same_row(t1, t2),
        (
            Proof::Step { rel: r1, tuple: t1, rule_idx: i1, premises: p1 },
            Proof::Step { rel: r2, tuple: t2, rule_idx: i2, premises: p2 },
        ) => *r1 == *r2 && same_row(t1, t2) && *i1 == *i2 && same_proofs(p1, p2),
        _ => false,
    }
}

/// Whether two lists of proofs are the same.
fn same_proofs(a: &Vec<Proof>, b: &Vec<Proof>) -> (r: bool)
    ensures
        r == (a.deep_view() == b.deep_view()),
    decreases a,
{
    let ghost x = a.deep_view();
    let ghost y = b.deep_view();
    proof {
        assert(x.len() == a@.len());
        assert(y.len() == b@.len());
    }
    if a.len() != b.len() {
        return false;
    }
    let mut i: usize = 0;
    while i < a.len()
        invariant
            i <= a@.len(),
            a@.len() == b@.len(),
            x == a.deep_view(),
            y == b.deep_view(),
            x.len() == a@.len(),
            y.len() == b@.len(),
            forall|j: int| 0 <= j < i ==> x[j] == y[j],
        decreases a.len() - i,
    {
        proof {
            assert(x[i as int] == a@[i as int].deep_view());
            assert(y[i as int] == b@[i as int].deep_view());
        }
        if !same_proof(&a[i], &b[i]) {
            return false;
        }
        i = i + 1;
    }
    proof {
        assert(x =~= y);
    }
    true
}

/// Whether every leaf of a proof is a stored fact.
pub open spec fn leaves_stored(p: ProofModel, facts: Map<Name, Set<Row>>) -> bool
    decreases p,
{
    match p {
        ProofModel::Ground { rel, tuple } => stored_rows(facts, rel).contains(tuple),
        ProofModel::Step { premises, .. } => forall|i: int|
            0 <= i < premises.len() ==> leaves_stored(#[trigger] premises[i], facts),
    }
}

/// Whether a row is stored.
pub fn is_stored(facts: &OrderedMap<String, OrderedSet<Tuple>>, rel: &String, tuple: &Tuple) -> (r:
    bool)
    requires
        facts_wf(*facts),
    ensures
        r == stored_rows(fact_sets(facts@), rel@).contains(tuple.deep_view()),
{
    match facts.get(rel) {
        Some(set) => set.contains(tuple),
        None => false,
    }
}

/// Whether every leaf of a proof is a stored fact.
pub fn all_leaves_ground(p: &Proof, facts: &OrderedMap<String, OrderedSet<Tuple>>) -> (r: bool)
    requires
        facts_wf(*facts),
    ensures
        r == leaves_stored(p.deep_view(), fact_sets(facts@)),
    decreases p,
{
    proof {
        broadcast use lemma_step_model;
    }
    match p {
        Proof::Ground { rel, tuple } => is_stored(facts, rel, tuple),
        Proof::Step { premises, .. } => {
            let ghost ps = premises.deep_view();
            let mut i: usize = 0;
            proof {
                assert(ps.len() == premises@.len());
            }
            while i < premises.len()
                invariant
                    i <= premises@.len(),
                    facts_wf(*facts),
                    ps == premises.deep_view(),
                    ps.len() == premises@.len(),
                    p.deep_view() is Step,
                    p.deep_view()->premises == ps,
                    decreases_to!(p => premises),
                    forall|j: int|
                        0 <= j < i ==> leaves_stored(#[trigger] ps[j], fact_sets(facts@)),
                decreases premises.len() - i,
            {
                proof {
                    assert(ps[i as int] == premises@[i as int].deep_view());
                }
                if !all_leaves_ground(&premises[i], facts) {
                    return false;
                }
                i = i + 1;
            }
            true
        },
    }
}

/// The number of levels of a proof.
pub open spec fn depth(p: ProofModel) -> nat
    decreases p,
{
    match p {
        ProofModel::Ground { .. } => 1,
        ProofModel::Step { premises, .. } => 1 + deepest(premises, premises.len() as int),
    }
}

/// The greatest number of levels among the first `k` proofs.
pub open spec fn deepest(ps: Seq<ProofModel>, k: int) -> nat
    decreases ps, k,
{
    if k <= 0 || k > ps.len() {
        0
    } else {
        let before = deepest(ps, k - 1);
        let last = depth(ps[k - 1]);
        if before < last {
            last
        } else {
            before
        }
    }
}

proof fn lemma_deepest(ps: Seq<ProofModel>, j: int, k: int)
    requires
        0 <= j < k <= ps.len(),
    ensures
        depth(ps[j]) <= deepest(ps, k),
    decreases k,
{
    if j < k - 1 {
        lemma_deepest(ps, j, k - 1);
    }
}

/// The number of levels of a proof.
pub fn proof_depth(p: &Proof) -> (r: usize)
    requires
        depth(p.deep_view()) <= usize::MAX,
    ensures
        r == depth(p.deep_view()),
    decreases p,
{
    proof {
        broadcast use lemma_step_model;
    }
    match p {
        Proof::Ground { .. } => 1,
        Proof::Step { premises, .. } => {
            let ghost ps = premises.deep_view();
            let mut most: usize = 0;
            let mut i: usize = 0;
            proof {
                assert(ps.len() == premises@.len());
            }
            while i < premises.len()
                invariant
                    i <= premises@.len(),
                    ps == premises.deep_view(),
                    ps.len() == premises@.len(),
                    1 + deepest(ps, ps.len() as int) <= usize::MAX,
                    decreases_to!(p => premises),
                    most == deepest(ps, i as int),
                decreases premises.len() - i,
            {
                proof {
                    assert(ps[i as int] == premises@[i as int].deep_view());
                    lemma_deepest(ps, i as int, ps.len() as int);
                }
                let d: usize = proof_depth(&premises[i]);
                if most < d {
                    most = d;
                }
                i = i + 1;
            }
            most + 1
        },
    }
}

/// The row with its first value replaced by one that no fact has.
pub open spec fn bumped_row(row: Row) -> Row {
    row.update(0, Val::Num(7777))
}

/// The proof with the first value of its fact replaced.
pub open spec fn bumped(p: ProofModel) -> ProofModel {
    match p {
        ProofModel::Ground { rel, tuple } => ProofModel::Ground { rel, tuple: bumped_row(tuple) },
        ProofModel::Step { rel, tuple, rule_idx, premises } => ProofModel::Step {
            rel,
            tuple: bumped_row(tuple),
            rule_idx,
            premises,
        },
    }
}

fn bump_row(row: &Tuple) -> (r: Tuple)
    requires
        row@.len() > 0,
    ensures
        r.deep_view() == bumped_row(row.deep_view()),
{
    let mut out = copy_row(row);
    proof {
        assert(out@.len() == out.deep_view().len());
        assert(row@.len() == row.deep_view().len());
    }
    let ghost before = out.deep_view();
    out.set(0, DataValue::Num(7777));
    proof {
        assert(out.deep_view() =~= before.update(0, Val::Num(7777)));
    }
    out
}

/// The same proof node with the first value of its fact replaced by a bogus
/// one.
pub fn with_bumped_tuple(p: &Proof) -> (r: Proof)
    requires
        proved_row(p.deep_view()).len() > 0,
    ensures
        r.deep_view() == bumped(p.deep_view()),
{
    proof {
        broadcast use lemma_step_model;
    }
    match p {
        Proof::Ground { rel, tuple } => {
            proof {
                assert(tuple@.len() == tuple.deep_view().len());
            }
            Proof::Ground { rel: rel.clone(), tuple: bump_row(tuple) }
        },
        Proof::Step { rel, tuple, rule_idx, premises } => {
            proof {
                assert(tuple@.len() == tuple.deep_view().len());
            }
            Proof::Step {
                rel: rel.clone(),
                tuple: bump_row(tuple),
                rule_idx: *rule_idx,
                premises: copy_proofs(premises),
            }
        },
    }
}

/// The first derived premise, the first of all if none is.
pub open spec fn first_step(ps: Seq<ProofModel>, i: int) -> int
    decreases ps.len() - i,
{
    if i < 0 || i >= ps.len() {
        0
    } else if ps[i] is Step {
        i
    } else {
        first_step(ps, i + 1)
    }
}

/// The proof with the fact of one premise of its root replaced.
pub open spec fn corrupted(p: ProofModel) -> ProofModel {
    match p {
        ProofModel::Ground { .. } => p,
        ProofModel::Step { rel, tuple, rule_idx, premises } => if premises.len() == 0 {
            p
        } else {
            let at = first_step(premises, 0);
            ProofModel::Step {
                rel,
                tuple,
                rule_idx,
                premises: premises.update(at, bumped(premises[at])),
            }
        },
    }
}

/// Replace the fact of a premise of the root, preferably of a derived one.
pub fn corrupt_first_step_premise(p: &Proof) -> (r: Proof)
    requires
        p.deep_view() matches ProofModel::Step { premises, .. } ==> premises.len() > 0 ==>
            proved_row(premises[first_step(premises, 0)]).len() > 0,
    ensures
        r.deep_view() == corrupted(p.deep_view()),
{
    proof {
        broadcast use lemma_step_model;
    }
    match p {
        Proof::Ground { .. } => p.clone(),
        Proof::Step { rel, tuple, rule_idx, premises } => {
            let ghost ps = premises.deep_view();
            proof {
                assert(ps.len() == premises@.len());
            }
            let mut copies = copy_proofs(premises);
            if premises.len() > 0 {
                let mut i: usize = 0;
                while i < premises.len() && matches!(premises[i], Proof::Ground { .. })
                    invariant
                        i <= premises@.len(),
                        ps == premises.deep_view(),
                        ps.len() == premises@.len(),
                        first_step(ps, i as int) == first_step(ps, 0),
                    decreases premises.len() - i,
                {
                    proof {
                        assert(ps[i as int] == premises@[i as int].deep_view());
                    }
                    i = i + 1;
                }
                let at: usize = if i < premises.len() {
                    i
                } else {
                    0
                };
                proof {
                    if i < premises@.len() {
                        assert(ps[i as int] == premises@[i as int].deep_view());
                    }
                    assert(at == first_step(ps, 0));
                    assert(ps[at as int] == premises@[at as int].deep_view());
                }
                let ghost before = copies.deep_view();
                let bad = with_bumped_tuple(&premises[at]);
                let ghost m = bad.deep_view();
                copies.set(at, bad);
                proof {
                    assert(copies.deep_view() =~= before.update(at as int, m));
                }
            }
            Proof::Step {
                rel: rel.clone(),
                tuple: copy_row(tuple),
                rule_idx: *rule_idx,
                premises: copies,
            }
        },
    }
}

/// The rules of each relation, in program order.
pub type RulesByHead = OrderedMap<String, Vec<Rule>>;

/// The model of the rules of each relation.
pub open spec fn rules_by_head(m: Map<Name, Vec<Rule>>) -> Map<Name, Seq<RuleModel>> {
    m.map_values(|v: Vec<Rule>| v.deep_view())
}

/// How many rules a relation has.
pub open spec fn rule_count(rules: Map<Name, Seq<RuleModel>>, rel: Name) -> nat {
    if rules.contains_key(rel) {
        rules[rel].len()
    } else {
        0
    }
}

/// The proof with the rule of its first step that has a sibling rule replaced
/// by the next one.
pub open spec fn flipped(p: ProofModel, rules: Map<Name, Seq<RuleModel>>) -> ProofModel
    decreases p,
{
    match p {
        ProofModel::Ground { .. } => p,
        ProofModel::Step { rel, tuple, rule_idx, premises } => if rule_count(rules, rel) > 1 {
            ProofModel::Step {
                rel,
                tuple,
                rule_idx: ((rule_idx + 1) % (rule_count(rules, rel) as int)) as usize,
                premises,
            }
        } else {
            ProofModel::Step {
                rel,
                tuple,
                rule_idx,
                premises: first_flipped(premises, rules, premises.len() as int),
            }
        },
    }
}

/// The proofs with the first that can be flipped among the first `k` flipped.
pub open spec fn first_flipped(
    ps: Seq<ProofModel>,
    rules: Map<Name, Seq<RuleModel>>,
    k: int,
) -> Seq<ProofModel>
    decreases ps, k,
{
    if k <= 0 || k > ps.len() {
        ps
    } else {
        let before = first_flipped(ps, rules, k - 1);
        let last = flipped(ps[k - 1], rules);
        if before != ps || last == ps[k - 1] {
            before
        } else {
            ps.update(k - 1, last)
        }
    }
}

/// Whether every rule of a proof has a next index.
pub open spec fn indices_fit(p: ProofModel) -> bool
    decreases p,
{
    match p {
        ProofModel::Ground { .. } => true,
        ProofModel::Step { rule_idx, premises, .. } => rule_idx < usize::MAX && forall|i: int|
            0 <= i < premises.len() ==> indices_fit(#[trigger] premises[i]),
    }
}

proof fn lemma_first_flipped_stays(
    ps: Seq<ProofModel>,
    rules: Map<Name, Seq<RuleModel>>,
    j: int,
    k: int,
)
    requires
        0 <= j <= k <= ps.len(),
        first_flipped(ps, rules, j) != ps,
    ensures
        first_flipped(ps, rules, k) == first_flipped(ps, rules, j),
    decreases k,
{
    if j < k {
        lemma_first_flipped_stays(ps, rules, j, k - 1);
    }
}

/// Attribute the first step whose relation has more than one rule to the next
/// rule of that relation.
pub fn flip_interior_rule(p: &Proof, rules: &RulesByHead) -> (r: Proof)
    requires
        rules.wf(),
        indices_fit(p.deep_view()),
    ensures
        r.deep_view() == flipped(p.deep_view(), rules_by_head(rules@)),
    decreases p,
{
    proof {
        broadcast use lemma_step_model;
    }
    match p {
        Proof::Ground { .. } => p.clone(),
        Proof::Step { rel, tuple, rule_idx, premises } => {
            let ghost model = rules_by_head(rules@);
            let n: usize = match rules.get(rel) {
                Some(v) => v.len(),
                None => 0,
            };
            proof {
                if rules@.contains_key(rel@) {
                    assert(model[rel@].len() == rules@[rel@]@.len());
                }
                assert(n == rule_count(model, rel@));
            }
            if n > 1 {
                let next: usize = (*rule_idx + 1) % n;
                return Proof::Step {
                    rel: rel.clone(),
                    tuple: copy_row(tuple),
                    rule_idx: next,
                    premises: copy_proofs(premises),
                };
            }
            let ghost ps = premises.deep_view();
            proof {
                assert(ps.len() == premises@.len());
            }
            let mut copies = copy_proofs(premises);
            let mut i: usize = 0;
            let mut done = false;
            while i < premises.len() && !done
                invariant
                    i <= premises@.len(),
                    rules.wf(),
                    model == rules_by_head(rules@),
                    ps == premises.deep_view(),
                    ps.len() == premises@.len(),
                    copies@.len() == ps.len(),
                    decreases_to!(p => premises),
                    forall|j: int| 0 <= j < ps.len() ==> indices_fit(#[trigger] ps[j]),
                    copies.deep_view() == first_flipped(ps, model, i as int),
                    done == (copies.deep_view() != ps),
                decreases premises.len() - i,
            {
                proof {
                    assert(ps[i as int] == premises@[i as int].deep_view());
                }
                let other = flip_interior_rule(&premises[i], rules);
                if !same_proof(&other, &premises[i]) {
                    let ghost before = copies.deep_view();
                    let ghost m = other.deep_view();
                    copies.set(i, other);
                    done = true;
                    proof {
                        assert(copies.deep_view() =~= before.update(i as int, m));
                        assert(copies.deep_view()[i as int] != ps[i as int]);
                    }
                }
                i = i + 1;
            }
            proof {
                if done {
                    lemma_first_flipped_stays(ps, model, i as int, ps.len() as int);
                }
            }
            Proof::Step {
                rel: rel.clone(),
                tuple: copy_row(tuple),
                rule_idx: *rule_idx,
                premises: copies,
            }
        },
    }
}

} // verus!
