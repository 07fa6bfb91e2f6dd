//! Checking proofs, and what is accepted as one.

use vstd::prelude::*;
use crate::names::Name;
use crate::order::{OrderedMap, OrderedSet};
use crate::prepare::rules_for;
use crate::program::{
    fact_sets, facts_wf, stored_rows, LiteralModel, Program, ProgramModel, Rule, RuleModel,
};
use crate::proof_tree::{
    is_stored, lemma_step_model, proved_rel, proved_row, rules_by_head, Proof, ProofModel,
    RulesByHead,
};
use crate::unify::{all_bound, bound, check_unify, grounded, unified, Bindings};
use crate::value::{copy_row, Row, Tuple, Val};

verus! {

/// Group the rules of a program by their heads, in program order.
pub fn per_head_rules(program: &Program) -> (r: RulesByHead)
    ensures
        r.wf(),
        forall|n: Name| #[trigger]
            r@.contains_key(n) == (rules_for(program.deep_view(), n).len() > 0),
        forall|n: Name| #[trigger]
            r@.contains_key(n) ==> r@[n].deep_view() == rules_for(program.deep_view(), n),
{
    let ghost p = program.deep_view();
    let mut out: RulesByHead = OrderedMap::new();
    let mut i: usize = 0;
    proof {
        reveal(Seq::filter);
        assert forall|n: Name| #[trigger] rules_of_first(p, n, 0).len() == 0 by {}
    }
    while i < program.rules.len()
        invariant
            i <= program.rules@.len(),
            p == program.deep_view(),
            out.wf(),
            forall|n: Name| #[trigger]
                out@.contains_key(n) == (rules_of_first(p, n, i as int).len() > 0),
            forall|n: Name| #[trigger]
                out@.contains_key(n) ==> out@[n].deep_view() == rules_of_first(p, n, i as int),
        decreases program.rules.len() - i,
    {
        let rule = &program.rules[i];
        let ghost before = out@;
        proof {
            assert(p.rules[i as int] == rule.deep_view());
            assert forall|n: Name| #[trigger] rules_of_first(p, n, i + 1) == (if n
                == rule.head_rel@ {
                rules_of_first(p, n, i as int).push(rule.deep_view())
            } else {
                rules_of_first(p, n, i as int)
            }) by {
                reveal(Seq::filter);
                assert(p.rules.take(i + 1).drop_last() =~= p.rules.take(i as int));
                assert(p.rules.take(i + 1).last() == rule.deep_view());
            }
        }
        let mut rules: Vec<Rule> = match out.get(&rule.head_rel) {
            Some(held) => copy_rules(held),
            None => Vec::new(),
        };
        let ghost held = rules.deep_view();
        proof {
            assert(out@.contains_key(rule.head_rel@) == (rules_of_first(
                p,
                rule.head_rel@,
                i as int,
            ).len() > 0));
            assert(held =~= rules_of_first(p, rule.head_rel@, i as int));
        }
        rules.push(rule.clone());
        proof {
            assert(rules.deep_view() =~= held.push(rule.deep_view()));
        }
        out.insert(rule.head_rel.clone(), rules);
        proof {
            assert forall|n: Name| #[trigger] out@.contains_key(n) == (rules_of_first(
                p,
                n,
                i + 1,
            ).len() > 0) by {
                assert(before.contains_key(n) == (rules_of_first(p, n, i as int).len() > 0));
            }
            assert forall|n: Name| #[trigger] out@.contains_key(n) implies out@[n].deep_view()
                == rules_of_first(p, n, i + 1) by {
                if n != rule.head_rel@ {
                    assert(before.contains_key(n));
                }
            }
        }
        i = i + 1;
    }
    proof {
        assert(p.rules.take(i as int) =~= p.rules);
        assert forall|n: Name| #[trigger] out@.contains_key(n) == (rules_for(p, n).len() > 0) by {
            assert(rules_of_first(p, n, i as int) == rules_for(p, n));
        }
    }
    out
}

/// The rules of a relation among the first.
spec fn rules_of_first(p: ProgramModel, rel: Name, k: int) -> Seq<RuleModel> {
    p.rules.take(k).filter(|r: RuleModel| r.head_rel == rel)
}

/// A copy of some rules.
fn copy_rules(rs: &Vec<Rule>) -> (r: Vec<Rule>)
    ensures
        r.deep_view() == rs.deep_view(),
{
    let mut out: Vec<Rule> = Vec::new();
    let mut i: usize = 0;
    while i < rs.len()
        invariant
            i <= rs@.len(),
            out.deep_view() == rs.deep_view().take(i as int),
        decreases rs.len() - i,
    {
        let ghost prev = out.deep_view();
        out.push(rs[i].clone());
        proof {
            assert(out.deep_view() =~= prev.push(rs@[i as int].deep_view()));
            assert(rs.deep_view().take(i + 1) =~= prev.push(rs@[i as int].deep_view()));
        }
        i = i + 1;
    }
    proof {
        assert(rs.deep_view().take(i as int) =~= rs.deep_view());
    }
    out
}

/// What is wrong with a proof.
#[derive(Debug)]
pub enum ProofFault {
    /// A leaf is no stored fact.
    NotAFact { rel: String, tuple: Tuple },
    /// A relation has no rules.
    NoRules { rel: String },
    /// A relation has fewer rules.
    RuleOutOfRange { rel: String, rule_idx: usize },
    /// A rule is one of another relation.
    WrongHead { rule_head: String, rel: String },
    /// A rule negates, which a proof cannot show.
    NegatedPremise { rel: String },
    /// There are more or fewer premises than literals.
    PremiseCount { rel: String, premises: usize, literals: usize },
    /// The head of a rule is not the fact.
    HeadMismatch { rule_idx: usize, tuple: Tuple },
    /// A premise is of another relation than its literal.
    PremiseRelation { premise: String, literal: String },
    /// A premise does not fit the rest.
    PremiseMismatch { rel: String, tuple: Tuple },
}

/// The model of a [`ProofFault`].
pub enum FaultModel {
    NotAFact { rel: Name, tuple: Row },
    NoRules { rel: Name },
    RuleOutOfRange { rel: Name, rule_idx: usize },
    WrongHead { rule_head: Name, rel: Name },
    NegatedPremise { rel: Name },
    PremiseCount { rel: Name, premises: nat, literals: nat },
    HeadMismatch { rule_idx: usize, tuple: Row },
    PremiseRelation { premise: Name, literal: Name },
    PremiseMismatch { rel: Name, tuple: Row },
}

impl DeepView for ProofFault {
    type V = FaultModel;

    open spec fn deep_view(&self) -> FaultModel {
        match *self {
            ProofFault::NotAFact { rel, tuple } => FaultModel::NotAFact {
                rel: rel@,
                tuple: tuple.deep_view(),
            },
            ProofFault::NoRules { rel } => FaultModel::NoRules { rel: rel@ },
            ProofFault::RuleOutOfRange { rel, rule_idx } => FaultModel::RuleOutOfRange {
                rel: rel@,
                rule_idx,
            },
            ProofFault::WrongHead { rule_head, rel } => FaultModel::WrongHead {
                rule_head: rule_head@,
                rel: rel@,
            },
            ProofFault::NegatedPremise { rel } => FaultModel::NegatedPremise { rel: rel@ },
            ProofFault::PremiseCount { rel, premises, literals } => FaultModel::PremiseCount {
                rel: rel@,
                premises: premises as nat,
                literals: literals as nat,
            },
            ProofFault::HeadMismatch { rule_idx, tuple } => FaultModel::HeadMismatch {
                rule_idx,
                tuple: tuple.deep_view(),
            },
            ProofFault::PremiseRelation { premise, literal } => FaultModel::PremiseRelation {
                premise: premise@,
                literal: literal@,
            },
            ProofFault::PremiseMismatch { rel, tuple } => FaultModel::PremiseMismatch {
                rel: rel@,
                tuple: tuple.deep_view(),
            },
        }
    }
}

/// Whether a rule body negates.
pub open spec fn negates(body: Seq<LiteralModel>) -> bool {
    exists|j: int| 0 <= j < body.len() && (#[trigger] body[j]).negated
}

/// The bindings under which the first `k` literals are the facts that the
/// premises prove, or the first that they are not.
pub open spec fn premises_fit(
    body: Seq<LiteralModel>,
    premises: Seq<ProofModel>,
    b: Map<Name, Val>,
    k: int,
) -> Result<Map<Name, Val>, FaultModel>
    decreases k,
{
    if k <= 0 {
        Ok(b)
    } else {
        match premises_fit(body, premises, b, k - 1) {
            Err(f) => Err(f),
            Ok(m) => {
                let l = body[k - 1];
                let child = premises[k - 1];
                if proved_rel(child) != l.rel {
                    Err(
                        FaultModel::PremiseRelation { premise: proved_rel(child), literal: l.rel },
                    )
                } else {
                    match unified(l.args, proved_row(child), m) {
                        None => Err(
                            FaultModel::PremiseMismatch {
                                rel: proved_rel(child),
                                tuple: proved_row(child),
                            },
                        ),
                        Some(next) => Ok(next),
                    }
                }
            },
        }
    }
}

/// What is wrong with a step, its premises taken as proved.
pub open spec fn step_fault(
    rel: Name,
    tuple: Row,
    rule_idx: usize,
    premises: Seq<ProofModel>,
    rules: Map<Name, Seq<RuleModel>>,
) -> Option<FaultModel> {
    if !rules.contains_key(rel) {
        Some(FaultModel::NoRules { rel })
    } else if rule_idx >= rules[rel].len() {
        Some(FaultModel::RuleOutOfRange { rel, rule_idx })
    } else {
        let rule = rules[rel][rule_idx as int];
        if rule.head_rel != rel {
            Some(FaultModel::WrongHead { rule_head: rule.head_rel, rel })
        } else if negates(rule.body) {
            Some(FaultModel::NegatedPremise { rel })
        } else if rule.body.len() != premises.len() {
            Some(
                FaultModel::PremiseCount {
                    rel,
                    premises: premises.len(),
                    literals: rule.body.len(),
                },
            )
        } else {
            match unified(rule.head_args, tuple, Map::empty()) {
                None => Some(FaultModel::HeadMismatch { rule_idx, tuple }),
                Some(b) => match premises_fit(rule.body, premises, b, premises.len() as int) {
                    Err(f) => Some(f),
                    Ok(_) => None,
                },
            }
        }
    }
}

/// The first thing that is wrong with a proof: a step is looked at before its
/// premises.
pub open spec fn fault(
    p: ProofModel,
    rules: Map<Name, Seq<RuleModel>>,
    facts: Map<Name, Set<Row>>,
) -> Option<FaultModel>
    decreases p,
{
    match p {
        ProofModel::Ground { rel, tuple } => if stored_rows(facts, rel).contains(tuple) {
            None
        } else {
            Some(FaultModel::NotAFact { rel, tuple })
        },
        ProofModel::Step { rel, tuple, rule_idx, premises } => match step_fault(
            rel,
            tuple,
            rule_idx,
            premises,
            rules,
        ) {
            Some(f) => Some(f),
            None => first_fault(premises, rules, facts, premises.len() as int),
        },
    }
}

/// The first thing that is wrong with the first `k` proofs.
pub open spec fn first_fault(
    ps: Seq<ProofModel>,
    rules: Map<Name, Seq<RuleModel>>,
    facts: Map<Name, Set<Row>>,
    k: int,
) -> Option<FaultModel>
    decreases ps, k,
{
    if k <= 0 || k > ps.len() {
        None
    } else {
        match first_fault(ps, rules, facts, k - 1) {
            Some(f) => Some(f),
            None => fault(ps[k - 1], rules, facts),
        }
    }
}

proof fn lemma_first_fault_stays(
    ps: Seq<ProofModel>,
    rules: Map<Name, Seq<RuleModel>>,
    facts: Map<Name, Set<Row>>,
    j: int,
    k: int,
)
    requires
        0 <= j <= k <= ps.len(),
        first_fault(ps, rules, facts, j) is Some,
    ensures
        first_fault(ps, rules, facts, k) == first_fault(ps, rules, facts, j),
    decreases k,
{
    if j < k {
        lemma_first_fault_stays(ps, rules, facts, j, k - 1);
    }
}

proof fn lemma_premises_misfit(
    body: Seq<LiteralModel>,
    premises: Seq<ProofModel>,
    b: Map<Name, Val>,
    j: int,
    k: int,
)
    requires
        0 <= j <= k,
        premises_fit(body, premises, b, j) is Err,
    ensures
        premises_fit(body, premises, b, k) == premises_fit(body, premises, b, j),
    decreases k,
{
    if j < k {
        lemma_premises_misfit(body, premises, b, j, k - 1);
    }
}

fn has_negation(rule: &Rule) -> (r: bool)
    ensures
        r == negates(rule.deep_view().body),
{
    let ghost body = rule.deep_view().body;
    let mut i: usize = 0;
    while i < rule.body.len()
        invariant
            i <= rule.body@.len(),
            body == rule.body.deep_view(),
            forall|j: int| 0 <= j < i ==> !(#[trigger] body[j]).negated,
        decreases rule.body.len() - i,
    {
        proof {
            assert(body[i as int] == rule.body@[i as int].deep_view());
        }
        if rule.body[i].negated {
            return true;
        }
        i = i + 1;
    }
    false
}

/// Look at a step, its premises taken as proved.
fn check_step(
    rel: &String,
    tuple: &Tuple,
    rule_idx: usize,
    premises: &Vec<Proof>,
    rules: &RulesByHead,
) -> (r: Result<(), ProofFault>)
    requires
        rules.wf(),
    ensures
        match r {
            Ok(_) => step_fault(
                rel@,
                tuple.deep_view(),
                rule_idx,
                premises.deep_view(),
                rules_by_head(rules@),
            ) is None,
            Err(f) => step_fault(
                rel@,
                tuple.deep_view(),
                rule_idx,
                premises.deep_view(),
                rules_by_head(rules@),
            ) == Some(f.deep_view()),
        },
{
    let ghost model = rules_by_head(rules@);
    let ghost ps = premises.deep_view();
    proof {
        assert(ps.len() == premises@.len());
    }
    let held = match rules.get(rel) {
        Some(held) => held,
        None => {
            return Err(ProofFault::NoRules { rel: rel.clone() });
        },
    };
    proof {
        assert(model[rel@] == held.deep_view());
        assert(model[rel@].len() == held@.len());
    }
    if rule_idx >= held.len() {
        return Err(ProofFault::RuleOutOfRange { rel: rel.clone(), rule_idx });
    }
    let rule = &held[rule_idx];
    let ghost rm = rule.deep_view();
    proof {
        assert(model[rel@][rule_idx as int] == rm);
        assert(rm.body.len() == rule.body@.len());
    }
    if rule.head_rel != *rel {
        return Err(
            ProofFault::WrongHead { rule_head: rule.head_rel.clone(), rel: rel.clone() },
        );
    }
    if has_negation(rule) {
        return Err(ProofFault::NegatedPremise { rel: rel.clone() });
    }
    if rule.body.len() != premises.len() {
        return Err(
            ProofFault::PremiseCount {
                rel: rel.clone(),
                premises: premises.len(),
                literals: rule.body.len(),
            },
        );
    }
    let mut b: Bindings = OrderedMap::new();
    proof {
        assert(bound(b) =~= Map::<Name, Val>::empty());
    }
    if !check_unify(&rule.head_args, tuple, &mut b) {
        return Err(ProofFault::HeadMismatch { rule_idx, tuple: copy_row(tuple) });
    }
    let ghost start = bound(b);
    let mut i: usize = 0;
    while i < premises.len()
        invariant
            i <= premises@.len(),
            ps == premises.deep_view(),
            ps.len() == premises@.len(),
            rm == rule.deep_view(),
            rm.body.len() == rule.body@.len(),
            rule.body@.len() == premises@.len(),
            b.wf(),
            premises_fit(rm.body, ps, start, i as int) == Ok::<Map<Name, Val>, FaultModel>(
                bound(b),
            ),
            model.contains_key(rel@),
            rule_idx < model[rel@].len(),
            model[rel@][rule_idx as int] == rm,
            rm.head_rel == rel@,
            !negates(rm.body),
            unified(rm.head_args, tuple.deep_view(), Map::empty()) == Some(start),
            model == rules_by_head(rules@),
        decreases premises.len() - i,
    {
        let l = &rule.body[i];
        let (child_rel, child_row) = premises[i].head();
        proof {
            assert(rm.body[i as int] == l.deep_view());
            assert(ps[i as int] == premises@[i as int].deep_view());
        }
        if *child_rel != l.rel {
            proof {
                lemma_premises_misfit(rm.body, ps, start, i + 1, ps.len() as int);
            }
            return Err(
                ProofFault::PremiseRelation {
                    premise: child_rel.clone(),
                    literal: l.rel.clone(),
                },
            );
        }
        if !check_unify(&l.args, child_row, &mut b) {
            proof {
                lemma_premises_misfit(rm.body, ps, start, i + 1, ps.len() as int);
            }
            return Err(
                ProofFault::PremiseMismatch {
                    rel: child_rel.clone(),
                    tuple: copy_row(child_row),
                },
            );
        }
        i = i + 1;
    }
    Ok(())
}

/// Check a proof: every leaf is a stored fact, and every step an instance of
/// the rule it names, with the facts of its premises for its literals. A rule
/// that negates cannot be shown by a proof, and is refused.
pub fn verify(
    p: &Proof,
    rules: &RulesByHead,
    facts: &OrderedMap<String, OrderedSet<Tuple>>,
) -> (r: Result<(), ProofFault>)
    requires
        rules.wf(),
        facts_wf(*facts),
    ensures
        match r {
            Ok(_) => fault(p.deep_view(), rules_by_head(rules@), fact_sets(facts@)) is None,
            Err(f) => fault(p.deep_view(), rules_by_head(rules@), fact_sets(facts@)) == Some(
                f.deep_view(),
            ),
        },
    decreases p,
{
    proof {
        broadcast use lemma_step_model;
    }
    match p {
        Proof::Ground { rel, tuple } => {
            if is_stored(facts, rel, tuple) {
                Ok(())
            } else {
                Err(ProofFault::NotAFact { rel: rel.clone(), tuple: copy_row(tuple) })
            }
        },
        Proof::Step { rel, tuple, rule_idx, premises } => {
            let ghost model = rules_by_head(rules@);
            let ghost sets = fact_sets(facts@);
            let ghost ps = premises.deep_view();
            let ghost pm = p.deep_view();
            proof {
                assert(ps.len() == premises@.len());
            }
            match check_step(rel, tuple, *rule_idx, premises, rules) {
                Err(f) => {
                    return Err(f);
                },
                Ok(_) => {},
            }
            let mut i: usize = 0;
            while i < premises.len()
                invariant
                    i <= premises@.len(),
                    rules.wf(),
                    facts_wf(*facts),
                    model == rules_by_head(rules@),
                    sets == fact_sets(facts@),
                    ps == premises.deep_view(),
                    ps.len() == premises@.len(),
                    pm == p.deep_view(),
                    fault(pm, model, sets) == first_fault(ps, model, sets, ps.len() as int),
                    decreases_to!(p => premises),
                    first_fault(ps, model, sets, i as int) is None,
                decreases premises.len() - i,
            {
                proof {
                    assert(ps[i as int] == premises@[i as int].deep_view());
                }
                match verify(&premises[i], rules, facts) {
                    Err(f) => {
                        proof {
                            lemma_first_fault_stays(ps, model, sets, i + 1, ps.len() as int);
                        }
                        return Err(f);
                    },
                    Ok(_) => {},
                }
                i = i + 1;
            }
            Ok(())
        },
    }
}

/// Whether a literal is the fact of a premise, under values of its variables.
pub open spec fn is_premise(l: LiteralModel, p: ProofModel, theta: Map<Name, Val>) -> bool {
    &&& all_bound(l.args, theta)
    &&& proved_rel(p) == l.rel
    &&& proved_row(p) == grounded(l.args, theta)
}

/// Whether a step is an instance of a rule: under some values of the
/// variables the head is the fact, and each literal the fact of a premise.
pub open spec fn is_instance(
    rule: RuleModel,
    tuple: Row,
    premises: Seq<ProofModel>,
    theta: Map<Name, Val>,
) -> bool {
    &&& all_bound(rule.head_args, theta)
    &&& grounded(rule.head_args, theta) == tuple
    &&& rule.body.len() == premises.len()
    &&& forall|j: int|
        0 <= j < premises.len() ==> #[trigger] is_premise(rule.body[j], premises[j], theta)
}

/// Whether a step names a rule without negation that it is an instance of.
pub open spec fn is_valid_step(
    rel: Name,
    tuple: Row,
    rule_idx: usize,
    premises: Seq<ProofModel>,
    rules: Map<Name, Seq<RuleModel>>,
) -> bool {
    &&& rules.contains_key(rel)
    &&& rule_idx < rules[rel].len()
    &&& rules[rel][rule_idx as int].head_rel == rel
    &&& !negates(rules[rel][rule_idx as int].body)
    &&& exists|theta: Map<Name, Val>| #[trigger]
        is_instance(rules[rel][rule_idx as int], tuple, premises, theta)
}

/// Whether a tree is a proof: its leaves are stored facts, and its steps
/// instances of rules.
pub open spec fn proves(
    p: ProofModel,
    rules: Map<Name, Seq<RuleModel>>,
    facts: Map<Name, Set<Row>>,
) -> bool
    decreases p,
{
    match p {
        ProofModel::Ground { rel, tuple } => stored_rows(facts, rel).contains(tuple),
        ProofModel::Step { rel, tuple, rule_idx, premises } => is_valid_step(
            rel,
            tuple,
            rule_idx,
            premises,
            rules,
        ) && forall|i: int|
            0 <= i < premises.len() ==> proves(#[trigger] premises[i], rules, facts),
    }
}

} // verus!
