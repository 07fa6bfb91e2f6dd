//! What an accepted proof guarantees, and how one is rebuilt from the
//! witnesses of an evaluation.

use vstd::prelude::*;
use crate::names::Name;
use crate::program::{stored_rows, LiteralModel, RuleModel, TermModel};
use crate::proof_tree::{leaves_stored, proved_rel, proved_row, ProofModel};
use crate::provenance::{
    fault, first_fault, is_instance, is_premise, is_valid_step, negates, premises_fit, proves,
    step_fault, FaultModel,
};
use crate::unify::{
    all_bound, extends, grounded, lemma_unified, lemma_unified_complete, occurs, unified, value_of,
};
use crate::value::{Row, Val};

verus! {

proof fn lemma_same_grounding(args: Seq<TermModel>, m: Map<Name, Val>, more: Map<Name, Val>)
    requires
        all_bound(args, m),
        extends(more, m),
    ensures
        all_bound(args, more),
        grounded(args, more) == grounded(args, m),
{
    assert forall|x: Name| occurs(args, x) implies #[trigger] more.contains_key(x) by {
        assert(m.contains_key(x));
    }
    assert forall|i: int| 0 <= i < args.len() implies value_of(args[i], more) == value_of(
        args[i],
        m,
    ) by {
        match args[i] {
            TermModel::Var(x) => {
                assert(occurs(args, x));
                assert(m.contains_key(x));
            },
            _ => {},
        }
    }
    assert(grounded(args, more) =~= grounded(args, m));
}

proof fn lemma_fit_sound(
    body: Seq<LiteralModel>,
    premises: Seq<ProofModel>,
    b: Map<Name, Val>,
    k: int,
)
    requires
        0 <= k <= premises.len(),
        premises_fit(body, premises, b, k) is Ok,
    ensures
        extends(premises_fit(body, premises, b, k)->Ok_0, b),
        forall|j: int|
            0 <= j < k ==> #[trigger] is_premise(
                body[j],
                premises[j],
                premises_fit(body, premises, b, k)->Ok_0,
            ),
    decreases k,
{
    if k > 0 {
        lemma_fit_sound(body, premises, b, k - 1);
        let mid = premises_fit(body, premises, b, k - 1)->Ok_0;
        let end = premises_fit(body, premises, b, k)->Ok_0;
        lemma_unified(body[k - 1].args, proved_row(premises[k - 1]), mid);
        assert(extends(end, mid));
        assert forall|x: Name| #[trigger] b.contains_key(x) implies end.contains_key(x) && end[x]
            == b[x] by {
            assert(mid.contains_key(x));
        }
        assert forall|j: int| 0 <= j < k implies #[trigger] is_premise(
            body[j],
            premises[j],
            end,
        ) by {
            if j < k - 1 {
                assert(is_premise(body[j], premises[j], mid));
                lemma_same_grounding(body[j].args, mid, end);
            }
        }
    }
}

proof fn lemma_fit_complete(
    body: Seq<LiteralModel>,
    premises: Seq<ProofModel>,
    b: Map<Name, Val>,
    theta: Map<Name, Val>,
    k: int,
)
    requires
        0 <= k <= premises.len(),
        extends(theta, b),
        forall|j: int|
            0 <= j < premises.len() ==> #[trigger] is_premise(body[j], premises[j], theta),
    ensures
        premises_fit(body, premises, b, k) is Ok,
        extends(theta, premises_fit(body, premises, b, k)->Ok_0),
    decreases k,
{
    if k > 0 {
        lemma_fit_complete(body, premises, b, theta, k - 1);
        let mid = premises_fit(body, premises, b, k - 1)->Ok_0;
        assert(is_premise(body[k - 1], premises[k - 1], theta));
        lemma_unified_complete(body[k - 1].args, proved_row(premises[k - 1]), mid, theta);
    }
}

proof fn lemma_step_accepted(
    rel: Name,
    tuple: Row,
    rule_idx: usize,
    premises: Seq<ProofModel>,
    rules: Map<Name, Seq<RuleModel>>,
)
    ensures
        step_fault(rel, tuple, rule_idx, premises, rules) is None <==> is_valid_step(
            rel,
            tuple,
            rule_idx,
            premises,
            rules,
        ),
{
    if rules.contains_key(rel) && rule_idx < rules[rel].len() {
        let rule = rules[rel][rule_idx as int];
        let none = Map::<Name, Val>::empty();
        if step_fault(rel, tuple, rule_idx, premises, rules) is None {
            lemma_unified(rule.head_args, tuple, none);
            let b = unified(rule.head_args, tuple, none)->Some_0;
            lemma_fit_sound(rule.body, premises, b, premises.len() as int);
            let theta = premises_fit(rule.body, premises, b, premises.len() as int)->Ok_0;
            assert(all_bound(rule.head_args, b));
            lemma_same_grounding(rule.head_args, b, theta);
            assert(is_instance(rule, tuple, premises, theta));
        }
        if is_valid_step(rel, tuple, rule_idx, premises, rules) {
            let theta = choose|theta: Map<Name, Val>| #[trigger]
                is_instance(rule, tuple, premises, theta);
            assert(extends(theta, none));
            lemma_unified_complete(rule.head_args, tuple, none, theta);
            let b = unified(rule.head_args, tuple, none)->Some_0;
            lemma_fit_complete(rule.body, premises, b, theta, premises.len() as int);
        }
    }
}

/// A tree is accepted exactly where it is a proof.
pub proof fn law_accepted_trees_are_proofs(
    p: ProofModel,
    rules: Map<Name, Seq<RuleModel>>,
    facts: Map<Name, Set<Row>>,
)
    ensures
        fault(p, rules, facts) is None <==> proves(p, rules, facts),
    decreases p,
{
    match p {
        ProofModel::Ground { .. } => {},
        ProofModel::Step { rel, tuple, rule_idx, premises } => {
            lemma_step_accepted(rel, tuple, rule_idx, premises, rules);
            lemma_all_accepted(premises, rules, facts, premises.len() as int);
        },
    }
}

proof fn lemma_all_accepted(
    ps: Seq<ProofModel>,
    rules: Map<Name, Seq<RuleModel>>,
    facts: Map<Name, Set<Row>>,
    k: int,
)
    requires
        0 <= k <= ps.len(),
    ensures
        first_fault(ps, rules, facts, k) is None <==> forall|i: int|
            0 <= i < k ==> proves(#[trigger] ps[i], rules, facts),
    decreases ps, k,
{
    if k > 0 {
        lemma_all_accepted(ps, rules, facts, k - 1);
        law_accepted_trees_are_proofs(ps[k - 1], rules, facts);
        if forall|i: int| 0 <= i < k ==> proves(#[trigger] ps[i], rules, facts) {
            assert(proves(ps[k - 1], rules, facts));
        }
    }
}

/// Relations that hold the stored facts, and every head whose body they hold,
/// of the rules without negation.
pub open spec fn is_closed(
    world: Map<Name, Set<Row>>,
    rules: Map<Name, Seq<RuleModel>>,
    facts: Map<Name, Set<Row>>,
) -> bool {
    &&& forall|rel: Name, row: Row| #[trigger]
        stored_rows(facts, rel).contains(row) ==> stored_rows(world, rel).contains(row)
    &&& forall|rel: Name, i: int, theta: Map<Name, Val>|
        rules.contains_key(rel) && 0 <= i < rules[rel].len() && #[trigger] body_held(
            world,
            rules[rel][i],
            theta,
        ) && rules[rel][i].head_rel == rel ==> stored_rows(world, rel).contains(
            grounded(rules[rel][i].head_args, theta),
        )
}

/// Whether relations hold the body of a rule without negation, under values
/// of its variables.
pub open spec fn body_held(world: Map<Name, Set<Row>>, rule: RuleModel, theta: Map<Name, Val>) -> bool {
    &&& !negates(rule.body)
    &&& all_bound(rule.head_args, theta)
    &&& forall|j: int|
        0 <= j < rule.body.len() ==> all_bound((#[trigger] rule.body[j]).args, theta)
            && stored_rows(world, rule.body[j].rel).contains(grounded(rule.body[j].args, theta))
}

/// What a proof proves holds in all relations that hold the stored facts and
/// follow the rules: a proof proves nothing that the program does not entail.
pub proof fn law_proved_facts_hold(
    p: ProofModel,
    rules: Map<Name, Seq<RuleModel>>,
    facts: Map<Name, Set<Row>>,
    world: Map<Name, Set<Row>>,
)
    requires
        proves(p, rules, facts),
        is_closed(world, rules, facts),
    ensures
        stored_rows(world, proved_rel(p)).contains(proved_row(p)),
    decreases p,
{
    match p {
        ProofModel::Ground { rel, tuple } => {
            assert(stored_rows(facts, rel).contains(tuple));
        },
        ProofModel::Step { rel, tuple, rule_idx, premises } => {
            let rule = rules[rel][rule_idx as int];
            let theta = choose|theta: Map<Name, Val>| #[trigger]
                is_instance(rule, tuple, premises, theta);
            assert forall|j: int| 0 <= j < rule.body.len() implies all_bound(
                (#[trigger] rule.body[j]).args,
                theta,
            ) && stored_rows(world, rule.body[j].rel).contains(
                grounded(rule.body[j].args, theta),
            ) by {
                assert(is_premise(rule.body[j], premises[j], theta));
                assert(proves(premises[j], rules, facts));
                law_proved_facts_hold(premises[j], rules, facts, world);
            }
            assert(body_held(world, rules[rel][rule_idx as int], theta));
        },
    }
}

/// A proof bottoms out in stored facts only.
pub proof fn law_proofs_bottom_out(
    p: ProofModel,
    rules: Map<Name, Seq<RuleModel>>,
    facts: Map<Name, Set<Row>>,
)
    requires
        proves(p, rules, facts),
    ensures
        leaves_stored(p, facts),
    decreases p,
{
    match p {
        ProofModel::Ground { .. } => {},
        ProofModel::Step { premises, .. } => {
            assert forall|i: int| 0 <= i < premises.len() implies leaves_stored(
                #[trigger] premises[i],
                facts,
            ) by {
                assert(proves(premises[i], rules, facts));
                law_proofs_bottom_out(premises[i], rules, facts);
            }
        },
    }
}

/// What is wrong with a stored fact that is none, and with a step: that its
/// relation has no rules, that it has not the rule, that the rule is another
/// relation's, that the rule negates, that it has more or fewer premises than
/// the rule asks for, or that its row is no head of the rule. What comes first
/// is reported.
pub proof fn law_faults_say_what_is_wrong(
    p: ProofModel,
    rules: Map<Name, Seq<RuleModel>>,
    facts: Map<Name, Set<Row>>,
)
    ensures
        p matches ProofModel::Ground { rel, tuple } ==> !stored_rows(facts, rel).contains(tuple)
            ==> fault(p, rules, facts) == Some(FaultModel::NotAFact { rel, tuple }),
        p matches ProofModel::Step { rel, tuple, rule_idx, premises } ==> {
            &&& !rules.contains_key(rel) ==> fault(p, rules, facts) == Some(
                FaultModel::NoRules { rel },
            )
            &&& rules.contains_key(rel) ==> {
                &&& rule_idx >= rules[rel].len() ==> fault(p, rules, facts) == Some(
                    FaultModel::RuleOutOfRange { rel, rule_idx },
                )
                &&& rule_idx < rules[rel].len() ==> {
                    let rule = rules[rel][rule_idx as int];
                    let negated = exists|j: int|
                        0 <= j < rule.body.len() && (#[trigger] rule.body[j]).negated;
                    &&& rule.head_rel != rel ==> fault(p, rules, facts) == Some(
                        FaultModel::WrongHead { rule_head: rule.head_rel, rel },
                    )
                    &&& rule.head_rel == rel && negated ==> fault(p, rules, facts) == Some(
                        FaultModel::NegatedPremise { rel },
                    )
                    &&& rule.head_rel == rel && !negated && rule.body.len() != premises.len()
                        ==> fault(p, rules, facts) == Some(
                        FaultModel::PremiseCount {
                            rel,
                            premises: premises.len(),
                            literals: rule.body.len(),
                        },
                    )
                    &&& rule.head_rel == rel && !negated && rule.body.len() == premises.len() && (
                    forall|theta: Map<Name, Val>|
                        all_bound(rule.head_args, theta) ==> #[trigger] grounded(
                            rule.head_args,
                            theta,
                        ) != tuple) ==> fault(p, rules, facts) == Some(
                        FaultModel::HeadMismatch { rule_idx, tuple },
                    )
                }
            }
        },
{
    match p {
        ProofModel::Ground { .. } => {},
        ProofModel::Step { rel, tuple, rule_idx, premises } => {
            if rules.contains_key(rel) && rule_idx < rules[rel].len() {
                let rule = rules[rel][rule_idx as int];
                lemma_unified(rule.head_args, tuple, Map::empty());
                if unified(rule.head_args, tuple, Map::empty()) is Some {
                    let b = unified(rule.head_args, tuple, Map::empty())->Some_0;
                    assert forall|x: Name| occurs(rule.head_args, x) implies #[trigger] b.contains_key(
                        x,
                    ) by {}
                    assert(all_bound(rule.head_args, b));
                    assert(grounded(rule.head_args, b) == tuple);
                }
            }
        },
    }
}

} // verus!
