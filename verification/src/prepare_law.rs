//! How long a prepared program keeps its relations, and what defines them.

use vstd::prelude::*;
use crate::depend::{edges_of, edges_of_fixed, edges_of_rules};
use crate::names::Name;
use crate::prepare::{definition_of, is_prepared, uses, BodyModel, Compiled, DefinitionModel};
use crate::program::{is_defined, is_fixed, ProgramModel, RuleModel};
use crate::strata_law::{lemma_edge_fixed, lemma_edge_rule, lemma_fixed_edge, lemma_rule_edge};

verus! {

/// Whether a stratum reads a relation: a rule there has it in its body, or a
/// fixed rule there has it as an input.
pub open spec fn is_read_at(
    p: ProgramModel,
    levels: Map<Name, usize>,
    rel: Name,
    s: int,
) -> bool {
    ||| exists|i: int, j: int|
        0 <= i < p.rules.len() && 0 <= j < p.rules[i].body.len() && (
        #[trigger] p.rules[i].body[j]).rel == rel && levels[p.rules[i].head_rel] == s
    ||| exists|i: int, j: int|
        0 <= i < p.fixed.len() && 0 <= j < p.fixed[i].inputs.len()
            && #[trigger] p.fixed[i].inputs[j] == rel && levels[p.fixed[i].head_rel] == s
}

proof fn lemma_uses(
    p: ProgramModel,
    levels: Map<Name, usize>,
    target: Name,
    top: int,
    rel: Name,
    s: int,
)
    ensures
        uses(p, levels, target, top, rel, s) <==> is_defined(p, rel) && is_read_at(
            p,
            levels,
            rel,
            s,
        ) || rel == target && s == top + 1,
{
    let n = p.rules.len() as int;
    let m = p.fixed.len() as int;
    let front = edges_of_rules(p, n);
    let back = edges_of_fixed(p, m);
    if exists|i: int|
        0 <= i < edges_of(p).len() && (#[trigger] edges_of(p)[i]).dep == rel
            && levels[edges_of(p)[i].head] == s {
        let i = choose|i: int|
            0 <= i < edges_of(p).len() && (#[trigger] edges_of(p)[i]).dep == rel
                && levels[edges_of(p)[i].head] == s;
        if i < front.len() {
            let r = lemma_edge_rule(p, n, i);
            assert(edges_of(p)[i] == front[i]);
            assert(p.rules[r.0].body[r.1].rel == rel);
        } else {
            let r = lemma_edge_fixed(p, m, i - front.len());
            assert(edges_of(p)[i] == back[i - front.len()]);
            assert(p.fixed[r.0].inputs[r.1] == rel);
        }
        assert(is_read_at(p, levels, rel, s));
    }
    if is_read_at(p, levels, rel, s) {
        if exists|i: int, j: int|
            0 <= i < p.rules.len() && 0 <= j < p.rules[i].body.len() && (
            #[trigger] p.rules[i].body[j]).rel == rel && levels[p.rules[i].head_rel] == s {
            let (i, j) = choose|i: int, j: int|
                0 <= i < p.rules.len() && 0 <= j < p.rules[i].body.len() && (
                #[trigger] p.rules[i].body[j]).rel == rel && levels[p.rules[i].head_rel] == s;
            let at = lemma_rule_edge(p, n, i, j);
            assert(edges_of(p)[at] == front[at]);
        } else {
            let (i, j) = choose|i: int, j: int|
                0 <= i < p.fixed.len() && 0 <= j < p.fixed[i].inputs.len()
                    && #[trigger] p.fixed[i].inputs[j] == rel && levels[p.fixed[i].head_rel] == s;
            let at = lemma_fixed_edge(p, m, i, j);
            assert(edges_of(p)[front.len() + at] == back[at]);
        }
    }
}

/// A prepared program keeps a defined relation until the last stratum that
/// reads it, and the target until the entry, which comes last: no reader is
/// later, and the last stratum is that of a reader.
pub proof fn law_relations_outlive_their_readers(
    c: Compiled<'_>,
    p: ProgramModel,
    levels: Map<Name, usize>,
    arities: Map<Name, usize>,
    target: Name,
    width: nat,
    rel: Name,
    s: int,
)
    requires
        is_prepared(c, p, levels, arities, target, width),
    ensures
        is_defined(p, rel) && is_read_at(p, levels, rel, s) ==> c.lifetimes@.contains_key(rel) && s
            <= c.lifetimes@[rel],
        c.lifetimes@.contains_key(target) && c.lifetimes@[target] >= c.strata@.len() - 1,
        c.lifetimes@.contains_key(rel) ==> is_defined(p, rel) && is_read_at(
            p,
            levels,
            rel,
            c.lifetimes@[rel] as int,
        ) || rel == target && c.lifetimes@[rel] == c.strata@.len() - 1,
{
    let top = c.strata@.len() - 2;
    lemma_uses(p, levels, target, top, rel, s);
    lemma_uses(p, levels, target, top, target, top + 1);
    assert(uses(p, levels, target, top, target, top + 1));
    if c.lifetimes@.contains_key(rel) {
        lemma_uses(p, levels, target, top, rel, c.lifetimes@[rel] as int);
    }
}

proof fn lemma_last_fixed(p: ProgramModel, rel: Name, k: int)
    requires
        0 <= k <= p.fixed.len(),
    ensures
        match crate::prepare::last_fixed(p, rel, k) {
            Some(i) => 0 <= i < k && p.fixed[i].head_rel == rel,
            None => forall|i: int| 0 <= i < k ==> (#[trigger] p.fixed[i]).head_rel != rel,
        },
    decreases k,
{
    if k > 0 {
        lemma_last_fixed(p, rel, k - 1);
    }
}

/// Whether a prepared rule is one of a relation's.
pub open spec fn is_of_own_rule(p: ProgramModel, rel: Name, b: BodyModel) -> bool {
    exists|k: int|
        0 <= k < p.rules.len() && (#[trigger] p.rules[k]).head_rel == rel && b.head
            == p.rules[k].head_args && b.body == p.rules[k].body
}

/// A relation is defined by a fixed rule of its own where it has one, and by
/// its own rules, all of them, where it has none.
pub proof fn law_definitions_are_the_relations_own(
    p: ProgramModel,
    arities: Map<Name, usize>,
    rel: Name,
)
    ensures
        is_fixed(p, rel) ==> exists|i: int|
            0 <= i < p.fixed.len() && (#[trigger] p.fixed[i]).head_rel == rel && definition_of(
                p,
                arities,
                rel,
            ) == (DefinitionModel::Fixed {
                arity: arities[rel],
                inputs: p.fixed[i].inputs,
                eval: p.fixed[i].eval,
            }),
        !is_fixed(p, rel) ==> (definition_of(p, arities, rel) matches DefinitionModel::Rules {
            bodies,
            ..
        } && bodies.len() == p.rules.filter(|r: RuleModel| r.head_rel == rel).len()
            && forall|i: int|
            0 <= i < bodies.len() ==> is_of_own_rule(p, rel, #[trigger] bodies[i])),
{
    lemma_last_fixed(p, rel, p.fixed.len() as int);
    if !is_fixed(p, rel) {
        assert(crate::prepare::last_fixed(p, rel, p.fixed.len() as int) is None);
        let keep = |r: RuleModel| r.head_rel == rel;
        let own = p.rules.filter(keep);
        assert(own == crate::prepare::rules_for(p, rel));
        let bodies = definition_of(p, arities, rel)->bodies;
        assert forall|i: int| 0 <= i < bodies.len() implies is_of_own_rule(
            p,
            rel,
            #[trigger] bodies[i],
        ) by {
            p.rules.lemma_filter_pred(keep, i);
            assert(own.contains(own[i]));
            p.rules.lemma_filter_contains_rev(keep, own[i]);
            let k = choose|k: int| 0 <= k < p.rules.len() && p.rules[k] == own[i];
            assert(p.rules[k].head_rel == rel);
        }
    } else {
        let i = crate::prepare::last_fixed(p, rel, p.fixed.len() as int)->Some_0;
        assert(p.fixed[i].head_rel == rel);
    }
}

} // verus!
