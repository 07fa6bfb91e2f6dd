//! What strata have to respect, rule by rule.

use vstd::prelude::*;
use crate::depend::{
    edges_of, edges_of_fixed, edges_of_rules, fixed_edges, has_aggr, is_meet, rule_edges,
    stratifies,
};
use crate::names::Name;
use crate::program::{is_fixed, LiteralModel, ProgramModel};

verus! {

/// Whether strata respect what the rule of a relation reads: the relation is
/// not below it, and is above it where it negates it; where it reads another
/// relation, it is above that if it aggregates, if the other is a fixed rule
/// or if the other is a meet. What aggregates otherwise than by meets, or is a
/// fixed rule as well, cannot read itself.
pub open spec fn respects_read(
    p: ProgramModel,
    t: spec_fn(Name) -> nat,
    head: Name,
    l: LiteralModel,
) -> bool {
    &&& t(l.rel) <= t(head)
    &&& l.negated ==> t(l.rel) < t(head)
    &&& l.rel != head && has_aggr(p, head) ==> t(l.rel) < t(head)
    &&& l.rel != head && is_fixed(p, l.rel) ==> t(l.rel) < t(head)
    &&& l.rel != head && is_meet(p, l.rel) ==> t(l.rel) < t(head)
    &&& l.rel == head ==> !(has_aggr(p, head) && !is_meet(p, head))
    &&& l.rel == head ==> !(is_fixed(p, head) && !has_aggr(p, head))
}

/// Whether strata respect every rule, and put every fixed rule above all its
/// inputs.
pub open spec fn respects_program(p: ProgramModel, t: spec_fn(Name) -> nat) -> bool {
    &&& forall|i: int, j: int|
        0 <= i < p.rules.len() && 0 <= j < p.rules[i].body.len() ==> respects_read(
            p,
            t,
            p.rules[i].head_rel,
            #[trigger] p.rules[i].body[j],
        )
    &&& forall|i: int, j: int|
        0 <= i < p.fixed.len() && 0 <= j < p.fixed[i].inputs.len() ==> t(
            #[trigger] p.fixed[i].inputs[j],
        ) < t(p.fixed[i].head_rel)
}

pub proof fn lemma_rule_edge(p: ProgramModel, k: int, i: int, j: int) -> (at: int)
    requires
        0 <= i < k <= p.rules.len(),
        0 <= j < p.rules[i].body.len(),
    ensures
        0 <= at < edges_of_rules(p, k).len(),
        edges_of_rules(p, k)[at] == rule_edges(p, p.rules[i])[j],
    decreases k,
{
    let front = edges_of_rules(p, k - 1);
    if i == k - 1 {
        front.len() + j
    } else {
        let at = lemma_rule_edge(p, k - 1, i, j);
        assert(edges_of_rules(p, k)[at] == front[at]);
        at
    }
}

pub proof fn lemma_edge_rule(p: ProgramModel, k: int, at: int) -> (r: (int, int))
    requires
        0 <= k <= p.rules.len(),
        0 <= at < edges_of_rules(p, k).len(),
    ensures
        0 <= r.0 < k,
        0 <= r.1 < p.rules[r.0].body.len(),
        edges_of_rules(p, k)[at] == rule_edges(p, p.rules[r.0])[r.1],
    decreases k,
{
    let front = edges_of_rules(p, k - 1);
    if at < front.len() {
        lemma_edge_rule(p, k - 1, at)
    } else {
        (k - 1, at - front.len())
    }
}

pub proof fn lemma_fixed_edge(p: ProgramModel, k: int, i: int, j: int) -> (at: int)
    requires
        0 <= i < k <= p.fixed.len(),
        0 <= j < p.fixed[i].inputs.len(),
    ensures
        0 <= at < edges_of_fixed(p, k).len(),
        edges_of_fixed(p, k)[at] == fixed_edges(p.fixed[i])[j],
    decreases k,
{
    let front = edges_of_fixed(p, k - 1);
    if i == k - 1 {
        front.len() + j
    } else {
        let at = lemma_fixed_edge(p, k - 1, i, j);
        assert(edges_of_fixed(p, k)[at] == front[at]);
        at
    }
}

pub proof fn lemma_edge_fixed(p: ProgramModel, k: int, at: int) -> (r: (int, int))
    requires
        0 <= k <= p.fixed.len(),
        0 <= at < edges_of_fixed(p, k).len(),
    ensures
        0 <= r.0 < k,
        0 <= r.1 < p.fixed[r.0].inputs.len(),
        edges_of_fixed(p, k)[at] == fixed_edges(p.fixed[r.0])[r.1],
    decreases k,
{
    let front = edges_of_fixed(p, k - 1);
    if at < front.len() {
        lemma_edge_fixed(p, k - 1, at)
    } else {
        (k - 1, at - front.len())
    }
}

/// Strata respect the dependencies of a program exactly where they respect
/// what each of its rules reads.
pub proof fn law_strata_respect_rules(p: ProgramModel, t: spec_fn(Name) -> nat)
    ensures
        stratifies(p, t) <==> respects_program(p, t),
{
    let n = p.rules.len() as int;
    let m = p.fixed.len() as int;
    let front = edges_of_rules(p, n);
    let back = edges_of_fixed(p, m);
    if stratifies(p, t) {
        assert forall|i: int, j: int|
            0 <= i < p.rules.len() && 0 <= j < p.rules[i].body.len() implies respects_read(
            p,
            t,
            p.rules[i].head_rel,
            #[trigger] p.rules[i].body[j],
        ) by {
            let at = lemma_rule_edge(p, n, i, j);
            assert(edges_of(p)[at] == front[at]);
        }
        assert forall|i: int, j: int|
            0 <= i < p.fixed.len() && 0 <= j < p.fixed[i].inputs.len() implies t(
            #[trigger] p.fixed[i].inputs[j],
        ) < t(p.fixed[i].head_rel) by {
            let at = lemma_fixed_edge(p, m, i, j);
            assert(edges_of(p)[front.len() + at] == back[at]);
        }
    }
    if respects_program(p, t) {
        assert forall|at: int| 0 <= at < edges_of(p).len() implies t((
        #[trigger] edges_of(p)[at]).head) >= t(edges_of(p)[at].dep) + (if edges_of(
            p,
        )[at].forcing {
            1nat
        } else {
            0nat
        }) by {
            if at < front.len() {
                let r = lemma_edge_rule(p, n, at);
                assert(edges_of(p)[at] == front[at]);
                assert(respects_read(p, t, p.rules[r.0].head_rel, p.rules[r.0].body[r.1]));
            } else {
                let r = lemma_edge_fixed(p, m, at - front.len());
                assert(edges_of(p)[at] == back[at - front.len()]);
                assert(t(p.fixed[r.0].inputs[r.1]) < t(p.fixed[r.0].head_rel));
            }
        }
    }
}

} // verus!
