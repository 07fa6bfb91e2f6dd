//! How deep a proof is, and what tampering with it changes and leaves.

use vstd::prelude::*;
use crate::model_body::{all_ranged, is_ranged, is_safe};
use crate::names::Name;
use crate::program::{stored_rows, RuleModel, TermModel};
use crate::proof_tree::{
    bumped, corrupted, deepest, depth, first_flipped, flipped, proved_rel, proved_row, rule_count,
    ProofModel,
};
use crate::provenance::{fault, is_instance, is_premise, proves};
use crate::provenance_law::law_accepted_trees_are_proofs;
use crate::unify::{grounded, occurs, value_of};
use crate::value::{Row, Val};

verus! {

/// A proof whose fact is replaced proves a row of the same relation that
/// differs in its first value alone, by the same rule from the same premises.
pub proof fn law_bumped_differs_in_one_value(p: ProofModel, i: int)
    requires
        proved_row(p).len() > 0,
        proved_row(p)[0] != Val::Num(7777),
    ensures
        proved_row(bumped(p)) != proved_row(p),
        proved_row(bumped(p)).len() == proved_row(p).len(),
        0 < i < proved_row(p).len() ==> proved_row(bumped(p))[i] == proved_row(p)[i],
        proved_rel(bumped(p)) == proved_rel(p),
        p is Step <==> bumped(p) is Step,
        p is Step ==> bumped(p)->rule_idx == p->rule_idx && bumped(p)->premises == p->premises,
{
    assert(proved_row(bumped(p))[0] == Val::Num(7777));
}

proof fn lemma_first_step(ps: Seq<ProofModel>, i: int)
    requires
        0 <= i <= ps.len(),
        ps.len() > 0,
    ensures
        0 <= crate::proof_tree::first_step(ps, i) < ps.len(),
        ({
            let at = crate::proof_tree::first_step(ps, i);
            ||| i <= at && ps[at] is Step && forall|j: int| i <= j < at ==> !(#[trigger] ps[j] is Step)
            ||| at == 0 && forall|j: int| i <= j < ps.len() ==> !(#[trigger] ps[j] is Step)
        }),
    decreases ps.len() - i,
{
    if i < ps.len() && !(ps[i] is Step) {
        lemma_first_step(ps, i + 1);
    }
}

/// Whether two lists of proofs differ at one place alone, where the second
/// has the first's proof with its fact replaced.
pub open spec fn bumped_at(ps: Seq<ProofModel>, qs: Seq<ProofModel>, at: int) -> bool {
    &&& 0 <= at < ps.len()
    &&& qs.len() == ps.len()
    &&& qs[at] == bumped(ps[at])
    &&& forall|j: int| 0 <= j < ps.len() && j != at ==> #[trigger] qs[j] == ps[j]
}

/// A derivation whose premise is replaced claims the same row by the same
/// rule, and its premises differ at one place: at the first derived one, or at
/// the first of all where none is derived.
pub proof fn law_corrupted_differs_in_one_premise(p: ProofModel)
    requires
        p is Step,
        p->premises.len() > 0,
    ensures
        corrupted(p) is Step,
        proved_rel(corrupted(p)) == proved_rel(p),
        proved_row(corrupted(p)) == proved_row(p),
        corrupted(p)->rule_idx == p->rule_idx,
        exists|at: int| #[trigger]
            bumped_at(p->premises, corrupted(p)->premises, at) && {
                ||| p->premises[at] is Step && forall|j: int|
                    0 <= j < at ==> !(#[trigger] p->premises[j] is Step)
                ||| at == 0 && forall|j: int|
                    0 <= j < p->premises.len() ==> !(#[trigger] p->premises[j] is Step)
            },
{
    let at = crate::proof_tree::first_step(p->premises, 0);
    lemma_first_step(p->premises, 0);
    assert(bumped_at(p->premises, corrupted(p)->premises, at));
}

/// Whether no step of a proof is of a relation with more than one rule.
pub open spec fn single_ruled(p: ProofModel, rules: Map<Name, Seq<RuleModel>>) -> bool
    decreases p,
{
    match p {
        ProofModel::Ground { .. } => true,
        ProofModel::Step { rel, premises, .. } => rule_count(rules, rel) <= 1 && forall|i: int|
            0 <= i < premises.len() ==> single_ruled(#[trigger] premises[i], rules),
    }
}

/// Whether two proofs differ in the rule of one step alone, the one that a
/// path of premises leads to from the root: the first of a relation with more
/// than one rule. There the second has another rule of the relation.
pub open spec fn reattributed(
    p: ProofModel,
    q: ProofModel,
    rules: Map<Name, Seq<RuleModel>>,
    path: Seq<int>,
) -> bool
    decreases path.len(),
{
    &&& p is Step
    &&& q is Step
    &&& proved_rel(p) == proved_rel(q)
    &&& proved_row(p) == proved_row(q)
    &&& if path.len() == 0 {
        &&& rule_count(rules, proved_rel(p)) > 1
        &&& p->premises == q->premises
        &&& p->rule_idx != q->rule_idx
        &&& q->rule_idx < rule_count(rules, proved_rel(p))
    } else {
        let i = path[0];
        &&& rule_count(rules, proved_rel(p)) <= 1
        &&& p->rule_idx == q->rule_idx
        &&& 0 <= i < p->premises.len()
        &&& q->premises == p->premises.update(i, q->premises[i])
        &&& forall|j: int| 0 <= j < i ==> single_ruled(#[trigger] p->premises[j], rules)
        &&& reattributed(p->premises[i], q->premises[i], rules, path.drop_first())
    }
}

proof fn lemma_never_itself(
    p: ProofModel,
    rules: Map<Name, Seq<RuleModel>>,
    path: Seq<int>,
)
    ensures
        !reattributed(p, p, rules, path),
    decreases path.len(),
{
    if path.len() > 0 && p is Step {
        lemma_never_itself(p->premises[path[0]], rules, path.drop_first());
    }
}

/// The first proof of a list that is not single-ruled, from the last of the
/// first `k` on.
proof fn lemma_first_many(ps: Seq<ProofModel>, rules: Map<Name, Seq<RuleModel>>, k: int) -> (r:
    Option<int>)
    requires
        0 <= k <= ps.len(),
    ensures
        r is None ==> forall|j: int| 0 <= j < k ==> single_ruled(#[trigger] ps[j], rules),
        r matches Some(i) ==> 0 <= i < k && !single_ruled(ps[i], rules) && forall|j: int|
            0 <= j < i ==> single_ruled(#[trigger] ps[j], rules),
    decreases k,
{
    if k == 0 {
        None
    } else {
        match lemma_first_many(ps, rules, k - 1) {
            Some(i) => Some(i),
            None => if single_ruled(ps[k - 1], rules) {
                None
            } else {
                Some(k - 1)
            },
        }
    }
}

/// Flipping a list changes the first proof that it can.
proof fn lemma_first_flipped(
    ps: Seq<ProofModel>,
    rules: Map<Name, Seq<RuleModel>>,
    k: int,
    i: int,
)
    requires
        0 <= k <= ps.len(),
        0 <= i <= ps.len(),
        forall|j: int| 0 <= j < i ==> flipped(#[trigger] ps[j], rules) == ps[j],
        i < ps.len() ==> flipped(ps[i], rules) != ps[i],
    ensures
        first_flipped(ps, rules, k) == (if i < k {
            ps.update(i, flipped(ps[i], rules))
        } else {
            ps
        }),
    decreases k,
{
    if k > 0 {
        lemma_first_flipped(ps, rules, k - 1, i);
        if k - 1 < i {
            assert(flipped(ps[k - 1], rules) == ps[k - 1]);
        } else if k - 1 > i {
            assert(ps.update(i, flipped(ps[i], rules))[i] != ps[i]);
        }
    }
}

proof fn lemma_flipped(p: ProofModel, rules: Map<Name, Seq<RuleModel>>) -> (path: Seq<int>)
    requires
        forall|rel: Name| #[trigger] rule_count(rules, rel) <= usize::MAX,
    ensures
        single_ruled(p, rules) ==> flipped(p, rules) == p,
        !single_ruled(p, rules) ==> reattributed(p, flipped(p, rules), rules, path),
    decreases p,
{
    match p {
        ProofModel::Ground { .. } => Seq::empty(),
        ProofModel::Step { rel, tuple, rule_idx, premises } => {
            let n = rule_count(rules, rel) as int;
            let len = premises.len() as int;
            if n > 1 {
                let next = (rule_idx + 1) % n;
                assert(0 <= next < n);
                assert(next != rule_idx) by {
                    if rule_idx + 1 < n {
                        vstd::arithmetic::div_mod::lemma_small_mod((rule_idx + 1) as nat, n as nat);
                    } else if rule_idx + 1 == n {
                        vstd::arithmetic::div_mod::lemma_mod_self_0(n);
                    }
                }
                assert(next as usize == next);
                assert(!single_ruled(p, rules));
                Seq::empty()
            } else {
                match lemma_first_many(premises, rules, len) {
                    None => {
                        assert forall|j: int| 0 <= j < len implies flipped(
                            #[trigger] premises[j],
                            rules,
                        ) == premises[j] by {
                            let _ = lemma_flipped(premises[j], rules);
                        }
                        lemma_first_flipped(premises, rules, len, len);
                        assert(single_ruled(p, rules));
                        Seq::empty()
                    },
                    Some(i) => {
                        assert forall|j: int| 0 <= j < i implies flipped(
                            #[trigger] premises[j],
                            rules,
                        ) == premises[j] by {
                            let _ = lemma_flipped(premises[j], rules);
                        }
                        let rest = lemma_flipped(premises[i], rules);
                        lemma_never_itself(premises[i], rules, rest);
                        lemma_first_flipped(premises, rules, len, i);
                        let path = seq![i] + rest;
                        assert(path.drop_first() =~= rest);
                        let q = flipped(p, rules);
                        assert(q->premises == premises.update(i, flipped(premises[i], rules)));
                        assert(q->premises[i] == flipped(premises[i], rules));
                        assert(!single_ruled(p, rules));
                        path
                    },
                }
            }
        },
    }
}

/// Attributing a step to another rule leaves a proof as it is exactly where no
/// step is of a relation with more than one rule, and otherwise changes the
/// rule of the first such step, and nothing else.
pub proof fn law_flipped_changes_one_rule(p: ProofModel, rules: Map<Name, Seq<RuleModel>>)
    requires
        forall|rel: Name| #[trigger] rule_count(rules, rel) <= usize::MAX,
    ensures
        single_ruled(p, rules) <==> flipped(p, rules) == p,
        !single_ruled(p, rules) ==> exists|path: Seq<int>| #[trigger]
            reattributed(p, flipped(p, rules), rules, path),
{
    let path = lemma_flipped(p, rules);
    lemma_never_itself(p, rules, path);
}

proof fn lemma_deepest(ps: Seq<ProofModel>, k: int)
    requires
        0 <= k <= ps.len(),
    ensures
        forall|i: int| 0 <= i < k ==> depth(#[trigger] ps[i]) <= deepest(ps, k),
        k > 0 ==> exists|i: int| 0 <= i < k && depth(#[trigger] ps[i]) == deepest(ps, k),
        k == 0 ==> deepest(ps, k) == 0,
    decreases k,
{
    if k > 0 {
        lemma_deepest(ps, k - 1);
        let was = deepest(ps, k - 1);
        if was < depth(ps[k - 1]) {
            assert(deepest(ps, k) == depth(ps[k - 1]));
        } else {
            assert(k > 1) by {
                assert(depth(ps[k - 1]) >= 1);
            }
            let i = choose|i: int| 0 <= i < k - 1 && depth(#[trigger] ps[i]) == was;
            assert(depth(ps[i]) == deepest(ps, k));
        }
    }
}

/// A stored fact is a proof of one level; a derivation has one level more than
/// the deepest of its premises, and one level where it has none.
pub proof fn law_depth_counts_levels(p: ProofModel)
    ensures
        p is Ground ==> depth(p) == 1,
        p is Step ==> forall|i: int|
            0 <= i < p->premises.len() ==> depth(#[trigger] p->premises[i]) < depth(p),
        p is Step && p->premises.len() > 0 ==> exists|i: int|
            0 <= i < p->premises.len() && depth(#[trigger] p->premises[i]) + 1 == depth(p),
        p is Step && p->premises.len() == 0 ==> depth(p) == 1,
{
    if p is Step {
        lemma_deepest(p->premises, p->premises.len() as int);
    }
}

/// Whether every rule is safe.
pub open spec fn all_rules_safe(rules: Map<Name, Seq<RuleModel>>) -> bool {
    forall|rel: Name, i: int|
        rules.contains_key(rel) && 0 <= i < rules[rel].len() ==> is_safe(
            (#[trigger] rules[rel][i]).head_args,
            rules[rel][i].body,
        )
}

/// A safe rule gives one head from the same premises.
proof fn lemma_one_head(
    rule: RuleModel,
    a: Row,
    b: Row,
    premises: Seq<ProofModel>,
    s: Map<Name, Val>,
    t: Map<Name, Val>,
)
    requires
        is_safe(rule.head_args, rule.body),
        is_instance(rule, a, premises, s),
        is_instance(rule, b, premises, t),
    ensures
        a == b,
{
    let head = rule.head_args;
    assert(all_ranged(rule.body, head));
    assert forall|i: int| 0 <= i < head.len() implies value_of(head[i], s) == value_of(
        head[i],
        t,
    ) by {
        match head[i] {
            TermModel::Var(x) => {
                assert(occurs(head, x));
                assert(is_ranged(rule.body, x));
                let j = choose|j: int|
                    0 <= j < rule.body.len() && !(#[trigger] rule.body[j]).negated && occurs(
                        rule.body[j].args,
                        x,
                    );
                let args = rule.body[j].args;
                assert(is_premise(rule.body[j], premises[j], s));
                assert(is_premise(rule.body[j], premises[j], t));
                let k = choose|k: int| 0 <= k < args.len() && #[trigger] args[k] == TermModel::Var(x);
                assert(grounded(args, s)[k] == grounded(args, t)[k]);
            },
            _ => {},
        }
    }
    assert(a =~= b);
}

/// A proof in which the fact of a premise is replaced by one that no fact
/// begins as is no proof.
pub proof fn law_corrupted_proofs_are_refused(
    p: ProofModel,
    rules: Map<Name, Seq<RuleModel>>,
    facts: Map<Name, Set<Row>>,
)
    requires
        proves(p, rules, facts),
        all_rules_safe(rules),
        p is Step,
        p->premises.len() > 0,
        forall|i: int|
            0 <= i < p->premises.len() ==> proved_row(#[trigger] p->premises[i]).len() > 0
                && proved_row(p->premises[i])[0] != Val::Num(7777),
        forall|rel: Name, row: Row| #[trigger]
            stored_rows(facts, rel).contains(row) && row.len() > 0 ==> row[0] != Val::Num(7777),
    ensures
        fault(corrupted(p), rules, facts) is Some,
{
    law_corrupted_differs_in_one_premise(p);
    let c = corrupted(p);
    let at = choose|at: int| #[trigger]
        bumped_at(p->premises, c->premises, at) && {
            ||| p->premises[at] is Step && forall|j: int|
                0 <= j < at ==> !(#[trigger] p->premises[j] is Step)
            ||| at == 0 && forall|j: int|
                0 <= j < p->premises.len() ==> !(#[trigger] p->premises[j] is Step)
        };
    let q = p->premises[at];
    let b = c->premises[at];
    assert(proves(q, rules, facts));
    law_bumped_differs_in_one_value(q, 0);
    assert(proved_row(b)[0] == Val::Num(7777));
    assert(!proves(b, rules, facts)) by {
        if proves(b, rules, facts) {
            match q {
                ProofModel::Ground { rel, .. } => {
                    assert(stored_rows(facts, rel).contains(proved_row(b)));
                },
                ProofModel::Step { rel, tuple, rule_idx, premises } => {
                    let rule = rules[rel][rule_idx as int];
                    let s = choose|theta: Map<Name, Val>| #[trigger]
                        is_instance(rule, tuple, premises, theta);
                    let t = choose|theta: Map<Name, Val>| #[trigger]
                        is_instance(rule, proved_row(b), premises, theta);
                    lemma_one_head(rule, tuple, proved_row(b), premises, s, t);
                },
            }
        }
    }
    assert(!proves(c, rules, facts)) by {
        if proves(c, rules, facts) {
            assert(proves(c->premises[at], rules, facts));
        }
    }
    law_accepted_trees_are_proofs(c, rules, facts);
}

} // verus!
