//! Drawn programs are safe and can be stratified, whatever their seed.

use vstd::prelude::*;
use crate::aggr::Aggregation;
use crate::depend::{
    aggregates, edges_of, edges_of_fixed, edges_of_rules, fixed_edges, forces, has_aggr, is_meet,
    only_meets, stratifiable, stratifies,
};
use crate::gen_rules::{
    asks, between, drawn_program, drawn_rules, folded, interleaved_rules, join_rules, meet_rules,
    mutual_rules, pair, path_rules, reader_rules, rule, v,
};
use crate::generate::{params_at, GenParams};
use crate::model_body::{is_ranged, is_safe};
use crate::names::Name;
use crate::program::{is_fixed, LiteralModel, ProgramModel, RuleModel, TermModel};
use crate::unify::occurs;

verus! {

/// Whether a rule is safe.
pub open spec fn rule_safe(r: RuleModel) -> bool {
    is_safe(r.head_args, r.body)
}

/// Whether rules are safe.
pub open spec fn all_safe(rs: Seq<RuleModel>) -> bool {
    forall|i: int| 0 <= i < rs.len() ==> rule_safe(#[trigger] rs[i])
}

proof fn lemma_ranged_at(body: Seq<LiteralModel>, j: int, i: int, x: Name)
    requires
        0 <= j < body.len(),
        !body[j].negated,
        0 <= i < body[j].args.len(),
        body[j].args[i] == v(x),
    ensures
        is_ranged(body, x),
{
    assert(occurs(body[j].args, x));
}

/// A rule without negation is safe if its head variables occur in its body.
proof fn lemma_pair_safe(
    a: Name,
    b: Name,
    body: Seq<LiteralModel>,
    ja: int,
    ia: int,
    jb: int,
    ib: int,
)
    requires
        0 <= ja < body.len(),
        0 <= jb < body.len(),
        0 <= ia < body[ja].args.len(),
        0 <= ib < body[jb].args.len(),
        body[ja].args[ia] == v(a),
        body[jb].args[ib] == v(b),
        forall|j: int| 0 <= j < body.len() ==> !(#[trigger] body[j]).negated,
    ensures
        is_safe(seq![v(a), v(b)], body),
{
    lemma_ranged_at(body, ja, ia, a);
    lemma_ranged_at(body, jb, ib, b);
    let head = seq![v(a), v(b)];
    assert forall|x: Name| occurs(head, x) implies #[trigger] is_ranged(body, x) by {
        let i = choose|i: int| 0 <= i < head.len() && #[trigger] head[i] == TermModel::Var(x);
        assert(x == a || x == b);
    }
}

proof fn lemma_safe_parts(a: Seq<RuleModel>, b: Seq<RuleModel>)
    requires
        all_safe(a),
        all_safe(b),
    ensures
        all_safe(a + b),
{
    let all = a + b;
    assert forall|i: int| 0 <= i < all.len() implies rule_safe(#[trigger] all[i]) by {
        if i < a.len() {
            assert(all[i] == a[i]);
        } else {
            assert(all[i] == b[i - a.len()]);
        }
    }
}

proof fn lemma_recursive_safe(p: GenParams)
    ensures
        all_safe(path_rules(p)),
        all_safe(meet_rules(p)),
        all_safe(mutual_rules(p)),
        all_safe(join_rules(p)),
{
    let x = "X"@;
    let y = "Y"@;
    let z = "Z"@;
    lemma_pair_safe(x, y, seq![pair("edge"@, x, y)], 0, 0, 0, 1);
    lemma_pair_safe(x, z, seq![pair("path"@, x, y), pair("path"@, y, z)], 0, 0, 1, 1);
    lemma_pair_safe(x, z, seq![pair("edge"@, x, y), pair("path"@, y, z)], 0, 0, 1, 1);
    lemma_pair_safe(y, x, seq![pair("seed"@, x, y)], 0, 1, 0, 0);
    lemma_pair_safe(z, y, seq![pair("edge"@, x, y), pair("m"@, z, x)], 1, 0, 0, 1);
    lemma_pair_safe(x, y, seq![pair("seed"@, x, y)], 0, 0, 0, 1);
    lemma_pair_safe(y, z, seq![pair("edge"@, x, y), pair("m"@, x, z)], 0, 1, 1, 1);
    lemma_pair_safe(x, z, seq![pair("qb"@, x, y), pair("edge"@, y, z)], 0, 0, 1, 1);
    lemma_pair_safe(x, z, seq![pair("qa"@, x, y), pair("edge"@, y, z)], 0, 0, 1, 1);
    lemma_pair_safe(x, z, seq![pair("path"@, x, y), pair("qa"@, y, z)], 0, 0, 1, 1);
    lemma_pair_safe(x, z, seq![pair("pj"@, x, y), pair("qa"@, y, z)], 0, 0, 1, 1);
    lemma_pair_safe(x, z, seq![pair("qa"@, x, y), pair("qb"@, y, z)], 0, 0, 1, 1);
}

proof fn lemma_interleaved_safe(p: GenParams)
    ensures
        all_safe(interleaved_rules(p)),
{
    let lo = "Lo"@;
    let hi = "Hi"@;
    let k = "K"@;
    let s = "S"@;
    let t = "T"@;
    let one = seq![asks("seed3"@, seq![v(k), v(lo), v(hi)])];
    let two = seq![pair("edge"@, s, t), asks("mi"@, seq![v(lo), v(s), v(hi)])];
    let h1 = seq![v(lo), v(k), v(hi)];
    let h2 = seq![v(lo), v(t), v(hi)];
    lemma_ranged_at(one, 0, 0, k);
    lemma_ranged_at(one, 0, 1, lo);
    lemma_ranged_at(one, 0, 2, hi);
    lemma_ranged_at(two, 0, 1, t);
    lemma_ranged_at(two, 1, 0, lo);
    lemma_ranged_at(two, 1, 2, hi);
    assert forall|x: Name| occurs(h1, x) implies #[trigger] is_ranged(one, x) by {
        let i = choose|i: int| 0 <= i < h1.len() && #[trigger] h1[i] == TermModel::Var(x);
        assert(x == lo || x == k || x == hi);
    }
    assert forall|x: Name| occurs(h2, x) implies #[trigger] is_ranged(two, x) by {
        let i = choose|i: int| 0 <= i < h2.len() && #[trigger] h2[i] == TermModel::Var(x);
        assert(x == lo || x == t || x == hi);
    }
    assert(is_safe(h1, one));
    assert(is_safe(h2, two));
}

proof fn lemma_readers_safe(p: GenParams)
    ensures
        all_safe(reader_rules(p)),
{
    let x = "X"@;
    let y = "Y"@;
    lemma_pair_safe(x, y, seq![pair("m"@, x, y)], 0, 0, 0, 1);
    lemma_pair_safe(x, y, seq![pair("path"@, x, y)], 0, 0, 0, 1);
    lemma_pair_safe(x, y, seq![pair("item"@, x, y)], 0, 0, 0, 1);
    lemma_pair_safe(x, y, seq![asks("fx"@, seq![v(x)]), asks("node"@, seq![v(y)])], 0, 0, 1, 0);
    let body = seq![
        asks("node"@, seq![v(x)]),
        asks("node"@, seq![v(y)]),
        LiteralModel { rel: "path"@, args: seq![v(x), v(y)], negated: true },
    ];
    let head = seq![v(x), v(y)];
    lemma_ranged_at(body, 0, 0, x);
    lemma_ranged_at(body, 1, 0, y);
    assert forall|q: Name| occurs(head, q) implies #[trigger] is_ranged(body, q) by {
        let i = choose|i: int| 0 <= i < head.len() && #[trigger] head[i] == TermModel::Var(q);
        assert(q == x || q == y);
    }
    assert(is_safe(head, body));
}

/// Every rule of a drawn program is safe.
pub proof fn law_drawn_rules_are_safe(seed: u64)
    ensures
        all_safe(drawn_program(seed).rules),
{
    let p = params_at(seed);
    lemma_recursive_safe(p);
    lemma_interleaved_safe(p);
    lemma_readers_safe(p);
    lemma_safe_parts(path_rules(p), meet_rules(p));
    lemma_safe_parts(path_rules(p) + meet_rules(p), interleaved_rules(p));
    lemma_safe_parts(path_rules(p) + meet_rules(p) + interleaved_rules(p), mutual_rules(p));
    lemma_safe_parts(
        path_rules(p) + meet_rules(p) + interleaved_rules(p) + mutual_rules(p),
        join_rules(p),
    );
    lemma_safe_parts(
        path_rules(p) + meet_rules(p) + interleaved_rules(p) + mutual_rules(p) + join_rules(p),
        reader_rules(p),
    );
}

/// Strata of a drawn program: the recursive relations below, the meets and
/// the readers of the recursive relations above, and their readers on top.
pub open spec fn drawn_stratum(n: Name) -> nat {
    if n == "m"@ || n == "mi"@ || n == "unreachable"@ || n == "reach_count"@ || n == "bulk_sum"@
        || n == "fx"@ {
        1
    } else if n == "out"@ || n == "fr"@ {
        2
    } else {
        0
    }
}

proof fn lemma_drawn_strata()
    ensures
        drawn_stratum("path"@) == 0,
        drawn_stratum("edge"@) == 0,
        drawn_stratum("node"@) == 0,
        drawn_stratum("seed"@) == 0,
        drawn_stratum("seed3"@) == 0,
        drawn_stratum("item"@) == 0,
        drawn_stratum("qa"@) == 0,
        drawn_stratum("qb"@) == 0,
        drawn_stratum("pj"@) == 0,
        drawn_stratum("j"@) == 0,
        drawn_stratum("m"@) == 1,
        drawn_stratum("mi"@) == 1,
        drawn_stratum("unreachable"@) == 1,
        drawn_stratum("reach_count"@) == 1,
        drawn_stratum("bulk_sum"@) == 1,
        drawn_stratum("fx"@) == 1,
        drawn_stratum("out"@) == 2,
        drawn_stratum("fr"@) == 2,
{
    reveal_strlit("path");
    reveal_strlit("edge");
    reveal_strlit("node");
    reveal_strlit("seed");
    reveal_strlit("seed3");
    reveal_strlit("item");
    reveal_strlit("qa");
    reveal_strlit("qb");
    reveal_strlit("pj");
    reveal_strlit("j");
    reveal_strlit("m");
    reveal_strlit("mi");
    reveal_strlit("unreachable");
    reveal_strlit("reach_count");
    reveal_strlit("bulk_sum");
    reveal_strlit("fx");
    reveal_strlit("out");
    reveal_strlit("fr");
    assert("path"@.len() == 4);
    assert("edge"@.len() == 4);
    assert("node"@.len() == 4);
    assert("seed"@.len() == 4);
    assert("seed3"@.len() == 5);
    assert("item"@.len() == 4);
    assert("qa"@.len() == 2);
    assert("qb"@.len() == 2);
    assert("pj"@.len() == 2);
    assert("j"@.len() == 1);
    assert("m"@.len() == 1);
    assert("mi"@.len() == 2);
    assert("unreachable"@.len() == 11);
    assert("reach_count"@.len() == 11);
    assert("bulk_sum"@.len() == 8);
    assert("fx"@.len() == 2);
    assert("out"@.len() == 3);
    assert("fr"@.len() == 2);
    assert("j"@[0] != "m"@[0]);
    assert("qa"@[0] != "mi"@[0]);
    assert("qa"@[0] != "fx"@[0]);
    assert("qa"@[0] != "fr"@[0]);
    assert("qb"@[0] != "mi"@[0]);
    assert("qb"@[0] != "fx"@[0]);
    assert("qb"@[0] != "fr"@[0]);
    assert("pj"@[0] != "mi"@[0]);
    assert("pj"@[0] != "fx"@[0]);
    assert("pj"@[0] != "fr"@[0]);
    assert("fr"@[0] != "mi"@[0]);
    assert("fr"@[1] != "fx"@[1]);
}

/// Whether a literal fits the strata: what it reads is below the head, or in
/// the lowest stratum like the head and not negated, or it is a meet that
/// reads itself.
spec fn literal_fits(head: Name, l: LiteralModel) -> bool {
    ||| drawn_stratum(l.rel) < drawn_stratum(head)
    ||| drawn_stratum(l.rel) == 0 && drawn_stratum(head) == 0 && !l.negated
    ||| l.rel == head && is_folded(head) && !l.negated
}

/// The relations that are meets.
spec fn is_folded(n: Name) -> bool {
    n == "m"@ || n == "mi"@
}

/// Whether a rule fits the strata.
spec fn rule_fits(r: RuleModel) -> bool {
    &&& aggregates(r.aggr) ==> drawn_stratum(r.head_rel) == 1
    &&& is_folded(r.head_rel) ==> aggregates(r.aggr) && only_meets(r.aggr)
    &&& forall|j: int| 0 <= j < r.body.len() ==> literal_fits(r.head_rel, #[trigger] r.body[j])
}

spec fn all_fit(rs: Seq<RuleModel>) -> bool {
    forall|i: int| 0 <= i < rs.len() ==> rule_fits(#[trigger] rs[i])
}

proof fn lemma_fit_parts(a: Seq<RuleModel>, b: Seq<RuleModel>)
    requires
        all_fit(a),
        all_fit(b),
    ensures
        all_fit(a + b),
{
    let all = a + b;
    assert forall|i: int| 0 <= i < all.len() implies rule_fits(#[trigger] all[i]) by {
        if i < a.len() {
            assert(all[i] == a[i]);
        } else {
            assert(all[i] == b[i - a.len()]);
        }
    }
}

/// A rule without aggregation fits if its literals do.
proof fn lemma_plain_fits(rel: Name, a: Name, b: Name, body: Seq<LiteralModel>)
    requires
        !is_folded(rel),
        forall|j: int| 0 <= j < body.len() ==> literal_fits(rel, #[trigger] body[j]),
    ensures
        rule_fits(rule(rel, a, b, body)),
{
}

/// A rule that folds one column by a meet fits if its literals do.
proof fn lemma_fold_fits(
    rel: Name,
    a: Name,
    b: Name,
    first: Option<Aggregation>,
    second: Option<Aggregation>,
    body: Seq<LiteralModel>,
)
    requires
        drawn_stratum(rel) == 1,
        first is Some || second is Some,
        is_folded(rel) ==> (first is Some ==> first->Some_0.meets()) && (second is Some
            ==> second->Some_0.meets()),
        forall|j: int| 0 <= j < body.len() ==> literal_fits(rel, #[trigger] body[j]),
    ensures
        rule_fits(folded(rel, a, b, first, second, body)),
{
    let r = folded(rel, a, b, first, second, body);
    if first is Some {
        assert(r.aggr[0] is Some);
    } else {
        assert(r.aggr[1] is Some);
    }
}

proof fn lemma_not_folded()
    ensures
        !is_folded("path"@),
        !is_folded("qa"@),
        !is_folded("qb"@),
        !is_folded("pj"@),
        !is_folded("j"@),
        !is_folded("out"@),
        !is_folded("fr"@),
        !is_folded("unreachable"@),
        !is_folded("reach_count"@),
        !is_folded("bulk_sum"@),
{
    reveal_strlit("path");
    reveal_strlit("qa");
    reveal_strlit("qb");
    reveal_strlit("pj");
    reveal_strlit("j");
    reveal_strlit("m");
    reveal_strlit("mi");
    reveal_strlit("out");
    reveal_strlit("fr");
    reveal_strlit("unreachable");
    reveal_strlit("reach_count");
    reveal_strlit("bulk_sum");
    assert("path"@.len() == 4);
    assert("qa"@.len() == 2);
    assert("qb"@.len() == 2);
    assert("pj"@.len() == 2);
    assert("j"@.len() == 1);
    assert("m"@.len() == 1);
    assert("mi"@.len() == 2);
    assert("unreachable"@.len() == 11);
    assert("reach_count"@.len() == 11);
    assert("bulk_sum"@.len() == 8);
    assert("out"@.len() == 3);
    assert("fr"@.len() == 2);
    assert("j"@[0] != "m"@[0]);
    assert("qa"@[0] != "mi"@[0]);
    assert("qb"@[0] != "mi"@[0]);
    assert("pj"@[0] != "mi"@[0]);
    assert("fr"@[0] != "mi"@[0]);
}

proof fn lemma_recursive_fit(p: GenParams)
    ensures
        all_fit(path_rules(p)),
        all_fit(mutual_rules(p)),
        all_fit(join_rules(p)),
{
    lemma_drawn_strata();
    lemma_not_folded();
}

proof fn lemma_meets_fit(p: GenParams)
    requires
        p.meet_op.meets(),
    ensures
        all_fit(meet_rules(p)),
        all_fit(interleaved_rules(p)),
{
    lemma_drawn_strata();
    let x = "X"@;
    let y = "Y"@;
    let z = "Z"@;
    let op = Some(p.meet_op);
    lemma_fold_fits("m"@, y, x, op, None, seq![pair("seed"@, x, y)]);
    lemma_fold_fits("m"@, z, y, op, None, seq![pair("edge"@, x, y), pair("m"@, z, x)]);
    lemma_fold_fits("m"@, x, y, None, op, seq![pair("seed"@, x, y)]);
    lemma_fold_fits("m"@, y, z, None, op, seq![pair("edge"@, x, y), pair("m"@, x, z)]);
    assert(aggregates(between())) by {
        assert(between()[0] is Some);
    }
    assert(only_meets(between()));
}

proof fn lemma_readers_fit(p: GenParams)
    ensures
        all_fit(reader_rules(p)),
{
    lemma_drawn_strata();
    lemma_not_folded();
    let x = "X"@;
    let y = "Y"@;
    lemma_plain_fits("out"@, x, y, seq![pair("m"@, x, y)]);
    lemma_plain_fits(
        "unreachable"@,
        x,
        y,
        seq![
            asks("node"@, seq![v(x)]),
            asks("node"@, seq![v(y)]),
            LiteralModel { rel: "path"@, args: seq![v(x), v(y)], negated: true },
        ],
    );
    lemma_fold_fits(
        "reach_count"@,
        x,
        y,
        None,
        Some(Aggregation::Count),
        seq![pair("path"@, x, y)],
    );
    lemma_fold_fits("bulk_sum"@, x, y, None, Some(Aggregation::Sum), seq![pair("item"@, x, y)]);
    lemma_plain_fits(
        "fr"@,
        x,
        y,
        seq![asks("fx"@, seq![v(x)]), asks("node"@, seq![v(y)])],
    );
}

proof fn lemma_drawn_rules_fit(p: GenParams)
    requires
        p.meet_op.meets(),
    ensures
        all_fit(drawn_rules(p)),
{
    lemma_recursive_fit(p);
    lemma_meets_fit(p);
    lemma_readers_fit(p);
    lemma_fit_parts(path_rules(p), meet_rules(p));
    lemma_fit_parts(path_rules(p) + meet_rules(p), interleaved_rules(p));
    lemma_fit_parts(path_rules(p) + meet_rules(p) + interleaved_rules(p), mutual_rules(p));
    lemma_fit_parts(
        path_rules(p) + meet_rules(p) + interleaved_rules(p) + mutual_rules(p),
        join_rules(p),
    );
    lemma_fit_parts(
        path_rules(p) + meet_rules(p) + interleaved_rules(p) + mutual_rules(p) + join_rules(p),
        reader_rules(p),
    );
}

/// A literal that fits does not force more than the strata give.
proof fn lemma_fit_respects(p: ProgramModel, r: RuleModel, l: LiteralModel)
    requires
        all_fit(p.rules),
        p.rules.contains(r),
        literal_fits(r.head_rel, l),
        forall|i: int| 0 <= i < p.fixed.len() ==> (#[trigger] p.fixed[i]).head_rel == "fx"@,
    ensures
        drawn_stratum(r.head_rel) >= drawn_stratum(l.rel) + (if forces(p, r.head_rel, l) {
            1nat
        } else {
            0nat
        }),
{
    lemma_drawn_strata();
    let head = r.head_rel;
    if drawn_stratum(l.rel) >= drawn_stratum(head) {
        if l.rel == head && is_folded(head) {
            let k = choose|k: int| 0 <= k < p.rules.len() && p.rules[k] == r;
            assert(rule_fits(p.rules[k]));
            assert(p.rules[k].head_rel == head && aggregates(p.rules[k].aggr));
            assert(has_aggr(p, head));
            assert forall|i: int|
                0 <= i < p.rules.len() && (#[trigger] p.rules[i]).head_rel == head implies only_meets(
                p.rules[i].aggr,
            ) by {
                assert(rule_fits(p.rules[i]));
            }
            assert(is_meet(p, head));
        } else {
            assert(!has_aggr(p, head)) by {
                if has_aggr(p, head) {
                    let i = choose|i: int|
                        0 <= i < p.rules.len() && (#[trigger] p.rules[i]).head_rel == head
                            && aggregates(p.rules[i].aggr);
                    assert(rule_fits(p.rules[i]));
                }
            }
            assert(!has_aggr(p, l.rel)) by {
                if has_aggr(p, l.rel) {
                    let i = choose|i: int|
                        0 <= i < p.rules.len() && (#[trigger] p.rules[i]).head_rel == l.rel
                            && aggregates(p.rules[i].aggr);
                    assert(rule_fits(p.rules[i]));
                }
            }
            assert(!is_fixed(p, l.rel));
        }
    }
}

proof fn lemma_rule_edges_respect(p: ProgramModel, k: int, i: int)
    requires
        all_fit(p.rules),
        0 <= k <= p.rules.len(),
        forall|j: int| 0 <= j < p.fixed.len() ==> (#[trigger] p.fixed[j]).head_rel == "fx"@,
        0 <= i < edges_of_rules(p, k).len(),
    ensures
        drawn_stratum(edges_of_rules(p, k)[i].head) >= drawn_stratum(edges_of_rules(p, k)[i].dep)
            + (if edges_of_rules(p, k)[i].forcing {
            1nat
        } else {
            0nat
        }),
    decreases k,
{
    if k > 0 {
        let front = edges_of_rules(p, k - 1);
        if i < front.len() {
            lemma_rule_edges_respect(p, k - 1, i);
        } else {
            let r = p.rules[k - 1];
            let j = i - front.len();
            assert(rule_fits(p.rules[k - 1]));
            assert(literal_fits(r.head_rel, r.body[j]));
            lemma_fit_respects(p, r, r.body[j]);
        }
    }
}

/// Every drawn program can be stratified.
pub proof fn law_drawn_programs_stratify(seed: u64)
    ensures
        stratifiable(drawn_program(seed)),
{
    let g = params_at(seed);
    let p = drawn_program(seed);
    let t = |n: Name| drawn_stratum(n);
    lemma_drawn_strata();
    lemma_drawn_rules_fit(g);
    assert forall|i: int| 0 <= i < edges_of(p).len() implies t((#[trigger] edges_of(p)[i]).head)
        >= t(edges_of(p)[i].dep) + (if edges_of(p)[i].forcing {
        1nat
    } else {
        0nat
    }) by {
        let front = edges_of_rules(p, p.rules.len() as int);
        if i < front.len() {
            lemma_rule_edges_respect(p, p.rules.len() as int, i);
        } else {
            reveal_with_fuel(edges_of_fixed, 2);
            assert(edges_of(p)[i] == edges_of_fixed(p, p.fixed.len() as int)[i - front.len()]);
            assert(g.fixed_rule);
            assert(edges_of_fixed(p, 1) =~= fixed_edges(p.fixed[0]));
        }
    }
    assert(stratifies(p, t));
}

} // verus!
