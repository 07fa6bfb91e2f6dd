//! The rules of a drawn program, and the whole of it.

use vstd::prelude::*;
use crate::aggr::Aggregation;
use crate::generate::{after, facts_at, gen_facts, gen_params, params_at, GenParams};
use crate::names::{names, Name};
use crate::program::{
    unaggregated, FixedEval, FixedModel, FixedRule, Literal, LiteralModel, Program, ProgramModel,
    Rule, RuleModel, Term, TermModel,
};
use crate::rng::Rng;

verus! {

/// A variable.
pub open spec fn v(name: Name) -> TermModel {
    TermModel::Var(name)
}

/// A literal that asks for a row.
pub open spec fn asks(rel: Name, args: Seq<TermModel>) -> LiteralModel {
    LiteralModel { rel, args, negated: false }
}

/// A literal that asks for a pair.
pub open spec fn pair(rel: Name, a: Name, b: Name) -> LiteralModel {
    asks(rel, seq![v(a), v(b)])
}

/// A rule without aggregation whose head is a pair.
pub open spec fn rule(rel: Name, a: Name, b: Name, body: Seq<LiteralModel>) -> RuleModel {
    RuleModel { head_rel: rel, head_args: seq![v(a), v(b)], aggr: unaggregated(2), body }
}

/// A rule that aggregates a pair.
pub open spec fn folded(
    rel: Name,
    a: Name,
    b: Name,
    first: Option<Aggregation>,
    second: Option<Aggregation>,
    body: Seq<LiteralModel>,
) -> RuleModel {
    RuleModel { head_rel: rel, head_args: seq![v(a), v(b)], aggr: seq![first, second], body }
}

fn var(name: &str) -> (r: Term)
    ensures
        r.deep_view() == v(name@),
{
    Term::Var(name.to_string())
}

fn one_term(a: &str) -> (r: Vec<Term>)
    ensures
        r.deep_view() == seq![v(a@)],
{
    let mut out: Vec<Term> = Vec::new();
    out.push(var(a));
    proof {
        assert(out.deep_view() =~= seq![v(a@)]);
    }
    out
}

fn two_terms(a: &str, b: &str) -> (r: Vec<Term>)
    ensures
        r.deep_view() == seq![v(a@), v(b@)],
        r@.len() == 2,
{
    let mut out: Vec<Term> = Vec::new();
    out.push(var(a));
    out.push(var(b));
    proof {
        assert(out.deep_view() =~= seq![v(a@), v(b@)]);
    }
    out
}

fn three_terms(a: &str, b: &str, c: &str) -> (r: Vec<Term>)
    ensures
        r.deep_view() == seq![v(a@), v(b@), v(c@)],
{
    let mut out: Vec<Term> = Vec::new();
    out.push(var(a));
    out.push(var(b));
    out.push(var(c));
    proof {
        assert(out.deep_view() =~= seq![v(a@), v(b@), v(c@)]);
    }
    out
}

/// A literal, negated or not.
fn lit(rel: &str, args: Vec<Term>, negated: bool) -> (r: Literal)
    ensures
        r.deep_view() == (LiteralModel { rel: rel@, args: args.deep_view(), negated }),
{
    if negated {
        Literal::neg(rel, args)
    } else {
        Literal::pos(rel, args)
    }
}

fn pair_lit(rel: &str, a: &str, b: &str) -> (r: Literal)
    ensures
        r.deep_view() == pair(rel@, a@, b@),
{
    lit(rel, two_terms(a, b), false)
}

fn one_lit(a: Literal) -> (r: Vec<Literal>)
    ensures
        r.deep_view() == seq![a.deep_view()],
{
    let mut out: Vec<Literal> = Vec::new();
    let ghost m = a.deep_view();
    out.push(a);
    proof {
        assert(out.deep_view() =~= seq![m]);
    }
    out
}

fn two_lits(a: Literal, b: Literal) -> (r: Vec<Literal>)
    ensures
        r.deep_view() == seq![a.deep_view(), b.deep_view()],
{
    let mut out: Vec<Literal> = Vec::new();
    let ghost ma = a.deep_view();
    let ghost mb = b.deep_view();
    out.push(a);
    out.push(b);
    proof {
        assert(out.deep_view() =~= seq![ma, mb]);
    }
    out
}

fn three_lits(a: Literal, b: Literal, c: Literal) -> (r: Vec<Literal>)
    ensures
        r.deep_view() == seq![a.deep_view(), b.deep_view(), c.deep_view()],
{
    let mut out: Vec<Literal> = Vec::new();
    let ghost ma = a.deep_view();
    let ghost mb = b.deep_view();
    let ghost mc = c.deep_view();
    out.push(a);
    out.push(b);
    out.push(c);
    proof {
        assert(out.deep_view() =~= seq![ma, mb, mc]);
    }
    out
}

fn pair_rule(rel: &str, a: &str, b: &str, body: Vec<Literal>) -> (r: Rule)
    ensures
        r.deep_view() == rule(rel@, a@, b@, body.deep_view()),
{
    Rule::plain(rel, two_terms(a, b), body)
}

fn pair_fold(
    rel: &str,
    a: &str,
    b: &str,
    first: Option<Aggregation>,
    second: Option<Aggregation>,
    body: Vec<Literal>,
) -> (r: Rule)
    ensures
        r.deep_view() == folded(rel@, a@, b@, first, second, body.deep_view()),
{
    let mut aggr: Vec<Option<Aggregation>> = Vec::new();
    aggr.push(first);
    aggr.push(second);
    proof {
        assert(aggr@ =~= seq![first, second]);
    }
    Rule::aggregated(rel, two_terms(a, b), aggr, body)
}

/// Add a rule to a list.
fn add_rule(rules: &mut Vec<Rule>, r: Rule)
    ensures
        final(rules).deep_view() == old(rules).deep_view().push(r.deep_view()),
{
    let ghost before = rules.deep_view();
    let ghost m = r.deep_view();
    rules.push(r);
    proof {
        assert(rules.deep_view() =~= before.push(m));
    }
}

/// Paths: the transitive closure of the edges, by joining paths with edges or
/// with paths.
pub open spec fn path_rules(p: GenParams) -> Seq<RuleModel> {
    seq![
        rule("path"@, "X"@, "Y"@, seq![pair("edge"@, "X"@, "Y"@)]),
        if p.self_join {
            rule(
                "path"@,
                "X"@,
                "Z"@,
                seq![pair("path"@, "X"@, "Y"@), pair("path"@, "Y"@, "Z"@)],
            )
        } else {
            rule(
                "path"@,
                "X"@,
                "Z"@,
                seq![pair("edge"@, "X"@, "Y"@), pair("path"@, "Y"@, "Z"@)],
            )
        },
    ]
}

fn add_path_rules(rules: &mut Vec<Rule>, p: GenParams)
    ensures
        final(rules).deep_view() == old(rules).deep_view() + path_rules(p),
{
    let ghost before = rules.deep_view();
    add_rule(rules, pair_rule("path", "X", "Y", one_lit(pair_lit("edge", "X", "Y"))));
    if p.self_join {
        add_rule(
            rules,
            pair_rule(
                "path",
                "X",
                "Z",
                two_lits(pair_lit("path", "X", "Y"), pair_lit("path", "Y", "Z")),
            ),
        );
    } else {
        add_rule(
            rules,
            pair_rule(
                "path",
                "X",
                "Z",
                two_lits(pair_lit("edge", "X", "Y"), pair_lit("path", "Y", "Z")),
            ),
        );
    }
    proof {
        assert(rules.deep_view() =~= before + path_rules(p));
    }
}

/// A meet of seeded values, folded along the edges. The aggregated column is
/// first or last.
pub open spec fn meet_rules(p: GenParams) -> Seq<RuleModel> {
    if p.meet_pos0 {
        seq![
            folded(
                "m"@,
                "Y"@,
                "X"@,
                Some(p.meet_op),
                None,
                seq![pair("seed"@, "X"@, "Y"@)],
            ),
            folded(
                "m"@,
                "Z"@,
                "Y"@,
                Some(p.meet_op),
                None,
                seq![pair("edge"@, "X"@, "Y"@), pair("m"@, "Z"@, "X"@)],
            ),
        ]
    } else {
        seq![
            folded(
                "m"@,
                "X"@,
                "Y"@,
                None,
                Some(p.meet_op),
                seq![pair("seed"@, "X"@, "Y"@)],
            ),
            folded(
                "m"@,
                "Y"@,
                "Z"@,
                None,
                Some(p.meet_op),
                seq![pair("edge"@, "X"@, "Y"@), pair("m"@, "X"@, "Z"@)],
            ),
        ]
    }
}

fn add_meet_rules(rules: &mut Vec<Rule>, p: GenParams)
    ensures
        final(rules).deep_view() == old(rules).deep_view() + meet_rules(p),
{
    let ghost before = rules.deep_view();
    if p.meet_pos0 {
        add_rule(
            rules,
            pair_fold(
                "m",
                "Y",
                "X",
                Some(p.meet_op),
                None,
                one_lit(pair_lit("seed", "X", "Y")),
            ),
        );
        add_rule(
            rules,
            pair_fold(
                "m",
                "Z",
                "Y",
                Some(p.meet_op),
                None,
                two_lits(pair_lit("edge", "X", "Y"), pair_lit("m", "Z", "X")),
            ),
        );
    } else {
        add_rule(
            rules,
            pair_fold(
                "m",
                "X",
                "Y",
                None,
                Some(p.meet_op),
                one_lit(pair_lit("seed", "X", "Y")),
            ),
        );
        add_rule(
            rules,
            pair_fold(
                "m",
                "Y",
                "Z",
                None,
                Some(p.meet_op),
                two_lits(pair_lit("edge", "X", "Y"), pair_lit("m", "X", "Z")),
            ),
        );
    }
    proof {
        assert(rules.deep_view() =~= before + meet_rules(p));
    }
}

/// The least and the greatest value of a group, the group between the two.
pub open spec fn between() -> Seq<Option<Aggregation>> {
    seq![Some(Aggregation::Min), None, Some(Aggregation::Max)]
}

/// Two meets at once, folded along the edges, the grouping column between
/// them.
pub open spec fn interleaved_rules(p: GenParams) -> Seq<RuleModel> {
    if p.meet_interleaved {
        seq![
            RuleModel {
                head_rel: "mi"@,
                head_args: seq![v("Lo"@), v("K"@), v("Hi"@)],
                aggr: between(),
                body: seq![asks("seed3"@, seq![v("K"@), v("Lo"@), v("Hi"@)])],
            },
            RuleModel {
                head_rel: "mi"@,
                head_args: seq![v("Lo"@), v("T"@), v("Hi"@)],
                aggr: between(),
                body: seq![
                    pair("edge"@, "S"@, "T"@),
                    asks("mi"@, seq![v("Lo"@), v("S"@), v("Hi"@)]),
                ],
            },
        ]
    } else {
        Seq::empty()
    }
}

fn fold_between() -> (r: Vec<Option<Aggregation>>)
    ensures
        r@ == between(),
{
    let mut aggr: Vec<Option<Aggregation>> = Vec::new();
    aggr.push(Some(Aggregation::Min));
    aggr.push(None);
    aggr.push(Some(Aggregation::Max));
    proof {
        assert(aggr@ =~= between());
    }
    aggr
}

fn add_interleaved_rules(rules: &mut Vec<Rule>, p: GenParams)
    ensures
        final(rules).deep_view() == old(rules).deep_view() + interleaved_rules(p),
{
    let ghost before = rules.deep_view();
    if p.meet_interleaved {
        add_rule(
            rules,
            Rule::aggregated(
                "mi",
                three_terms("Lo", "K", "Hi"),
                fold_between(),
                one_lit(lit("seed3", three_terms("K", "Lo", "Hi"), false)),
            ),
        );
        add_rule(
            rules,
            Rule::aggregated(
                "mi",
                three_terms("Lo", "T", "Hi"),
                fold_between(),
                two_lits(
                    pair_lit("edge", "S", "T"),
                    lit("mi", three_terms("Lo", "S", "Hi"), false),
                ),
            ),
        );
    }
    proof {
        assert(rules.deep_view() =~= before + interleaved_rules(p));
    }
}

/// Two relations that define each other.
pub open spec fn mutual_rules(p: GenParams) -> Seq<RuleModel> {
    if p.mutual || p.two_dep || p.cross_join {
        seq![
            rule("qa"@, "X"@, "Y"@, seq![pair("edge"@, "X"@, "Y"@)]),
            rule("qa"@, "X"@, "Z"@, seq![pair("qb"@, "X"@, "Y"@), pair("edge"@, "Y"@, "Z"@)]),
            rule("qb"@, "X"@, "Z"@, seq![pair("qa"@, "X"@, "Y"@), pair("edge"@, "Y"@, "Z"@)]),
        ]
    } else {
        Seq::empty()
    }
}

fn add_mutual_rules(rules: &mut Vec<Rule>, p: GenParams)
    ensures
        final(rules).deep_view() == old(rules).deep_view() + mutual_rules(p),
{
    let ghost before = rules.deep_view();
    if p.mutual || p.two_dep || p.cross_join {
        add_rule(rules, pair_rule("qa", "X", "Y", one_lit(pair_lit("edge", "X", "Y"))));
        add_rule(
            rules,
            pair_rule(
                "qa",
                "X",
                "Z",
                two_lits(pair_lit("qb", "X", "Y"), pair_lit("edge", "Y", "Z")),
            ),
        );
        add_rule(
            rules,
            pair_rule(
                "qb",
                "X",
                "Z",
                two_lits(pair_lit("qa", "X", "Y"), pair_lit("edge", "Y", "Z")),
            ),
        );
    }
    proof {
        assert(rules.deep_view() =~= before + mutual_rules(p));
    }
}

/// Joins of two recursive relations: one that a recursive rule repairs, and
/// one that none does.
pub open spec fn join_rules(p: GenParams) -> Seq<RuleModel> {
    (if p.two_dep {
        seq![
            rule("pj"@, "X"@, "Z"@, seq![pair("path"@, "X"@, "Y"@), pair("qa"@, "Y"@, "Z"@)]),
            rule("pj"@, "X"@, "Z"@, seq![pair("pj"@, "X"@, "Y"@), pair("qa"@, "Y"@, "Z"@)]),
        ]
    } else {
        Seq::empty()
    }) + (if p.cross_join {
        seq![rule("j"@, "X"@, "Z"@, seq![pair("qa"@, "X"@, "Y"@), pair("qb"@, "Y"@, "Z"@)])]
    } else {
        Seq::empty()
    })
}

fn add_join_rules(rules: &mut Vec<Rule>, p: GenParams)
    ensures
        final(rules).deep_view() == old(rules).deep_view() + join_rules(p),
{
    let ghost before = rules.deep_view();
    if p.two_dep {
        add_rule(
            rules,
            pair_rule(
                "pj",
                "X",
                "Z",
                two_lits(pair_lit("path", "X", "Y"), pair_lit("qa", "Y", "Z")),
            ),
        );
        add_rule(
            rules,
            pair_rule(
                "pj",
                "X",
                "Z",
                two_lits(pair_lit("pj", "X", "Y"), pair_lit("qa", "Y", "Z")),
            ),
        );
    }
    if p.cross_join {
        add_rule(
            rules,
            pair_rule(
                "j",
                "X",
                "Z",
                two_lits(pair_lit("qa", "X", "Y"), pair_lit("qb", "Y", "Z")),
            ),
        );
    }
    proof {
        assert(rules.deep_view() =~= before + join_rules(p));
    }
}

/// The readers above the recursive relations: of the meet, by negation, by
/// aggregation, and of the fixed rule.
pub open spec fn reader_rules(p: GenParams) -> Seq<RuleModel> {
    seq![rule("out"@, "X"@, "Y"@, seq![pair("m"@, "X"@, "Y"@)])] + (if p.negation {
        seq![
            rule(
                "unreachable"@,
                "X"@,
                "Y"@,
                seq![
                    asks("node"@, seq![v("X"@)]),
                    asks("node"@, seq![v("Y"@)]),
                    LiteralModel { rel: "path"@, args: seq![v("X"@), v("Y"@)], negated: true },
                ],
            ),
        ]
    } else {
        Seq::empty()
    }) + (if p.normal_aggr {
        seq![
            folded(
                "reach_count"@,
                "X"@,
                "Y"@,
                None,
                Some(Aggregation::Count),
                seq![pair("path"@, "X"@, "Y"@)],
            ),
        ]
    } else {
        Seq::empty()
    }) + (if p.bulk_aggr {
        seq![
            folded(
                "bulk_sum"@,
                "X"@,
                "Y"@,
                None,
                Some(Aggregation::Sum),
                seq![pair("item"@, "X"@, "Y"@)],
            ),
        ]
    } else {
        Seq::empty()
    }) + (if p.fixed_rule {
        seq![
            rule(
                "fr"@,
                "X"@,
                "Y"@,
                seq![asks("fx"@, seq![v("X"@)]), asks("node"@, seq![v("Y"@)])],
            ),
        ]
    } else {
        Seq::empty()
    })
}

fn add_reader_rules(rules: &mut Vec<Rule>, p: GenParams)
    ensures
        final(rules).deep_view() == old(rules).deep_view() + reader_rules(p),
{
    let ghost before = rules.deep_view();
    add_rule(rules, pair_rule("out", "X", "Y", one_lit(pair_lit("m", "X", "Y"))));
    if p.negation {
        add_rule(
            rules,
            pair_rule(
                "unreachable",
                "X",
                "Y",
                three_lits(
                    lit("node", one_term("X"), false),
                    lit("node", one_term("Y"), false),
                    lit("path", two_terms("X", "Y"), true),
                ),
            ),
        );
    }
    if p.normal_aggr {
        add_rule(
            rules,
            pair_fold(
                "reach_count",
                "X",
                "Y",
                None,
                Some(Aggregation::Count),
                one_lit(pair_lit("path", "X", "Y")),
            ),
        );
    }
    if p.bulk_aggr {
        add_rule(
            rules,
            pair_fold(
                "bulk_sum",
                "X",
                "Y",
                None,
                Some(Aggregation::Sum),
                one_lit(pair_lit("item", "X", "Y")),
            ),
        );
    }
    if p.fixed_rule {
        add_rule(
            rules,
            pair_rule(
                "fr",
                "X",
                "Y",
                two_lits(lit("fx", one_term("X"), false), lit("node", one_term("Y"), false)),
            ),
        );
    }
    proof {
        assert(rules.deep_view() =~= before + reader_rules(p));
    }
}

/// The rules of a drawn program.
pub open spec fn drawn_rules(p: GenParams) -> Seq<RuleModel> {
    path_rules(p) + meet_rules(p) + interleaved_rules(p) + mutual_rules(p) + join_rules(p)
        + reader_rules(p)
}

/// The fixed rules of a drawn program: the endpoints of its paths.
pub open spec fn drawn_fixed(p: GenParams) -> Seq<FixedModel> {
    if p.fixed_rule {
        seq![
            FixedModel {
                head_rel: "fx"@,
                inputs: seq!["path"@],
                eval: FixedEval::Endpoints,
            },
        ]
    } else {
        Seq::empty()
    }
}

/// The program of a seed.
pub open spec fn drawn_program(seed: u64) -> ProgramModel {
    let p = params_at(seed);
    ProgramModel {
        rules: drawn_rules(p),
        fixed: drawn_fixed(p),
        facts: facts_at(after(seed, 12), p),
    }
}

/// A drawn program, and the relation to evaluate.
#[derive(Debug)]
pub struct Generated {
    pub program: Program,
    pub entry: String,
    pub entry_arity: usize,
}

fn gen_fixed(p: GenParams) -> (r: Vec<FixedRule>)
    ensures
        r.deep_view() == drawn_fixed(p),
{
    let mut fixed: Vec<FixedRule> = Vec::new();
    if p.fixed_rule {
        let mut inputs: Vec<String> = Vec::new();
        inputs.push("path".to_string());
        proof {
            assert(names(inputs@) =~= seq!["path"@]);
        }
        fixed.push(
            FixedRule { head_rel: "fx".to_string(), inputs, eval: FixedEval::Endpoints },
        );
    }
    proof {
        assert(fixed.deep_view() =~= drawn_fixed(p));
    }
    fixed
}

/// The program of a seed: the same seed always gives the same program.
pub fn generate(seed: u64) -> (r: Generated)
    ensures
        r.program.wf(),
        r.program.deep_view() == drawn_program(seed),
        r.entry@ == "path"@,
        r.entry_arity == 2,
{
    let mut rng = Rng::new(seed);
    let p = gen_params(&mut rng);
    let facts = gen_facts(&mut rng, p);
    let mut rules: Vec<Rule> = Vec::new();
    proof {
        assert(rules.deep_view() =~= Seq::<RuleModel>::empty());
    }
    add_path_rules(&mut rules, p);
    add_meet_rules(&mut rules, p);
    add_interleaved_rules(&mut rules, p);
    add_mutual_rules(&mut rules, p);
    add_join_rules(&mut rules, p);
    add_reader_rules(&mut rules, p);
    proof {
        assert(rules.deep_view() =~= drawn_rules(p));
    }
    let fixed = gen_fixed(p);
    Generated {
        program: Program { rules, fixed, facts },
        entry: "path".to_string(),
        entry_arity: 2,
    }
}

} // verus!
