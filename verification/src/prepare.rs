//! A program prepared for evaluation: its definitions stratum by stratum, the
//! entry above them all, and the last stratum that uses each relation.

use vstd::prelude::*;
use crate::aggr::Aggregation;
use crate::depend::{
    are_strata, dependency_edges, edges_of, is_named, lemma_edges_named, mentions, strata_of, Edge,
};
use crate::fixed::ModelFixed;
use crate::model_body::ModelBody;
use crate::names::{copy_names, names, Name};
use crate::order::{lemma_map_of_at, lemma_sorted_no_duplicates, OrderedMap, OrderedSet};
use crate::program::{
    copy_aggr, copy_body, copy_terms, is_defined, is_fixed, no_aggregation, unaggregated, FixedEval,
    FixedModel, Literal, LiteralModel, Program, ProgramModel, RuleModel, Term, TermModel,
};

verus! {

/// The rules of one relation.
#[derive(Debug)]
pub struct RuleSet<'a> {
    pub aggr: Vec<Option<Aggregation>>,
    pub bodies: Vec<ModelBody<'a>>,
}

/// What a relation is defined by.
#[derive(Debug)]
pub enum Definition<'a> {
    Rules(RuleSet<'a>),
    Fixed { arity: usize, rule: ModelFixed<'a> },
}

/// A rule without its name: head and body.
pub struct BodyModel {
    pub head: Seq<TermModel>,
    pub body: Seq<LiteralModel>,
}

/// The model of a [`Definition`].
pub enum DefinitionModel {
    Rules { aggr: Seq<Option<Aggregation>>, bodies: Seq<BodyModel> },
    Fixed { arity: usize, inputs: Seq<Name>, eval: FixedEval },
}

/// The model of a prepared rule.
pub open spec fn body_model(b: ModelBody<'_>) -> BodyModel {
    BodyModel { head: b.head.deep_view(), body: b.body.deep_view() }
}

/// The model of a definition.
pub open spec fn definition_model(d: Definition<'_>) -> DefinitionModel {
    match d {
        Definition::Rules(set) => DefinitionModel::Rules {
            aggr: set.aggr@,
            bodies: Seq::new(set.bodies@.len(), |i: int| body_model(set.bodies@[i])),
        },
        Definition::Fixed { arity, rule } => DefinitionModel::Fixed {
            arity,
            inputs: names(rule.inputs@),
            eval: rule.eval,
        },
    }
}

/// Whether a definition is ready to be evaluated for a program.
pub open spec fn definition_wf(d: Definition<'_>, p: Program, idb: OrderedSet<String>) -> bool {
    match d {
        Definition::Rules(set) => forall|i: int|
            0 <= i < set.bodies@.len() ==> {
                &&& (#[trigger] set.bodies@[i]).wf()
                &&& *set.bodies@[i].program == p
                &&& *set.bodies@[i].idb == idb
            },
        Definition::Fixed { arity, rule } => rule.wf() && *rule.program == p && *rule.idb == idb,
    }
}

/// The definitions of one stratum.
#[derive(Debug)]
pub struct Stratum<'a> {
    pub defs: OrderedMap<String, Definition<'a>>,
}

/// A prepared program.
#[derive(Debug)]
pub struct Compiled<'a> {
    pub strata: Vec<Stratum<'a>>,
    /// The last stratum that uses each relation.
    pub lifetimes: OrderedMap<String, usize>,
}

/// The rules of a relation, in program order.
pub open spec fn rules_for(p: ProgramModel, rel: Name) -> Seq<RuleModel> {
    p.rules.filter(|r: RuleModel| r.head_rel == rel)
}

/// A relation defined by its rules: they aggregate as the first of them does.
pub open spec fn rules_definition(p: ProgramModel, rel: Name) -> DefinitionModel {
    let rules = rules_for(p, rel);
    DefinitionModel::Rules {
        aggr: rules[0].aggr,
        bodies: Seq::new(
            rules.len(),
            |i: int| BodyModel { head: rules[i].head_args, body: rules[i].body },
        ),
    }
}

/// A relation defined by a fixed rule.
pub open spec fn fixed_definition(f: FixedModel, arities: Map<Name, usize>) -> DefinitionModel {
    DefinitionModel::Fixed { arity: arities[f.head_rel], inputs: f.inputs, eval: f.eval }
}

/// The last of the first `k` fixed rules that defines a relation.
pub open spec fn last_fixed(p: ProgramModel, rel: Name, k: int) -> Option<int>
    decreases k,
{
    if k <= 0 {
        None
    } else if p.fixed[k - 1].head_rel == rel {
        Some(k - 1)
    } else {
        last_fixed(p, rel, k - 1)
    }
}

/// What defines a relation: its fixed rule, the last one if there are more,
/// and its rules otherwise.
pub open spec fn definition_of(p: ProgramModel, arities: Map<Name, usize>, rel: Name) -> DefinitionModel {
    match last_fixed(p, rel, p.fixed.len() as int) {
        Some(i) => fixed_definition(p.fixed[i], arities),
        None => rules_definition(p, rel),
    }
}

/// Variables of the entry, by position.
pub open spec fn entry_var(i: int) -> Name {
    if i == 0 {
        "v0"@
    } else if i == 1 {
        "v1"@
    } else if i == 2 {
        "v2"@
    } else if i == 3 {
        "v3"@
    } else if i == 4 {
        "v4"@
    } else if i == 5 {
        "v5"@
    } else if i == 6 {
        "v6"@
    } else {
        "v7"@
    }
}

/// The first variables of the entry.
pub open spec fn entry_vars(n: nat) -> Seq<TermModel> {
    Seq::new(n, |i: int| TermModel::Var(entry_var(i)))
}

/// The entry: the rows of the target.
pub open spec fn entry_definition(target: Name, n: nat) -> DefinitionModel {
    DefinitionModel::Rules {
        aggr: unaggregated(n),
        bodies: seq![
            BodyModel {
                head: entry_vars(n),
                body: seq![LiteralModel { rel: target, args: entry_vars(n), negated: false }],
            },
        ],
    }
}

/// The name of the entry.
pub open spec fn entry_name() -> Name {
    "?"@
}

/// The highest stratum of a map, zero if it is empty.
pub open spec fn is_top(levels: Map<Name, usize>, top: int) -> bool {
    &&& forall|n: Name| #[trigger] levels.contains_key(n) ==> levels[n] <= top
    &&& top == 0 || exists|n: Name| #[trigger] levels.contains_key(n) && levels[n] == top
}

/// Whether a stratum uses a relation: a definition there reads it, or it is
/// the target and the stratum is that of the entry.
pub open spec fn uses(
    p: ProgramModel,
    levels: Map<Name, usize>,
    target: Name,
    top: int,
    rel: Name,
    s: int,
) -> bool {
    ||| is_defined(p, rel) && exists|i: int|
        0 <= i < edges_of(p).len() && (#[trigger] edges_of(p)[i]).dep == rel
            && levels[edges_of(p)[i].head] == s
    ||| rel == target && s == top + 1
}

/// Whether facts are stored under no defined relation.
pub open spec fn facts_apart(p: ProgramModel) -> bool {
    forall|n: Name| #[trigger] is_defined(p, n) ==> !p.facts.contains_key(n)
}

/// Whether the rules of each relation have heads as wide as its aggregations.
pub open spec fn well_shaped(p: ProgramModel) -> bool {
    forall|i: int, j: int|
        0 <= i < p.rules.len() && 0 <= j < p.rules.len() && (#[trigger] p.rules[i]).head_rel == (
        #[trigger] p.rules[j]).head_rel ==> p.rules[i].head_args.len() == p.rules[j].aggr.len()
}

/// What preparing a program gives.
pub open spec fn is_prepared(
    c: Compiled<'_>,
    p: ProgramModel,
    levels: Map<Name, usize>,
    arities: Map<Name, usize>,
    target: Name,
    width: nat,
) -> bool {
    let top = c.strata@.len() - 2;
    &&& is_top(levels, top)
    &&& forall|s: int, n: Name|
        0 <= s <= top ==> #[trigger] c.strata@[s].defs@.contains_key(n) == (is_defined(p, n)
            && levels[n] == s)
    &&& forall|s: int, n: Name|
        0 <= s <= top && #[trigger] c.strata@[s].defs@.contains_key(n) ==> definition_model(
            c.strata@[s].defs@[n],
        ) == definition_of(p, arities, n)
    &&& forall|n: Name| #[trigger]
        c.strata@[top + 1].defs@.contains_key(n) == (n == entry_name())
    &&& definition_model(c.strata@[top + 1].defs@[entry_name()]) == entry_definition(target, width)
    &&& forall|n: Name| #[trigger]
        c.lifetimes@.contains_key(n) ==> uses(p, levels, target, top, n, c.lifetimes@[n] as int)
    &&& forall|n: Name, s: int| #[trigger]
        uses(p, levels, target, top, n, s) ==> c.lifetimes@.contains_key(n) && s
            <= c.lifetimes@[n]
}

/// Whether every part of a prepared program is ready to be evaluated.
pub open spec fn is_ready(c: Compiled<'_>, p: Program, idb: OrderedSet<String>) -> bool {
    &&& c.lifetimes.wf()
    &&& forall|s: int| 0 <= s < c.strata@.len() ==> (#[trigger] c.strata@[s]).defs.wf()
    &&& forall|s: int, n: Name|
        0 <= s < c.strata@.len() && #[trigger] c.strata@[s].defs@.contains_key(n) ==> definition_wf(
            c.strata@[s].defs@[n],
            p,
            idb,
        )
}

/// Note that a stratum uses a relation.
fn note_use(lifetimes: &mut OrderedMap<String, usize>, rel: &String, s: usize)
    requires
        old(lifetimes).wf(),
    ensures
        final(lifetimes).wf(),
        final(lifetimes)@ == old(lifetimes)@.insert(
            rel@,
            if old(lifetimes)@.contains_key(rel@) && old(lifetimes)@[rel@] > s {
                old(lifetimes)@[rel@]
            } else {
                s
            },
        ),
{
    let last: usize = match lifetimes.get(rel) {
        Some(held) => if *held > s {
            *held
        } else {
            s
        },
        None => s,
    };
    lifetimes.insert(rel.clone(), last);
}

/// The highest stratum.
fn top_of(levels: &OrderedMap<String, usize>) -> (top: usize)
    requires
        levels.wf(),
    ensures
        is_top(levels@, top as int),
        top == 0 || exists|i: int| 0 <= i < levels.vals@.len() && #[trigger] levels.vals@[i] == top,
{
    let mut top: usize = 0;
    let mut i: usize = 0;
    let n: usize = levels.len();
    let ghost keys = levels.keys.deep_view();
    proof {
        lemma_sorted_no_duplicates::<String>(keys);
    }
    while i < n
        invariant
            i <= n,
            levels.wf(),
            n == levels.keys@.len(),
            keys == levels.keys.deep_view(),
            keys.no_duplicates(),
            forall|j: int| 0 <= j < i ==> (#[trigger] levels.vals@[j]) <= top,
            top == 0 || exists|j: int| 0 <= j < i && #[trigger] levels.vals@[j] == top,
        decreases n - i,
    {
        if levels.vals[i] > top {
            top = levels.vals[i];
        }
        i = i + 1;
    }
    proof {
        assert forall|x: Name| #[trigger] levels@.contains_key(x) implies levels@[x] <= top by {
            let j = keys.index_of(x);
            lemma_map_of_at(keys, levels.vals@, j);
            assert(levels.vals@[j] <= top);
        }
        if top != 0 {
            let j = choose|j: int| 0 <= j < i && #[trigger] levels.vals@[j] == top;
            lemma_map_of_at(keys, levels.vals@, j);
            assert(levels@.contains_key(keys[j]) && levels@[keys[j]] == top);
        }
    }
    top
}

/// The prepared rules of a relation.
fn rule_set<'a>(program: &'a Program, idb: &'a OrderedSet<String>, rel: &String) -> (r: RuleSet<'a>)
    requires
        program.wf(),
        idb.wf(),
        exists|i: int|
            0 <= i < program.deep_view().rules.len() && (
            #[trigger] program.deep_view().rules[i]).head_rel == rel@,
    ensures
        definition_model(Definition::Rules(r)) == rules_definition(program.deep_view(), rel@),
        definition_wf(Definition::Rules(r), *program, *idb),
{
    let ghost p = program.deep_view();
    let ghost keep = |r: RuleModel| r.head_rel == rel@;
    let mut aggr: Vec<Option<Aggregation>> = Vec::new();
    let mut bodies: Vec<ModelBody<'a>> = Vec::new();
    let mut i: usize = 0;
    proof {
        reveal(Seq::filter);
        assert(p.rules.take(0).filter(keep) =~= Seq::<RuleModel>::empty());
    }
    while i < program.rules.len()
        invariant
            i <= program.rules@.len(),
            program.wf(),
            idb.wf(),
            p == program.deep_view(),
            keep == (|r: RuleModel| r.head_rel == rel@),
            bodies@.len() == p.rules.take(i as int).filter(keep).len(),
            bodies@.len() > 0 ==> aggr@ == p.rules.take(i as int).filter(keep)[0].aggr,
            forall|j: int|
                0 <= j < bodies@.len() ==> {
                    &&& (#[trigger] bodies@[j]).wf()
                    &&& *bodies@[j].program == *program
                    &&& *bodies@[j].idb == *idb
                    &&& body_model(bodies@[j]) == (BodyModel {
                        head: p.rules.take(i as int).filter(keep)[j].head_args,
                        body: p.rules.take(i as int).filter(keep)[j].body,
                    })
                },
        decreases program.rules.len() - i,
    {
        let rule = &program.rules[i];
        let ghost before = p.rules.take(i as int).filter(keep);
        proof {
            reveal(Seq::filter);
            assert(p.rules[i as int] == rule.deep_view());
            assert(p.rules.take(i + 1).drop_last() =~= p.rules.take(i as int));
            assert(p.rules.take(i + 1).last() == rule.deep_view());
        }
        if rule.head_rel == *rel {
            if bodies.len() == 0 {
                aggr = copy_aggr(&rule.aggr);
            }
            bodies.push(
                ModelBody::new(copy_terms(&rule.head_args), copy_body(&rule.body), program, idb),
            );
            proof {
                assert(p.rules.take(i + 1).filter(keep) == before.push(rule.deep_view()));
            }
        } else {
            proof {
                assert(p.rules.take(i + 1).filter(keep) == before);
            }
        }
        i = i + 1;
    }
    proof {
        assert(p.rules.take(i as int) =~= p.rules);
        let k = choose|k: int| 0 <= k < p.rules.len() && (#[trigger] p.rules[k]).head_rel == rel@;
        p.rules.lemma_filter_contains(keep, k);
        assert(rules_for(p, rel@) == p.rules.filter(keep));
        let got = definition_model(Definition::Rules(RuleSet { aggr, bodies }));
        let want = rules_definition(p, rel@);
        assert(got->bodies =~= want->bodies);
    }
    RuleSet { aggr, bodies }
}

/// Whether one of the first rules defines a relation.
spec fn ruled(p: ProgramModel, n: Name, k: int) -> bool {
    exists|i: int| 0 <= i < k && (#[trigger] p.rules[i]).head_rel == n
}

/// Whether one of the first fixed rules defines a relation.
spec fn fixed_to(p: ProgramModel, n: Name, k: int) -> bool {
    exists|i: int| 0 <= i < k && (#[trigger] p.fixed[i]).head_rel == n
}

/// What the first rules and the first fixed rules define a relation by.
spec fn defined_by(p: ProgramModel, arities: Map<Name, usize>, n: Name, k: int) -> DefinitionModel {
    match last_fixed(p, n, k) {
        Some(i) => fixed_definition(p.fixed[i], arities),
        None => rules_definition(p, n),
    }
}

/// Strata that hold what the first rules and the first fixed rules define.
spec fn placed(
    strata: Seq<Stratum<'_>>,
    program: Program,
    idb: OrderedSet<String>,
    levels: Map<Name, usize>,
    arities: Map<Name, usize>,
    i: int,
    k: int,
) -> bool {
    let p = program.deep_view();
    &&& forall|s: int| 0 <= s < strata.len() ==> (#[trigger] strata[s]).defs.wf()
    &&& forall|s: int, n: Name|
        0 <= s < strata.len() ==> #[trigger] strata[s].defs@.contains_key(n) == ((ruled(p, n, i)
            || fixed_to(p, n, k)) && levels[n] == s)
    &&& forall|s: int, n: Name|
        0 <= s < strata.len() && #[trigger] strata[s].defs@.contains_key(n) ==> definition_model(
            strata[s].defs@[n],
        ) == defined_by(p, arities, n, k) && definition_wf(strata[s].defs@[n], program, idb)
}

/// Strata without definitions.
fn empty_strata<'a>(n: usize) -> (r: Vec<Stratum<'a>>)
    ensures
        r@.len() == n,
        forall|s: int|
            0 <= s < n ==> (#[trigger] r@[s]).defs.wf() && r@[s].defs@ == Map::<
                Name,
                Definition<'a>,
            >::empty(),
{
    let mut out: Vec<Stratum<'a>> = Vec::new();
    while out.len() < n
        invariant
            out@.len() <= n,
            forall|s: int|
                0 <= s < out@.len() ==> (#[trigger] out@[s]).defs.wf() && out@[s].defs@ == Map::<
                    Name,
                    Definition<'a>,
                >::empty(),
        decreases n - out.len(),
    {
        out.push(Stratum { defs: OrderedMap::new() });
    }
    out
}

/// Put a definition into a stratum.
fn place<'a>(strata: &mut Vec<Stratum<'a>>, s: usize, rel: &String, d: Definition<'a>)
    requires
        s < old(strata)@.len(),
        old(strata)@[s as int].defs.wf(),
    ensures
        final(strata)@.len() == old(strata)@.len(),
        forall|t: int|
            0 <= t < old(strata)@.len() && t != s ==> final(strata)@[t] == old(strata)@[t],
        final(strata)@[s as int].defs.wf(),
        final(strata)@[s as int].defs@ == old(strata)@[s as int].defs@.insert(rel@, d),
{
    strata[s].defs.insert(rel.clone(), d);
}

/// Put the rules of each relation into its stratum.
fn place_rules<'a>(
    strata: &mut Vec<Stratum<'a>>,
    program: &'a Program,
    idb: &'a OrderedSet<String>,
    levels: &OrderedMap<String, usize>,
    Ghost(arities): Ghost<Map<Name, usize>>,
)
    requires
        program.wf(),
        idb.wf(),
        levels.wf(),
        forall|n: Name| #[trigger]
            is_defined(program.deep_view(), n) ==> levels@.contains_key(n) && levels@[n] < old(
                strata,
            )@.len(),
        placed(old(strata)@, *program, *idb, levels@, arities, 0, 0),
    ensures
        final(strata)@.len() == old(strata)@.len(),
        placed(
            final(strata)@,
            *program,
            *idb,
            levels@,
            arities,
            program.rules@.len() as int,
            0,
        ),
{
    let ghost p = program.deep_view();
    let ghost len = strata@.len();
    let mut i: usize = 0;
    while i < program.rules.len()
        invariant
            i <= program.rules@.len(),
            program.wf(),
            idb.wf(),
            levels.wf(),
            p == program.deep_view(),
            strata@.len() == len,
            forall|n: Name| #[trigger]
                is_defined(p, n) ==> levels@.contains_key(n) && levels@[n] < len,
            placed(strata@, *program, *idb, levels@, arities, i as int, 0),
        decreases program.rules.len() - i,
    {
        let rel = &program.rules[i].head_rel;
        proof {
            assert(p.rules[i as int].head_rel == rel@);
            assert(is_defined(p, rel@));
        }
        let s: usize = match levels.get(rel) {
            Some(s) => *s,
            None => 0,
        };
        let ghost before = strata@;
        proof {
            assert forall|n: Name| ruled(p, n, i + 1) == (ruled(p, n, i as int) || n == rel@) by {
                if ruled(p, n, i + 1) {
                    let j = choose|j: int|
                        0 <= j < i + 1 && (#[trigger] p.rules[j]).head_rel == n;
                    if j < i {
                        assert(ruled(p, n, i as int));
                    }
                }
                if ruled(p, n, i as int) {
                    let j = choose|j: int| 0 <= j < i && (#[trigger] p.rules[j]).head_rel == n;
                    assert(p.rules[j].head_rel == n);
                }
            }
            assert(strata@[s as int].defs.wf());
        }
        if !strata[s].defs.contains_key(rel) {
            let set = rule_set(program, idb, rel);
            place(strata, s, rel, Definition::Rules(set));
            proof {
                let after = strata@;
                assert forall|t: int| 0 <= t < after.len() implies (#[trigger] after[t]).defs.wf() by {
                    if t != s {
                        assert(before[t].defs.wf());
                    }
                }
                assert forall|t: int, n: Name| 0 <= t < after.len() implies (
                #[trigger] after[t].defs@.contains_key(n)) == ((ruled(p, n, i + 1) || fixed_to(
                    p,
                    n,
                    0,
                )) && levels@[n] == t) by {
                    assert(before[t].defs@.contains_key(n) == ((ruled(p, n, i as int) || fixed_to(
                        p,
                        n,
                        0,
                    )) && levels@[n] == t));
                }
                assert forall|t: int, n: Name|
                    0 <= t < after.len() && #[trigger] after[t].defs@.contains_key(n) implies
                    definition_model(after[t].defs@[n]) == defined_by(p, arities, n, 0)
                    && definition_wf(after[t].defs@[n], *program, *idb) by {
                    if t != s || n != rel@ {
                        assert(before[t].defs@.contains_key(n));
                    }
                }
            }
        } else {
            proof {
                assert forall|t: int, n: Name| 0 <= t < strata@.len() implies (
                #[trigger] strata@[t].defs@.contains_key(n)) == ((ruled(p, n, i + 1) || fixed_to(
                    p,
                    n,
                    0,
                )) && levels@[n] == t) by {}
            }
        }
        i = i + 1;
    }
}

/// Put each fixed rule into the stratum of its relation.
fn place_fixed<'a>(
    strata: &mut Vec<Stratum<'a>>,
    program: &'a Program,
    idb: &'a OrderedSet<String>,
    levels: &OrderedMap<String, usize>,
    arities: &OrderedMap<String, usize>,
)
    requires
        program.wf(),
        idb.wf(),
        levels.wf(),
        arities.wf(),
        forall|n: Name| #[trigger]
            is_fixed(program.deep_view(), n) ==> arities@.contains_key(n),
        forall|n: Name| #[trigger]
            is_defined(program.deep_view(), n) ==> levels@.contains_key(n) && levels@[n] < old(
                strata,
            )@.len(),
        placed(
            old(strata)@,
            *program,
            *idb,
            levels@,
            arities@,
            program.rules@.len() as int,
            0,
        ),
    ensures
        final(strata)@.len() == old(strata)@.len(),
        placed(
            final(strata)@,
            *program,
            *idb,
            levels@,
            arities@,
            program.rules@.len() as int,
            program.fixed@.len() as int,
        ),
{
    let ghost p = program.deep_view();
    let ghost len = strata@.len();
    let ghost nr = program.rules@.len() as int;
    let mut k: usize = 0;
    while k < program.fixed.len()
        invariant
            k <= program.fixed@.len(),
            program.wf(),
            idb.wf(),
            levels.wf(),
            arities.wf(),
            p == program.deep_view(),
            nr == program.rules@.len(),
            strata@.len() == len,
            forall|n: Name| #[trigger] is_fixed(p, n) ==> arities@.contains_key(n),
            forall|n: Name| #[trigger]
                is_defined(p, n) ==> levels@.contains_key(n) && levels@[n] < len,
            placed(strata@, *program, *idb, levels@, arities@, nr, k as int),
        decreases program.fixed.len() - k,
    {
        let f = &program.fixed[k];
        let rel = &f.head_rel;
        let ghost fm = f.deep_view();
        proof {
            assert(p.fixed[k as int] == fm);
            assert(is_fixed(p, rel@));
            assert(is_defined(p, rel@));
        }
        let s: usize = match levels.get(rel) {
            Some(s) => *s,
            None => 0,
        };
        let arity: usize = match arities.get(rel) {
            Some(a) => *a,
            None => 0,
        };
        let rule = ModelFixed { inputs: copy_names(&f.inputs), eval: f.eval, program, idb };
        let d = Definition::Fixed { arity, rule };
        let ghost before = strata@;
        proof {
            assert(definition_model(d) == fixed_definition(fm, arities@));
            assert(definition_wf(d, *program, *idb));
            assert(strata@[s as int].defs.wf());
        }
        place(strata, s, rel, d);
        proof {
            let after = strata@;
            assert forall|n: Name| fixed_to(p, n, k + 1) == (fixed_to(p, n, k as int) || n
                == rel@) by {
                if fixed_to(p, n, k + 1) {
                    let j = choose|j: int|
                        0 <= j < k + 1 && (#[trigger] p.fixed[j]).head_rel == n;
                    if j < k {
                        assert(fixed_to(p, n, k as int));
                    }
                }
                if fixed_to(p, n, k as int) {
                    let j = choose|j: int| 0 <= j < k && (#[trigger] p.fixed[j]).head_rel == n;
                    assert(p.fixed[j].head_rel == n);
                }
            }
            assert forall|t: int| 0 <= t < after.len() implies (#[trigger] after[t]).defs.wf() by {
                if t != s {
                    assert(before[t].defs.wf());
                }
            }
            assert forall|t: int, n: Name| 0 <= t < after.len() implies (
            #[trigger] after[t].defs@.contains_key(n)) == ((ruled(p, n, nr) || fixed_to(
                p,
                n,
                k + 1,
            )) && levels@[n] == t) by {
                assert(before[t].defs@.contains_key(n) == ((ruled(p, n, nr) || fixed_to(
                    p,
                    n,
                    k as int,
                )) && levels@[n] == t));
            }
            assert forall|t: int, n: Name|
                0 <= t < after.len() && #[trigger] after[t].defs@.contains_key(n) implies
                definition_model(after[t].defs@[n]) == defined_by(p, arities@, n, k + 1)
                && definition_wf(after[t].defs@[n], *program, *idb) by {
                if n != rel@ {
                    assert(before[t].defs@.contains_key(n));
                } else {
                    assert(t == s);
                }
            }
        }
        k = k + 1;
    }
}

/// The variables of the entry.
fn vars(n: usize) -> (r: Vec<Term>)
    requires
        n <= 8,
    ensures
        r.deep_view() == entry_vars(n as nat),
{
    let mut out: Vec<Term> = Vec::new();
    while out.len() < n
        invariant
            out@.len() <= n <= 8,
            out.deep_view() == entry_vars(out@.len()),
        decreases n - out.len(),
    {
        let i: usize = out.len();
        let ghost prev = out.deep_view();
        let name = match i {
            0 => "v0",
            1 => "v1",
            2 => "v2",
            3 => "v3",
            4 => "v4",
            5 => "v5",
            6 => "v6",
            _ => "v7",
        };
        out.push(Term::Var(name.to_string()));
        proof {
            assert(name@ == entry_var(i as int));
            assert(out.deep_view() =~= prev.push(TermModel::Var(name@)));
            assert(entry_vars((i + 1) as nat) =~= entry_vars(i as nat).push(
                TermModel::Var(entry_var(i as int)),
            ));
        }
    }
    proof {
        assert(out.deep_view() =~= entry_vars(n as nat));
    }
    out
}

/// The entry: the rows of the target.
fn entry_set<'a>(program: &'a Program, idb: &'a OrderedSet<String>, target: &str, width: usize) -> (r:
    RuleSet<'a>)
    requires
        program.wf(),
        idb.wf(),
        width <= 8,
    ensures
        definition_model(Definition::Rules(r)) == entry_definition(target@, width as nat),
        definition_wf(Definition::Rules(r), *program, *idb),
{
    let args = vars(width);
    let literal = Literal::pos(target, copy_terms(&args));
    let ghost lm = literal.deep_view();
    let mut body: Vec<Literal> = Vec::new();
    body.push(literal);
    proof {
        assert(body.deep_view() =~= seq![lm]);
    }
    let entry = ModelBody::new(args, body, program, idb);
    let ghost bm = body_model(entry);
    let mut bodies: Vec<ModelBody<'a>> = Vec::new();
    bodies.push(entry);
    let r = RuleSet { aggr: no_aggregation(width), bodies };
    proof {
        let got = definition_model(Definition::Rules(r));
        assert(got->bodies =~= seq![bm]);
    }
    r
}

/// The last stratum that uses each relation.
fn find_lifetimes(
    program: &Program,
    idb: &OrderedSet<String>,
    edges: &Vec<Edge>,
    levels: &OrderedMap<String, usize>,
    target: &str,
    top: usize,
) -> (r: OrderedMap<String, usize>)
    requires
        idb.wf(),
        forall|n: Name| #[trigger]
            idb.deep_view().contains(n) == is_defined(program.deep_view(), n),
        edges.deep_view() == edges_of(program.deep_view()),
        levels.wf(),
        forall|n: Name| #[trigger] is_defined(program.deep_view(), n) ==> levels@.contains_key(n),
        top < usize::MAX,
    ensures
        r.wf(),
        forall|n: Name| #[trigger]
            r@.contains_key(n) ==> uses(
                program.deep_view(),
                levels@,
                target@,
                top as int,
                n,
                r@[n] as int,
            ),
        forall|n: Name, s: int| #[trigger]
            uses(program.deep_view(), levels@, target@, top as int, n, s) ==> r@.contains_key(n)
                && s <= r@[n],
{
    let ghost p = program.deep_view();
    let ghost all = edges_of(p);
    let mut out: OrderedMap<String, usize> = OrderedMap::new();
    let mut i: usize = 0;
    proof {
        assert(edges@.len() == all.len());
    }
    while i < edges.len()
        invariant
            i <= edges@.len(),
            idb.wf(),
            levels.wf(),
            p == program.deep_view(),
            all == edges_of(p),
            edges.deep_view() == all,
            edges@.len() == all.len(),
            forall|n: Name| #[trigger] idb.deep_view().contains(n) == is_defined(p, n),
            forall|n: Name| #[trigger] is_defined(p, n) ==> levels@.contains_key(n),
            out.wf(),
            forall|n: Name| #[trigger]
                out@.contains_key(n) ==> uses(p, levels@, target@, top as int, n, out@[n] as int),
            forall|j: int|
                0 <= j < i && is_defined(p, (#[trigger] all[j]).dep) ==> out@.contains_key(
                    all[j].dep,
                ) && levels@[all[j].head] <= out@[all[j].dep],
        decreases edges.len() - i,
    {
        let e = &edges[i];
        proof {
            assert(all[i as int] == e.deep_view());
            lemma_edges_named(p, i as int);
        }
        if idb.contains(&e.dep) {
            let s: usize = match levels.get(&e.head) {
                Some(s) => *s,
                None => 0,
            };
            proof {
                assert(is_defined(p, e.dep@));
                assert(all[i as int].dep == e.dep@ && levels@[all[i as int].head] == s);
                assert(uses(p, levels@, target@, top as int, e.dep@, s as int));
            }
            note_use(&mut out, &e.dep, s);
        }
        i = i + 1;
    }
    let name = target.to_string();
    proof {
        assert(uses(p, levels@, target@, top as int, target@, top + 1));
    }
    note_use(&mut out, &name, top + 1);
    out
}

/// Prepare a program, with a relation as its target: the entry hands on the
/// rows of the target, in a stratum above all others.
pub fn compile_for<'a>(
    program: &'a Program,
    idb: &'a OrderedSet<String>,
    target: &str,
    target_arity: usize,
    fixed_arities: &OrderedMap<String, usize>,
) -> (r: Compiled<'a>)
    requires
        program.wf(),
        idb.wf(),
        forall|n: Name| #[trigger]
            idb.deep_view().contains(n) == is_defined(program.deep_view(), n),
        facts_apart(program.deep_view()),
        well_shaped(program.deep_view()),
        fixed_arities.wf(),
        forall|n: Name| #[trigger]
            is_fixed(program.deep_view(), n) ==> fixed_arities@.contains_key(n),
        target_arity <= 8,
        mentions(program.deep_view()) < usize::MAX,
        (mentions(program.deep_view()) + 1) * edges_of(program.deep_view()).len() <= usize::MAX - 2,
    ensures
        is_ready(r, *program, *idb),
        exists|levels: OrderedMap<String, usize>| #[trigger]
            are_strata(levels, program.deep_view()) && is_prepared(
                r,
                program.deep_view(),
                levels@,
                fixed_arities@,
                target@,
                target_arity as nat,
            ),
{
    let ghost p = program.deep_view();
    let edges = dependency_edges(program);
    let levels = strata_of(program);
    let top: usize = top_of(&levels);
    proof {
        if top != 0 {
            let i = choose|i: int|
                0 <= i < levels.vals@.len() && #[trigger] levels.vals@[i] == top;
            assert(levels.vals@[i] <= (mentions(p) + 1) * edges_of(p).len());
        }
    }
    let mut strata = empty_strata(top + 1);
    proof {
        assert(placed(strata@, *program, *idb, levels@, fixed_arities@, 0, 0));
        assert forall|n: Name| #[trigger] is_defined(p, n) implies levels@.contains_key(n)
            && levels@[n] < strata@.len() by {
            assert(is_named(p, n));
            assert(levels@.contains_key(n));
        }
    }
    place_rules(&mut strata, program, idb, &levels, Ghost(fixed_arities@));
    place_fixed(&mut strata, program, idb, &levels, fixed_arities);
    let ghost below = strata@;
    let mut last: OrderedMap<String, Definition<'a>> = OrderedMap::new();
    last.insert("?".to_string(), Definition::Rules(entry_set(program, idb, target, target_arity)));
    strata.push(Stratum { defs: last });
    let lifetimes = find_lifetimes(program, idb, &edges, &levels, target, top);
    let r = Compiled { strata, lifetimes };
    proof {
        let all = r.strata@;
        let nr = program.rules@.len() as int;
        let nf = program.fixed@.len() as int;
        assert forall|n: Name| (ruled(p, n, nr) || fixed_to(p, n, nf)) == is_defined(p, n) by {}
        assert forall|s: int, n: Name| 0 <= s <= top implies (
        #[trigger] all[s].defs@.contains_key(n)) == (is_defined(p, n) && levels@[n] == s) by {
            assert(all[s] == below[s]);
            assert(below[s].defs@.contains_key(n) == ((ruled(p, n, nr) || fixed_to(p, n, nf))
                && levels@[n] == s));
        }
        assert forall|s: int, n: Name|
            0 <= s <= top && #[trigger] all[s].defs@.contains_key(n) implies definition_model(
            all[s].defs@[n],
        ) == definition_of(p, fixed_arities@, n) by {
            assert(all[s] == below[s]);
            assert(below[s].defs@.contains_key(n));
        }
        assert forall|s: int| 0 <= s < all.len() implies (#[trigger] all[s]).defs.wf() by {
            if s <= top {
                assert(all[s] == below[s]);
            }
        }
        assert forall|s: int, n: Name|
            0 <= s < all.len() && #[trigger] all[s].defs@.contains_key(n) implies definition_wf(
            all[s].defs@[n],
            *program,
            *idb,
        ) by {
            if s <= top {
                assert(all[s] == below[s]);
                assert(below[s].defs@.contains_key(n));
            }
        }
        assert(are_strata(levels, p));
        assert(is_prepared(r, p, levels@, fixed_arities@, target@, target_arity as nat));
    }
    r
}

} // verus!
