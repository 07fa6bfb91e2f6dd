//! How the relations of a program depend on one another, and the strata that
//! follow.

use vstd::prelude::*;
use crate::aggr::Aggregation;
use crate::names::{names, Name};
use crate::order::{lemma_map_of_at, lemma_sorted_no_duplicates, place_of, OrderedMap, OrderedSet};
use crate::program::{
    is_defined, is_fixed, FixedModel, FixedRule, Literal, LiteralModel, Program, ProgramModel, Rule,
    RuleModel,
};
use crate::strata::{
    arcs_within, ground_level, law_levels_are_least, levelled, levels, lift, raise_levels, respects,
    rounds, under, Arc,
};

verus! {

/// Whether a head position of a rule is aggregated.
pub open spec fn aggregates(aggr: Seq<Option<Aggregation>>) -> bool {
    exists|j: int| 0 <= j < aggr.len() && (#[trigger] aggr[j]) is Some
}

/// Whether every aggregation of a rule is a meet.
pub open spec fn only_meets(aggr: Seq<Option<Aggregation>>) -> bool {
    forall|j: int|
        0 <= j < aggr.len() && (#[trigger] aggr[j]) is Some ==> aggr[j]->Some_0.meets()
}

/// Whether a rule of a relation aggregates.
pub open spec fn has_aggr(p: ProgramModel, rel: Name) -> bool {
    exists|i: int|
        0 <= i < p.rules.len() && (#[trigger] p.rules[i]).head_rel == rel && aggregates(
            p.rules[i].aggr,
        )
}

/// Whether a relation aggregates, and only by meets.
pub open spec fn is_meet(p: ProgramModel, rel: Name) -> bool {
    has_aggr(p, rel) && forall|i: int|
        0 <= i < p.rules.len() && (#[trigger] p.rules[i]).head_rel == rel ==> only_meets(
            p.rules[i].aggr,
        )
}

/// How the rules of a relation aggregate.
#[derive(Clone, Copy, Debug, PartialEq, Eq, Structural)]
pub struct HeadClass {
    pub has_aggr: bool,
    pub is_meet: bool,
}

fn some_aggregation(aggr: &Vec<Option<Aggregation>>) -> (r: bool)
    ensures
        r == aggregates(aggr@),
{
    let mut i: usize = 0;
    while i < aggr.len()
        invariant
            i <= aggr@.len(),
            forall|j: int| 0 <= j < i ==> (#[trigger] aggr@[j]) is None,
        decreases aggr.len() - i,
    {
        if aggr[i].is_some() {
            return true;
        }
        i = i + 1;
    }
    false
}

fn all_meets(aggr: &Vec<Option<Aggregation>>) -> (r: bool)
    ensures
        r == only_meets(aggr@),
{
    let mut i: usize = 0;
    while i < aggr.len()
        invariant
            i <= aggr@.len(),
            forall|j: int|
                0 <= j < i && (#[trigger] aggr@[j]) is Some ==> aggr@[j]->Some_0.meets(),
        decreases aggr.len() - i,
    {
        match aggr[i] {
            Some(a) => {
                if !a.is_meet() {
                    proof {
                        assert(aggr@[i as int] is Some);
                    }
                    return false;
                }
            },
            None => {},
        }
        i = i + 1;
    }
    true
}

/// How the rules of a relation aggregate; a relation without rules does not.
pub fn head_class(program: &Program, rel: &String) -> (r: HeadClass)
    ensures
        r.has_aggr == has_aggr(program.deep_view(), rel@),
        r.is_meet == is_meet(program.deep_view(), rel@),
{
    let ghost p = program.deep_view();
    let mut any = false;
    let mut meets = true;
    let mut i: usize = 0;
    while i < program.rules.len()
        invariant
            i <= program.rules@.len(),
            p == program.deep_view(),
            any == exists|j: int|
                0 <= j < i && (#[trigger] p.rules[j]).head_rel == rel@ && aggregates(
                    p.rules[j].aggr,
                ),
            meets == forall|j: int|
                0 <= j < i && (#[trigger] p.rules[j]).head_rel == rel@ ==> only_meets(
                    p.rules[j].aggr,
                ),
        decreases program.rules.len() - i,
    {
        proof {
            assert(p.rules[i as int] == program.rules@[i as int].deep_view());
        }
        if program.rules[i].head_rel == *rel {
            if some_aggregation(&program.rules[i].aggr) {
                any = true;
            }
            if !all_meets(&program.rules[i].aggr) {
                meets = false;
            }
        }
        i = i + 1;
    }
    HeadClass { has_aggr: any, is_meet: any && meets }
}

/// A relation depends on another; a forcing dependency puts it above.
#[derive(Debug)]
pub struct Edge {
    pub head: String,
    pub dep: String,
    pub forcing: bool,
}

/// The model of an [`Edge`].
pub struct EdgeModel {
    pub head: Name,
    pub dep: Name,
    pub forcing: bool,
}

impl DeepView for Edge {
    type V = EdgeModel;

    open spec fn deep_view(&self) -> EdgeModel {
        EdgeModel { head: self.head@, dep: self.dep@, forcing: self.forcing }
    }
}

/// Whether a literal in the body of a relation's rule forces the relation
/// above what it reads. An aggregation is above everything it reads, but for
/// a meet that reads itself; another rule is above what it negates, above
/// fixed rules and above meets.
pub open spec fn forces(p: ProgramModel, head: Name, l: LiteralModel) -> bool {
    if has_aggr(p, head) {
        if is_meet(p, head) && l.rel == head {
            l.negated
        } else {
            true
        }
    } else {
        l.negated || is_fixed(p, l.rel) || is_meet(p, l.rel)
    }
}

/// The dependencies of one rule.
pub open spec fn rule_edges(p: ProgramModel, r: RuleModel) -> Seq<EdgeModel> {
    Seq::new(
        r.body.len(),
        |j: int|
            EdgeModel {
                head: r.head_rel,
                dep: r.body[j].rel,
                forcing: forces(p, r.head_rel, r.body[j]),
            },
    )
}

/// The dependencies of the first rules.
pub open spec fn edges_of_rules(p: ProgramModel, k: int) -> Seq<EdgeModel>
    decreases k,
{
    if k <= 0 {
        Seq::empty()
    } else {
        edges_of_rules(p, k - 1) + rule_edges(p, p.rules[k - 1])
    }
}

/// The dependencies of one fixed rule: it is above all its inputs.
pub open spec fn fixed_edges(f: FixedModel) -> Seq<EdgeModel> {
    Seq::new(
        f.inputs.len(),
        |j: int| EdgeModel { head: f.head_rel, dep: f.inputs[j], forcing: true },
    )
}

/// The dependencies of the first fixed rules.
pub open spec fn edges_of_fixed(p: ProgramModel, k: int) -> Seq<EdgeModel>
    decreases k,
{
    if k <= 0 {
        Seq::empty()
    } else {
        edges_of_fixed(p, k - 1) + fixed_edges(p.fixed[k - 1])
    }
}

/// The dependencies of a program.
pub open spec fn edges_of(p: ProgramModel) -> Seq<EdgeModel> {
    edges_of_rules(p, p.rules.len() as int) + edges_of_fixed(p, p.fixed.len() as int)
}

fn is_fixed_head(program: &Program, rel: &String) -> (r: bool)
    ensures
        r == is_fixed(program.deep_view(), rel@),
{
    let ghost p = program.deep_view();
    let mut i: usize = 0;
    while i < program.fixed.len()
        invariant
            i <= program.fixed@.len(),
            p == program.deep_view(),
            forall|j: int| 0 <= j < i ==> (#[trigger] p.fixed[j]).head_rel != rel@,
        decreases program.fixed.len() - i,
    {
        proof {
            assert(p.fixed[i as int] == program.fixed@[i as int].deep_view());
        }
        if program.fixed[i].head_rel == *rel {
            return true;
        }
        i = i + 1;
    }
    false
}

fn is_forcing(program: &Program, class: HeadClass, head: &String, l: &Literal) -> (r: bool)
    requires
        class.has_aggr == has_aggr(program.deep_view(), head@),
        class.is_meet == is_meet(program.deep_view(), head@),
    ensures
        r == forces(program.deep_view(), head@, l.deep_view()),
{
    if class.has_aggr {
        if class.is_meet && l.rel == *head {
            l.negated
        } else {
            true
        }
    } else {
        l.negated || is_fixed_head(program, &l.rel) || head_class(program, &l.rel).is_meet
    }
}

fn add_rule_edges(program: &Program, rule: &Rule, out: &mut Vec<Edge>)
    ensures
        final(out).deep_view() == old(out).deep_view() + rule_edges(
            program.deep_view(),
            rule.deep_view(),
        ),
{
    let ghost p = program.deep_view();
    let ghost m = rule.deep_view();
    let ghost whole = rule_edges(p, m);
    let ghost before = out.deep_view();
    let class = head_class(program, &rule.head_rel);
    let mut j: usize = 0;
    proof {
        assert(out.deep_view() =~= before + whole.take(0));
    }
    while j < rule.body.len()
        invariant
            j <= rule.body@.len(),
            p == program.deep_view(),
            m == rule.deep_view(),
            whole == rule_edges(p, m),
            class.has_aggr == has_aggr(p, rule.head_rel@),
            class.is_meet == is_meet(p, rule.head_rel@),
            out.deep_view() == before + whole.take(j as int),
        decreases rule.body.len() - j,
    {
        let ghost prev = out.deep_view();
        let forcing = is_forcing(program, class, &rule.head_rel, &rule.body[j]);
        out.push(
            Edge { head: rule.head_rel.clone(), dep: rule.body[j].rel.clone(), forcing },
        );
        proof {
            assert(m.body[j as int] == rule.body@[j as int].deep_view());
            assert(out.deep_view() =~= prev.push(whole[j as int]));
            assert(before + whole.take(j + 1) =~= (before + whole.take(j as int)).push(
                whole[j as int],
            ));
        }
        j = j + 1;
    }
    proof {
        assert(whole.take(j as int) =~= whole);
    }
}

fn add_fixed_edges(f: &FixedRule, out: &mut Vec<Edge>)
    ensures
        final(out).deep_view() == old(out).deep_view() + fixed_edges(f.deep_view()),
{
    let ghost m = f.deep_view();
    let ghost whole = fixed_edges(m);
    let ghost before = out.deep_view();
    let mut j: usize = 0;
    proof {
        assert(out.deep_view() =~= before + whole.take(0));
    }
    while j < f.inputs.len()
        invariant
            j <= f.inputs@.len(),
            m == f.deep_view(),
            whole == fixed_edges(m),
            out.deep_view() == before + whole.take(j as int),
        decreases f.inputs.len() - j,
    {
        let ghost prev = out.deep_view();
        out.push(Edge { head: f.head_rel.clone(), dep: f.inputs[j].clone(), forcing: true });
        proof {
            assert(out.deep_view() =~= prev.push(whole[j as int]));
            assert(before + whole.take(j + 1) =~= (before + whole.take(j as int)).push(
                whole[j as int],
            ));
        }
        j = j + 1;
    }
    proof {
        assert(whole.take(j as int) =~= whole);
    }
}

/// The dependencies of a program, rule by rule and literal by literal, and
/// then those of its fixed rules.
pub fn dependency_edges(program: &Program) -> (r: Vec<Edge>)
    ensures
        r.deep_view() == edges_of(program.deep_view()),
{
    let ghost p = program.deep_view();
    let mut out: Vec<Edge> = Vec::new();
    let mut i: usize = 0;
    proof {
        assert(out.deep_view() =~= edges_of_rules(p, 0));
    }
    while i < program.rules.len()
        invariant
            i <= program.rules@.len(),
            p == program.deep_view(),
            out.deep_view() == edges_of_rules(p, i as int),
        decreases program.rules.len() - i,
    {
        proof {
            assert(p.rules[i as int] == program.rules@[i as int].deep_view());
        }
        add_rule_edges(program, &program.rules[i], &mut out);
        i = i + 1;
    }
    let ghost front = out.deep_view();
    let mut k: usize = 0;
    proof {
        assert(front + edges_of_fixed(p, 0) =~= front);
    }
    while k < program.fixed.len()
        invariant
            k <= program.fixed@.len(),
            p == program.deep_view(),
            out.deep_view() == front + edges_of_fixed(p, k as int),
        decreases program.fixed.len() - k,
    {
        proof {
            assert(p.fixed[k as int] == program.fixed@[k as int].deep_view());
            assert(front + edges_of_fixed(p, k + 1) =~= front + edges_of_fixed(p, k as int)
                + fixed_edges(p.fixed[k as int]));
        }
        add_fixed_edges(&program.fixed[k], &mut out);
        k = k + 1;
    }
    out
}

/// Whether a program names a relation.
pub open spec fn is_named(p: ProgramModel, rel: Name) -> bool {
    ||| is_defined(p, rel)
    ||| p.facts.contains_key(rel)
    ||| exists|i: int| 0 <= i < edges_of(p).len() && (#[trigger] edges_of(p)[i]).dep == rel
}

/// The number of places where a program names a relation.
pub open spec fn mentions(p: ProgramModel) -> nat {
    p.rules.len() + p.fixed.len() + edges_of(p).len() + p.facts.dom().len()
}

/// Whether strata respect every dependency.
pub open spec fn stratifies(p: ProgramModel, t: spec_fn(Name) -> nat) -> bool {
    forall|i: int|
        0 <= i < edges_of(p).len() ==> t((#[trigger] edges_of(p)[i]).head) >= t(edges_of(p)[i].dep)
            + (if edges_of(p)[i].forcing {
            1nat
        } else {
            0nat
        })
}

/// Whether some strata respect every dependency.
pub open spec fn stratifiable(p: ProgramModel) -> bool {
    exists|t: spec_fn(Name) -> nat| #[trigger] stratifies(p, t)
}

/// A map of machine integers as strata.
pub open spec fn strata_in(m: Map<Name, usize>) -> spec_fn(Name) -> nat {
    |n: Name| m[n] as nat
}

/// Dependencies as arcs between the places of their names.
pub open spec fn arcs_of(edges: Seq<EdgeModel>, keys: Seq<Name>) -> Seq<Arc> {
    Seq::new(
        edges.len(),
        |i: int|
            Arc {
                head: keys.index_of(edges[i].head) as usize,
                dep: keys.index_of(edges[i].dep) as usize,
                forcing: edges[i].forcing,
            },
    )
}

proof fn lemma_rule_heads(p: ProgramModel, k: int, i: int)
    requires
        0 <= k <= p.rules.len(),
        0 <= i < edges_of_rules(p, k).len(),
    ensures
        is_defined(p, edges_of_rules(p, k)[i].head),
    decreases k,
{
    if k > 0 {
        let front = edges_of_rules(p, k - 1);
        if i < front.len() {
            lemma_rule_heads(p, k - 1, i);
        } else {
            assert(edges_of_rules(p, k)[i].head == p.rules[k - 1].head_rel);
        }
    }
}

proof fn lemma_fixed_heads(p: ProgramModel, k: int, i: int)
    requires
        0 <= k <= p.fixed.len(),
        0 <= i < edges_of_fixed(p, k).len(),
    ensures
        is_fixed(p, edges_of_fixed(p, k)[i].head),
    decreases k,
{
    if k > 0 {
        let front = edges_of_fixed(p, k - 1);
        if i < front.len() {
            lemma_fixed_heads(p, k - 1, i);
        } else {
            assert(edges_of_fixed(p, k)[i].head == p.fixed[k - 1].head_rel);
        }
    }
}

/// Both ends of a dependency are named.
pub proof fn lemma_edges_named(p: ProgramModel, i: int)
    requires
        0 <= i < edges_of(p).len(),
    ensures
        is_defined(p, edges_of(p)[i].head),
        is_named(p, edges_of(p)[i].head),
        is_named(p, edges_of(p)[i].dep),
{
    let front = edges_of_rules(p, p.rules.len() as int);
    if i < front.len() {
        lemma_rule_heads(p, p.rules.len() as int, i);
    } else {
        lemma_fixed_heads(p, p.fixed.len() as int, i - front.len());
    }
    assert(edges_of(p)[i].dep == edges_of(p)[i].dep);
}

/// Add a name to a set; the set grows by one at most.
fn note_name(set: &mut OrderedSet<String>, n: &String)
    requires
        old(set).wf(),
    ensures
        final(set).wf(),
        final(set).deep_view() == old(set).deep_view().insert(n@),
        final(set).items@.len() <= old(set).items@.len() + 1,
{
    let before: usize = set.len();
    let _ = set.insert(n.clone());
    let after: usize = set.len();
    proof {
        assert(after <= before + 1);
    }
}

/// The relations that a program names.
fn named_relations(program: &Program, edges: &Vec<Edge>) -> (r: OrderedSet<String>)
    requires
        program.wf(),
        edges.deep_view() == edges_of(program.deep_view()),
    ensures
        r.wf(),
        forall|n: Name| #[trigger] r.deep_view().contains(n) == is_named(program.deep_view(), n),
        r.items@.len() <= mentions(program.deep_view()),
{
    let ghost p = program.deep_view();
    let mut out: OrderedSet<String> = OrderedSet::new();
    let mut i: usize = 0;
    while i < program.rules.len()
        invariant
            i <= program.rules@.len(),
            p == program.deep_view(),
            out.wf(),
            out.items@.len() <= i,
            forall|n: Name| #[trigger]
                out.deep_view().contains(n) == exists|j: int|
                    0 <= j < i && (#[trigger] p.rules[j]).head_rel == n,
        decreases program.rules.len() - i,
    {
        proof {
            assert(p.rules[i as int].head_rel == program.rules@[i as int].head_rel@);
        }
        note_name(&mut out, &program.rules[i].head_rel);
        i = i + 1;
    }
    let mut k: usize = 0;
    while k < program.fixed.len()
        invariant
            k <= program.fixed@.len(),
            i == program.rules@.len(),
            p == program.deep_view(),
            out.wf(),
            out.items@.len() <= i + k,
            forall|n: Name| #[trigger]
                out.deep_view().contains(n) == ((exists|j: int|
                    0 <= j < i && (#[trigger] p.rules[j]).head_rel == n) || (exists|j: int|
                    0 <= j < k && (#[trigger] p.fixed[j]).head_rel == n)),
        decreases program.fixed.len() - k,
    {
        proof {
            assert(p.fixed[k as int].head_rel == program.fixed@[k as int].head_rel@);
        }
        note_name(&mut out, &program.fixed[k].head_rel);
        k = k + 1;
    }
    let mut e: usize = 0;
    while e < edges.len()
        invariant
            e <= edges@.len(),
            p == program.deep_view(),
            edges.deep_view() == edges_of(p),
            out.wf(),
            out.items@.len() <= p.rules.len() + p.fixed.len() + e,
            forall|n: Name| #[trigger]
                out.deep_view().contains(n) == (is_defined(p, n) || (exists|j: int|
                    0 <= j < e && (#[trigger] edges_of(p)[j]).dep == n)),
        decreases edges.len() - e,
    {
        proof {
            assert(edges_of(p)[e as int] == edges@[e as int].deep_view());
        }
        note_name(&mut out, &edges[e].dep);
        e = e + 1;
    }
    let mut f: usize = 0;
    let total: usize = program.facts.len();
    proof {
        assert(p.facts.dom() =~= program.facts@.dom());
        assert(edges@.len() == edges.deep_view().len());
    }
    while f < total
        invariant
            f <= total,
            total == program.facts.keys@.len(),
            p == program.deep_view(),
            e == edges_of(p).len(),
            out.wf(),
            out.items@.len() <= p.rules.len() + p.fixed.len() + edges_of(p).len() + f,
            forall|n: Name| #[trigger]
                out.deep_view().contains(n) == (is_defined(p, n) || (exists|j: int|
                    0 <= j < e && (#[trigger] edges_of(p)[j]).dep == n) || (exists|j: int|
                    0 <= j < f && (#[trigger] program.facts.keys@[j])@ == n)),
        decreases total - f,
    {
        note_name(&mut out, &program.facts.keys[f]);
        f = f + 1;
    }
    proof {
        assert forall|n: Name| #[trigger] out.deep_view().contains(n) == is_named(p, n) by {
            let keys = program.facts.keys.deep_view();
            if p.facts.contains_key(n) {
                assert(keys.contains(n));
                let j = keys.index_of(n);
                assert(program.facts.keys@[j]@ == n);
            }
            if exists|j: int| 0 <= j < f && (#[trigger] program.facts.keys@[j])@ == n {
                let j = choose|j: int| 0 <= j < f && (#[trigger] program.facts.keys@[j])@ == n;
                assert(keys[j] == n);
                assert(keys.contains(n));
            }
        }
    }
    out
}

/// Dependencies as arcs between the places of names in a sorted list.
fn arcs_between(edges: &Vec<Edge>, keys: &Vec<String>) -> (r: Vec<Arc>)
    requires
        crate::order::strictly_sorted::<String>(keys.deep_view()),
        forall|i: int|
            0 <= i < edges@.len() ==> keys.deep_view().contains((#[trigger] edges@[i]).head@)
                && keys.deep_view().contains(edges@[i].dep@),
    ensures
        r@ == arcs_of(edges.deep_view(), keys.deep_view()),
        arcs_within(r@, keys@.len() as int),
{
    let ghost ks = keys.deep_view();
    let ghost whole = arcs_of(edges.deep_view(), ks);
    proof {
        lemma_sorted_no_duplicates::<String>(ks);
    }
    let mut out: Vec<Arc> = Vec::new();
    let mut i: usize = 0;
    while i < edges.len()
        invariant
            i <= edges@.len(),
            ks == keys.deep_view(),
            ks.no_duplicates(),
            crate::order::strictly_sorted::<String>(ks),
            whole == arcs_of(edges.deep_view(), ks),
            forall|j: int|
                0 <= j < edges@.len() ==> ks.contains((#[trigger] edges@[j]).head@) && ks.contains(
                    edges@[j].dep@,
                ),
            out@ == whole.take(i as int),
            arcs_within(out@, keys@.len() as int),
        decreases edges.len() - i,
    {
        let (_, head) = place_of(keys, &edges[i].head);
        let (_, dep) = place_of(keys, &edges[i].dep);
        proof {
            let e = edges@[i as int];
            assert(edges.deep_view()[i as int] == e.deep_view());
            assert(ks.contains(e.head@) && ks.contains(e.dep@));
            assert(ks[head as int] == e.head@);
            assert(ks[dep as int] == e.dep@);
            assert(ks.index_of(e.head@) == head);
            assert(ks.index_of(e.dep@) == dep);
        }
        out.push(Arc { head, dep, forcing: edges[i].forcing });
        proof {
            assert(whole.take(i + 1) =~= whole.take(i as int).push(whole[i as int]));
        }
        i = i + 1;
    }
    proof {
        assert(whole.take(i as int) =~= whole);
    }
    out
}

/// Strata by names and levels by places say the same.
proof fn lemma_levels_are_strata(p: ProgramModel, keys: Seq<Name>, t: spec_fn(Name) -> nat)
    requires
        keys.no_duplicates(),
        keys.len() <= usize::MAX,
        forall|n: Name| #[trigger] keys.contains(n) == is_named(p, n),
    ensures
        respects(Seq::new(keys.len(), |i: int| t(keys[i])), arcs_of(edges_of(p), keys))
            <==> stratifies(p, t),
{
    let s = Seq::new(keys.len(), |i: int| t(keys[i]));
    let edges = edges_of(p);
    let arcs = arcs_of(edges, keys);
    assert forall|i: int| 0 <= i < edges.len() implies s[arcs[i].head as int] == t(
        (#[trigger] edges[i]).head,
    ) && s[arcs[i].dep as int] == t(edges[i].dep) && arcs[i].forcing == edges[i].forcing by {
        lemma_edges_named(p, i);
        assert(keys.contains(edges[i].head));
        assert(keys.contains(edges[i].dep));
    }
    if respects(s, arcs) {
        assert forall|i: int| 0 <= i < edges.len() implies t((#[trigger] edges[i]).head) >= t(
            edges[i].dep,
        ) + (if edges[i].forcing {
            1nat
        } else {
            0nat
        }) by {
            assert(s[arcs[i].head as int] >= s[arcs[i].dep as int] + lift(arcs[i]));
        }
    }
    if stratifies(p, t) {
        assert forall|i: int| 0 <= i < arcs.len() implies s[(#[trigger] arcs[i]).head as int]
            >= s[arcs[i].dep as int] + lift(arcs[i]) by {
            assert(t(edges[i].head) >= t(edges[i].dep) + (if edges[i].forcing {
                1nat
            } else {
                0nat
            }));
        }
    }
}

/// Whether a map is the strata of a program: raised round by round as long as
/// a dependency asks for it, for one round more than there are relations at
/// most.
pub open spec fn are_strata(r: OrderedMap<String, usize>, p: ProgramModel) -> bool {
    &&& r.wf()
    &&& forall|n: Name| #[trigger] r@.contains_key(n) == is_named(p, n)
    &&& levels(r.vals@) == rounds(
        ground_level(r.keys@.len()),
        arcs_of(edges_of(p), r.keys.deep_view()),
        r.keys@.len() + 1,
    )
}

/// The strata of a program respect every dependency if any strata do, and no
/// strata that do are lower anywhere.
pub proof fn law_strata_are_least(r: OrderedMap<String, usize>, p: ProgramModel)
    requires
        are_strata(r, p),
    ensures
        stratifies(p, strata_in(r@)) <==> stratifiable(p),
        forall|t: spec_fn(Name) -> nat, n: Name|
            #![trigger stratifies(p, t), r@.contains_key(n)]
            stratifies(p, t) && r@.contains_key(n) ==> r@[n] <= t(n),
{
    let keys = r.keys.deep_view();
    let n = keys.len();
    let arcs = arcs_of(edges_of(p), keys);
    lemma_sorted_no_duplicates::<String>(keys);
    let held: usize = r.keys.len();
    assert(n == held);
    assert forall|x: Name| #[trigger] keys.contains(x) == is_named(p, x) by {
        assert(r@.contains_key(x) == keys.contains(x));
    }
    assert(arcs_within(arcs, n as int)) by {
        assert forall|i: int| 0 <= i < arcs.len() implies (#[trigger] arcs[i]).head < n
            && arcs[i].dep < n by {
            lemma_edges_named(p, i);
            assert(keys.contains(edges_of(p)[i].head));
            assert(keys.contains(edges_of(p)[i].dep));
        }
    }
    law_levels_are_least(n, arcs, n + 1);
    let s = levels(r.vals@);
    let own = strata_in(r@);
    assert(Seq::new(keys.len(), |i: int| own(keys[i])) =~= s) by {
        assert forall|i: int| 0 <= i < keys.len() implies own(keys[i]) == s[i] by {
            lemma_map_of_at(keys, r.vals@, i);
        }
    }
    lemma_levels_are_strata(p, keys, own);
    if stratifiable(p) {
        let t = choose|t: spec_fn(Name) -> nat| #[trigger] stratifies(p, t);
        lemma_levels_are_strata(p, keys, t);
        let ts = Seq::new(keys.len(), |i: int| t(keys[i]));
        assert(ts.len() == n && respects(ts, arcs));
        assert(levelled(n, arcs));
    }
    assert forall|t: spec_fn(Name) -> nat, x: Name|
        #![trigger stratifies(p, t), r@.contains_key(x)]
        stratifies(p, t) && r@.contains_key(x) implies r@[x] <= t(x) by {
        lemma_levels_are_strata(p, keys, t);
        let ts = Seq::new(keys.len(), |i: int| t(keys[i]));
        assert(ts.len() == n && respects(ts, arcs));
        assert(under(s, ts));
        let i = keys.index_of(x);
        assert(keys.contains(x));
        lemma_map_of_at(keys, r.vals@, i);
        assert(s[i] <= ts[i]);
    }
}

/// The stratum of each relation that a program names.
pub fn strata_of(program: &Program) -> (r: OrderedMap<String, usize>)
    requires
        program.wf(),
        mentions(program.deep_view()) < usize::MAX,
        (mentions(program.deep_view()) + 1) * edges_of(program.deep_view()).len() <= usize::MAX,
    ensures
        are_strata(r, program.deep_view()),
        stratifies(program.deep_view(), strata_in(r@)) <==> stratifiable(program.deep_view()),
        forall|t: spec_fn(Name) -> nat, n: Name|
            #![trigger stratifies(program.deep_view(), t), r@.contains_key(n)]
            stratifies(program.deep_view(), t) && r@.contains_key(n) ==> r@[n] <= t(n),
        forall|i: int|
            0 <= i < r.vals@.len() ==> (#[trigger] r.vals@[i]) <= (mentions(program.deep_view())
                + 1) * edges_of(program.deep_view()).len(),
{
    let ghost p = program.deep_view();
    let edges = dependency_edges(program);
    let names = named_relations(program, &edges);
    let ghost keys = names.items.deep_view();
    let n: usize = names.items.len();
    proof {
        lemma_sorted_no_duplicates::<String>(keys);
        assert forall|i: int| 0 <= i < edges@.len() implies keys.contains(
            (#[trigger] edges@[i]).head@,
        ) && keys.contains(edges@[i].dep@) by {
            assert(edges.deep_view()[i] == edges@[i].deep_view());
            lemma_edges_named(p, i);
            assert(names.deep_view().contains(edges@[i].head@));
            assert(names.deep_view().contains(edges@[i].dep@));
        }
        assert(edges@.len() == edges.deep_view().len());
        assert((n + 1) * edges@.len() <= (mentions(p) + 1) * edges_of(p).len()) by (nonlinear_arith)
            requires
                n <= mentions(p),
                edges@.len() == edges_of(p).len(),
        ;
    }
    let arcs = arcs_between(&edges, &names.items);
    let found = raise_levels(n, &arcs);
    let r = OrderedMap { keys: names.items, vals: found };
    proof {
        assert(keys.len() == n);
        assert forall|x: Name| #[trigger] r@.contains_key(x) == is_named(p, x) by {
            assert(names.deep_view().contains(x) == keys.contains(x));
        }
        law_strata_are_least(r, p);
    }
    r
}

} // verus!
