//! Datalog programs: rules, fixed rules and stored facts, and what follows
//! from their shape alone.

use vstd::prelude::*;
use crate::aggr::Aggregation;
use crate::names::{names, Name};
use crate::order::{OrderedMap, OrderedSet};
use crate::value::{DataValue, Row, Tuple, Val};

verus! {

/// A term: a value or a variable.
#[derive(Debug, PartialEq, Eq)]
pub enum Term {
    Const(DataValue),
    Var(String),
}

/// The model of a [`Term`].
pub enum TermModel {
    Const(Val),
    Var(Name),
}

impl DeepView for Term {
    type V = TermModel;

    open spec fn deep_view(&self) -> TermModel {
        match *self {
            Term::Const(c) => TermModel::Const(c.deep_view()),
            Term::Var(v) => TermModel::Var(v@),
        }
    }
}

impl Clone for Term {
    fn clone(&self) -> (r: Self)
        ensures
            r.deep_view() == self.deep_view(),
    {
        match self {
            Term::Const(c) => Term::Const(c.clone()),
            Term::Var(v) => Term::Var(v.clone()),
        }
    }
}

/// A copy of some terms.
pub fn copy_terms(ts: &Vec<Term>) -> (r: Vec<Term>)
    ensures
        r.deep_view() == ts.deep_view(),
{
    let mut out: Vec<Term> = Vec::new();
    let mut i: usize = 0;
    while i < ts.len()
        invariant
            i <= ts@.len(),
            out.deep_view() == ts.deep_view().take(i as int),
        decreases ts.len() - i,
    {
        let ghost prev = out.deep_view();
        out.push(ts[i].clone());
        proof {
            assert(out.deep_view() =~= prev.push(ts@[i as int].deep_view()));
            assert(ts.deep_view().take(i + 1) =~= prev.push(ts@[i as int].deep_view()));
        }
        i = i + 1;
    }
    proof {
        assert(ts.deep_view().take(i as int) =~= ts.deep_view());
    }
    out
}

/// A literal of a rule body.
#[derive(Debug, PartialEq, Eq)]
pub struct Literal {
    pub rel: String,
    pub args: Vec<Term>,
    pub negated: bool,
}

/// The model of a [`Literal`].
pub struct LiteralModel {
    pub rel: Name,
    pub args: Seq<TermModel>,
    pub negated: bool,
}

impl DeepView for Literal {
    type V = LiteralModel;

    open spec fn deep_view(&self) -> LiteralModel {
        LiteralModel { rel: self.rel@, args: self.args.deep_view(), negated: self.negated }
    }
}

impl Literal {
    /// A literal that asks for a row.
    pub fn pos(rel: &str, args: Vec<Term>) -> (r: Self)
        ensures
            r.deep_view() == (LiteralModel {
                rel: rel@,
                args: args.deep_view(),
                negated: false,
            }),
    {
        Literal { rel: rel.to_string(), args, negated: false }
    }

    /// A literal that asks for the absence of a row.
    pub fn neg(rel: &str, args: Vec<Term>) -> (r: Self)
        ensures
            r.deep_view() == (LiteralModel { rel: rel@, args: args.deep_view(), negated: true }),
    {
        Literal { rel: rel.to_string(), args, negated: true }
    }
}

impl Clone for Literal {
    fn clone(&self) -> (r: Self)
        ensures
            r.deep_view() == self.deep_view(),
    {
        Literal { rel: self.rel.clone(), args: copy_terms(&self.args), negated: self.negated }
    }
}

/// A copy of a rule body.
pub fn copy_body(ls: &Vec<Literal>) -> (r: Vec<Literal>)
    ensures
        r.deep_view() == ls.deep_view(),
{
    let mut out: Vec<Literal> = Vec::new();
    let mut i: usize = 0;
    while i < ls.len()
        invariant
            i <= ls@.len(),
            out.deep_view() == ls.deep_view().take(i as int),
        decreases ls.len() - i,
    {
        let ghost prev = out.deep_view();
        out.push(ls[i].clone());
        proof {
            assert(out.deep_view() =~= prev.push(ls@[i as int].deep_view()));
            assert(ls.deep_view().take(i + 1) =~= prev.push(ls@[i as int].deep_view()));
        }
        i = i + 1;
    }
    proof {
        assert(ls.deep_view().take(i as int) =~= ls.deep_view());
    }
    out
}

/// A rule: its head, how each head position is aggregated, and its body.
#[derive(Debug, PartialEq, Eq)]
pub struct Rule {
    pub head_rel: String,
    pub head_args: Vec<Term>,
    pub aggr: Vec<Option<Aggregation>>,
    pub body: Vec<Literal>,
}

/// The model of a [`Rule`].
pub struct RuleModel {
    pub head_rel: Name,
    pub head_args: Seq<TermModel>,
    pub aggr: Seq<Option<Aggregation>>,
    pub body: Seq<LiteralModel>,
}

impl DeepView for Rule {
    type V = RuleModel;

    open spec fn deep_view(&self) -> RuleModel {
        RuleModel {
            head_rel: self.head_rel@,
            head_args: self.head_args.deep_view(),
            aggr: self.aggr@,
            body: self.body.deep_view(),
        }
    }
}

/// A head without aggregation.
pub open spec fn unaggregated(n: nat) -> Seq<Option<Aggregation>> {
    Seq::new(n, |i: int| None)
}

/// The aggregations of a head without aggregation.
pub fn no_aggregation(n: usize) -> (r: Vec<Option<Aggregation>>)
    ensures
        r@ == unaggregated(n as nat),
{
    let mut out: Vec<Option<Aggregation>> = Vec::new();
    while out.len() < n
        invariant
            out@.len() <= n,
            forall|i: int| 0 <= i < out@.len() ==> (#[trigger] out@[i]) is None,
        decreases n - out.len(),
    {
        out.push(None);
    }
    proof {
        assert(out@ =~= unaggregated(n as nat));
    }
    out
}

/// A copy of the aggregations of a head.
pub fn copy_aggr(aggr: &Vec<Option<Aggregation>>) -> (r: Vec<Option<Aggregation>>)
    ensures
        r@ == aggr@,
{
    let mut out: Vec<Option<Aggregation>> = Vec::new();
    let mut i: usize = 0;
    while i < aggr.len()
        invariant
            i <= aggr@.len(),
            out@ == aggr@.take(i as int),
        decreases aggr.len() - i,
    {
        out.push(aggr[i]);
        proof {
            assert(aggr@.take(i + 1) =~= aggr@.take(i as int).push(aggr@[i as int]));
        }
        i = i + 1;
    }
    proof {
        assert(aggr@.take(i as int) =~= aggr@);
    }
    out
}

impl Rule {
    /// A rule without aggregation.
    pub fn plain(head_rel: &str, head_args: Vec<Term>, body: Vec<Literal>) -> (r: Self)
        ensures
            r.deep_view() == (RuleModel {
                head_rel: head_rel@,
                head_args: head_args.deep_view(),
                aggr: unaggregated(head_args@.len()),
                body: body.deep_view(),
            }),
    {
        let n: usize = head_args.len();
        Rule { head_rel: head_rel.to_string(), head_args, aggr: no_aggregation(n), body }
    }

    /// A rule whose head positions are aggregated as told.
    pub fn aggregated(
        head_rel: &str,
        head_args: Vec<Term>,
        aggr: Vec<Option<Aggregation>>,
        body: Vec<Literal>,
    ) -> (r: Self)
        ensures
            r.deep_view() == (RuleModel {
                head_rel: head_rel@,
                head_args: head_args.deep_view(),
                aggr: aggr@,
                body: body.deep_view(),
            }),
    {
        Rule { head_rel: head_rel.to_string(), head_args, aggr, body }
    }
}

impl Clone for Rule {
    fn clone(&self) -> (r: Self)
        ensures
            r.deep_view() == self.deep_view(),
    {
        Rule {
            head_rel: self.head_rel.clone(),
            head_args: copy_terms(&self.head_args),
            aggr: copy_aggr(&self.aggr),
            body: copy_body(&self.body),
        }
    }
}

/// What a fixed rule computes from its inputs.
#[derive(Clone, Copy, Debug, PartialEq, Eq, Structural)]
pub enum FixedEval {
    /// The values that occur in the pairs of its first input.
    Endpoints,
}

/// A rule that is computed as a whole from complete inputs.
#[derive(Debug, PartialEq, Eq)]
pub struct FixedRule {
    pub head_rel: String,
    pub inputs: Vec<String>,
    pub eval: FixedEval,
}

/// The model of a [`FixedRule`].
pub struct FixedModel {
    pub head_rel: Name,
    pub inputs: Seq<Name>,
    pub eval: FixedEval,
}

impl DeepView for FixedRule {
    type V = FixedModel;

    open spec fn deep_view(&self) -> FixedModel {
        FixedModel { head_rel: self.head_rel@, inputs: names(self.inputs@), eval: self.eval }
    }
}

/// A program.
#[derive(Debug, PartialEq, Eq)]
pub struct Program {
    pub rules: Vec<Rule>,
    pub fixed: Vec<FixedRule>,
    /// The stored facts of each relation.
    pub facts: OrderedMap<String, OrderedSet<Tuple>>,
}

/// The model of a [`Program`].
pub struct ProgramModel {
    pub rules: Seq<RuleModel>,
    pub fixed: Seq<FixedModel>,
    pub facts: Map<Name, Set<Row>>,
}

/// Stored relations as sets of rows.
pub open spec fn fact_sets(facts: Map<Name, OrderedSet<Tuple>>) -> Map<Name, Set<Row>> {
    facts.map_values(|s: OrderedSet<Tuple>| s.deep_view())
}

/// Stored relations that are sets in order.
pub open spec fn facts_wf(facts: OrderedMap<String, OrderedSet<Tuple>>) -> bool {
    &&& facts.wf()
    &&& forall|n: Name| #[trigger] facts@.contains_key(n) ==> facts@[n].wf()
}

impl Program {
    pub open spec fn wf(&self) -> bool {
        facts_wf(self.facts)
    }
}

impl DeepView for Program {
    type V = ProgramModel;

    open spec fn deep_view(&self) -> ProgramModel {
        ProgramModel {
            rules: self.rules.deep_view(),
            fixed: self.fixed.deep_view(),
            facts: fact_sets(self.facts@),
        }
    }
}

/// The rows stored under a name.
pub open spec fn stored_rows(facts: Map<Name, Set<Row>>, rel: Name) -> Set<Row> {
    if facts.contains_key(rel) {
        facts[rel]
    } else {
        Set::empty()
    }
}

/// Whether a rule, or a fixed rule, defines a relation.
pub open spec fn is_defined(p: ProgramModel, rel: Name) -> bool {
    ||| exists|i: int| 0 <= i < p.rules.len() && (#[trigger] p.rules[i]).head_rel == rel
    ||| is_fixed(p, rel)
}

/// Whether a fixed rule defines a relation.
pub open spec fn is_fixed(p: ProgramModel, rel: Name) -> bool {
    exists|i: int| 0 <= i < p.fixed.len() && (#[trigger] p.fixed[i]).head_rel == rel
}

/// The relations that rules and fixed rules define.
pub fn idb_of(program: &Program) -> (r: OrderedSet<String>)
    ensures
        r.wf(),
        forall|n: Name| #[trigger]
            r.deep_view().contains(n) == is_defined(program.deep_view(), n),
{
    let ghost p = program.deep_view();
    let mut out: OrderedSet<String> = OrderedSet::new();
    let mut i: usize = 0;
    while i < program.rules.len()
        invariant
            i <= program.rules@.len(),
            p == program.deep_view(),
            out.wf(),
            forall|n: Name| #[trigger]
                out.deep_view().contains(n) == exists|j: int|
                    0 <= j < i && (#[trigger] p.rules[j]).head_rel == n,
        decreases program.rules.len() - i,
    {
        let ghost before = out.deep_view();
        proof {
            assert(p.rules[i as int].head_rel == program.rules@[i as int].head_rel@);
        }
        let _ = out.insert(program.rules[i].head_rel.clone());
        i = i + 1;
    }
    let mut k: usize = 0;
    while k < program.fixed.len()
        invariant
            k <= program.fixed@.len(),
            i == program.rules@.len(),
            p == program.deep_view(),
            out.wf(),
            forall|n: Name| #[trigger]
                out.deep_view().contains(n) == ((exists|j: int|
                    0 <= j < i && (#[trigger] p.rules[j]).head_rel == n) || (exists|j: int|
                    0 <= j < k && (#[trigger] p.fixed[j]).head_rel == n)),
        decreases program.fixed.len() - k,
    {
        proof {
            assert(p.fixed[k as int].head_rel == program.fixed@[k as int].head_rel@);
        }
        let _ = out.insert(program.fixed[k].head_rel.clone());
        k = k + 1;
    }
    out
}

} // verus!
