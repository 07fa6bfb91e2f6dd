//! Least models of programs.

use vstd::prelude::*;
use crate::depend::{aggregates, has_aggr};
use crate::fixed::computed;
use crate::names::Name;
use crate::program::{is_defined, is_fixed, stored_rows, LiteralModel, ProgramModel, RuleModel};
use crate::unify::grounded;
use crate::value::{Row, Val};

verus! {

/// A reading of relation names: the rows of each relation.
pub type Reading = spec_fn(Name) -> Set<Row>;

/// Whether a literal holds in a reading, under values of its variables.
pub open spec fn literal_holds(m: Reading, l: LiteralModel, theta: Map<Name, Val>) -> bool {
    m(l.rel).contains(grounded(l.args, theta)) != l.negated
}

/// Whether a body holds in a reading, under values of its variables.
pub open spec fn body_holds(m: Reading, body: Seq<LiteralModel>, theta: Map<Name, Val>) -> bool {
    forall|j: int| 0 <= j < body.len() ==> literal_holds(m, #[trigger] body[j], theta)
}

/// The head of a rule under values of its variables.
pub open spec fn head_row(r: RuleModel, theta: Map<Name, Val>) -> Row {
    grounded(r.head_args, theta)
}

/// Whether a reading has a row that the rules of a relation give, before any
/// aggregation.
pub open spec fn gives_row(p: ProgramModel, m: Reading, rel: Name, row: Row) -> bool {
    exists|r: RuleModel, theta: Map<Name, Val>|
        p.rules.contains(r) && r.head_rel == rel && #[trigger] body_holds(m, r.body, theta) && row
            == head_row(r, theta)
}

/// Whether a reading is a model of a program, as far as no aggregation goes:
/// a relation that nothing defines has its stored rows, a fixed rule has what
/// it computes, and where the body of a rule holds, so does its head.
pub open spec fn is_model(p: ProgramModel, m: Reading) -> bool {
    &&& forall|rel: Name| !is_defined(p, rel) ==> #[trigger] m(rel) == stored_rows(p.facts, rel)
    &&& forall|i: int|
        0 <= i < p.fixed.len() ==> m((#[trigger] p.fixed[i]).head_rel) == computed(
            p.fixed[i].eval,
            Seq::new(p.fixed[i].inputs.len(), |k: int| m(p.fixed[i].inputs[k])),
        )
    &&& forall|r: RuleModel, theta: Map<Name, Val>|
        p.rules.contains(r) && !aggregates(r.aggr) && #[trigger] body_holds(m, r.body, theta)
            ==> m(r.head_rel).contains(head_row(r, theta))
}

/// Whether rules alone define a relation, without aggregation.
pub open spec fn is_plain(p: ProgramModel, rel: Name) -> bool {
    is_defined(p, rel) && !is_fixed(p, rel) && !has_aggr(p, rel)
}

/// Whether a rule derives a row from rows of lower rank.
pub open spec fn derives(
    p: ProgramModel,
    m: Reading,
    rank: spec_fn(Name, Row) -> nat,
    r: RuleModel,
    theta: Map<Name, Val>,
) -> bool {
    &&& p.rules.contains(r)
    &&& body_holds(m, r.body, theta)
    &&& forall|j: int|
        0 <= j < r.body.len() && !(#[trigger] r.body[j]).negated && is_plain(p, r.body[j].rel)
            ==> rank(r.body[j].rel, grounded(r.body[j].args, theta)) < rank(
            r.head_rel,
            head_row(r, theta),
        )
}

/// Whether ranks show that every row of a relation that rules alone define is
/// derived, and none by way of itself.
pub open spec fn ranks(p: ProgramModel, m: Reading, rank: spec_fn(Name, Row) -> nat) -> bool {
    forall|rel: Name, row: Row| #[trigger]
        m(rel).contains(row) && is_plain(p, rel) ==> exists|r: RuleModel, theta: Map<Name, Val>|
            #[trigger]
            derives(p, m, rank, r, theta) && r.head_rel == rel && row == head_row(r, theta)
}

/// Whether a reading is a least model of a program: a model in which each row
/// that rules give has a derivation.
pub open spec fn is_least_model(p: ProgramModel, m: Reading) -> bool {
    &&& is_model(p, m)
    &&& exists|rank: spec_fn(Name, Row) -> nat| #[trigger] ranks(p, m, rank)
}

/// Whether two readings agree on what rules do not alone define, and on what
/// is negated.
pub open spec fn agree(p: ProgramModel, m: Reading, other: Reading) -> bool {
    &&& forall|rel: Name| !is_plain(p, rel) ==> #[trigger] m(rel) == other(rel)
    &&& forall|r: RuleModel, j: int|
        p.rules.contains(r) && 0 <= j < r.body.len() && (#[trigger] r.body[j]).negated ==> m(
            r.body[j].rel,
        ) == other(r.body[j].rel)
}

proof fn lemma_within(
    p: ProgramModel,
    m: Reading,
    rank: spec_fn(Name, Row) -> nat,
    other: Reading,
    rel: Name,
    row: Row,
)
    requires
        ranks(p, m, rank),
        is_model(p, other),
        agree(p, m, other),
        m(rel).contains(row),
    ensures
        other(rel).contains(row),
    decreases rank(rel, row),
{
    if is_plain(p, rel) {
        let (r, theta) = choose|r: RuleModel, theta: Map<Name, Val>| #[trigger]
            derives(p, m, rank, r, theta) && r.head_rel == rel && row == head_row(r, theta);
        assert forall|j: int| 0 <= j < r.body.len() implies literal_holds(
            other,
            #[trigger] r.body[j],
            theta,
        ) by {
            assert(literal_holds(m, r.body[j], theta));
            if !r.body[j].negated {
                let read = grounded(r.body[j].args, theta);
                if is_plain(p, r.body[j].rel) {
                    lemma_within(p, m, rank, other, r.body[j].rel, read);
                } else {
                    assert(m(r.body[j].rel) == other(r.body[j].rel));
                }
            }
        }
        assert(body_holds(other, r.body, theta));
        let k = choose|k: int| 0 <= k < p.rules.len() && p.rules[k] == r;
        assert(!aggregates(p.rules[k].aggr));
        assert(other(r.head_rel).contains(head_row(r, theta)));
    } else {
        assert(m(rel) == other(rel));
    }
}

/// A least model is least: every model that agrees with it on what rules do
/// not alone define, and on what is negated, has all its rows.
pub proof fn law_least_model_is_least(p: ProgramModel, m: Reading, other: Reading, rel: Name)
    requires
        is_least_model(p, m),
        is_model(p, other),
        agree(p, m, other),
    ensures
        m(rel).subset_of(other(rel)),
{
    let rank = choose|rank: spec_fn(Name, Row) -> nat| #[trigger] ranks(p, m, rank);
    assert forall|row: Row| m(rel).contains(row) implies #[trigger] other(rel).contains(row) by {
        lemma_within(p, m, rank, other, rel, row);
    }
}

} // verus!
