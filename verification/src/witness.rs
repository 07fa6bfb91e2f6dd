//! Witnesses of an evaluation, and the proofs rebuilt from them.

use vstd::prelude::*;
use crate::names::Name;
use crate::order::OrderedSet;
use crate::program::{stored_rows, Literal, LiteralModel, Rule, RuleModel};
use crate::proof_tree::{
    lemma_step_model, proved_rel, proved_row, rules_by_head, Proof, ProofModel, RulesByHead,
};
use crate::provenance::{is_instance, is_premise, is_valid_step, negates, proves};
use crate::unify::{all_bound, grounded};
use crate::value::{copy_row, same_row, Row, Tuple, Val};

verus! {

/// How a tuple came into a store: by which rule of the store's relation, from
/// which rows; nothing where it was not derived by a rule.
#[derive(Debug)]
pub struct Witness {
    pub store: String,
    pub tuple: Tuple,
    pub derivation: Option<(usize, Vec<Tuple>)>,
}

/// The model of a [`Witness`].
pub struct WitnessModel {
    pub store: Name,
    pub tuple: Row,
    pub derivation: Option<(usize, Seq<Row>)>,
}

impl DeepView for Witness {
    type V = WitnessModel;

    open spec fn deep_view(&self) -> WitnessModel {
        WitnessModel {
            store: self.store@,
            tuple: self.tuple.deep_view(),
            derivation: match self.derivation {
                None => None,
                Some(d) => Some((d.0, d.1.deep_view())),
            },
        }
    }
}

/// Whether a witness is one of a fact.
pub open spec fn is_of(w: WitnessModel, rel: Name, row: Row) -> bool {
    w.store == rel && w.tuple == row
}

/// The first witness of a fact from `i` on, the number of witnesses if there
/// is none.
pub open spec fn first_from(ws: Seq<WitnessModel>, rel: Name, row: Row, i: int) -> int
    decreases ws.len() - i,
{
    if 0 <= i < ws.len() && !is_of(ws[i], rel, row) {
        first_from(ws, rel, row, i + 1)
    } else {
        i
    }
}

/// The first witness of a fact: later ones do not count.
pub open spec fn first_witness(ws: Seq<WitnessModel>, rel: Name, row: Row) -> int {
    first_from(ws, rel, row, 0)
}

proof fn lemma_first_from(ws: Seq<WitnessModel>, rel: Name, row: Row, i: int)
    requires
        0 <= i <= ws.len(),
    ensures
        i <= first_from(ws, rel, row, i) <= ws.len(),
        first_from(ws, rel, row, i) < ws.len() ==> is_of(
            ws[first_from(ws, rel, row, i)],
            rel,
            row,
        ),
    decreases ws.len() - i,
{
    if i < ws.len() && !is_of(ws[i], rel, row) {
        lemma_first_from(ws, rel, row, i + 1);
    }
}

/// Find the first witness of a fact; the number of witnesses if there is
/// none.
pub fn index_witness(table: &Vec<Witness>, rel: &String, row: &Tuple) -> (r: usize)
    ensures
        r == first_witness(table.deep_view(), rel@, row.deep_view()),
        r <= table@.len(),
{
    let ghost ws = table.deep_view();
    proof {
        assert(ws.len() == table@.len());
    }
    let mut i: usize = 0;
    while i < table.len()
        invariant
            i <= table@.len(),
            ws == table.deep_view(),
            ws.len() == table@.len(),
            first_from(ws, rel@, row.deep_view(), i as int) == first_witness(
                ws,
                rel@,
                row.deep_view(),
            ),
        decreases table.len() - i,
    {
        proof {
            assert(ws[i as int] == table@[i as int].deep_view());
        }
        if table[i].store == *rel && same_row(&table[i].tuple, row) {
            return i;
        }
        i = i + 1;
    }
    i
}

/// The positive literals of a body.
pub open spec fn positives(body: Seq<LiteralModel>) -> Seq<LiteralModel> {
    body.filter(|l: LiteralModel| !l.negated)
}

/// The proof of a fact that the witnesses before `limit` give: that of a
/// relation that no rule defines is the fact itself.
pub open spec fn rebuilt(
    ws: Seq<WitnessModel>,
    rules: Map<Name, Seq<RuleModel>>,
    defined: Set<Name>,
    rel: Name,
    row: Row,
    limit: int,
) -> Option<ProofModel>
    decreases limit, 0nat, 0int,
{
    if !defined.contains(rel) {
        Some(ProofModel::Ground { rel, tuple: row })
    } else {
        let i = first_witness(ws, rel, row);
        if !(0 <= i < limit && i < ws.len()) {
            None
        } else {
            match ws[i].derivation {
                None => None,
                Some(d) => {
                    let lits = positives(rules[rel][d.0 as int].body);
                    if lits.len() != d.1.len() {
                        None
                    } else {
                        match all_rebuilt(ws, rules, defined, lits, d.1, i, lits.len() as int) {
                            None => None,
                            Some(premises) => Some(
                                ProofModel::Step { rel, tuple: row, rule_idx: d.0, premises },
                            ),
                        }
                    }
                },
            }
        }
    }
}

/// The proofs of the first `k` premises.
pub open spec fn all_rebuilt(
    ws: Seq<WitnessModel>,
    rules: Map<Name, Seq<RuleModel>>,
    defined: Set<Name>,
    lits: Seq<LiteralModel>,
    rows: Seq<Row>,
    limit: int,
    k: int,
) -> Option<Seq<ProofModel>>
    decreases limit, 1nat, k,
{
    if k <= 0 {
        Some(Seq::empty())
    } else {
        match (
            all_rebuilt(ws, rules, defined, lits, rows, limit, k - 1),
            rebuilt(ws, rules, defined, lits[k - 1].rel, rows[k - 1], limit),
        ) {
            (Some(front), Some(last)) => Some(front.push(last)),
            _ => None,
        }
    }
}

/// Whether the witnesses that count name rules that are there, and come after
/// the witnesses of their premises.
pub open spec fn in_order(
    ws: Seq<WitnessModel>,
    rules: Map<Name, Seq<RuleModel>>,
    defined: Set<Name>,
) -> bool {
    forall|i: int|
        #![trigger ws[i]]
        0 <= i < ws.len() && defined.contains(ws[i].store) && first_witness(
            ws,
            ws[i].store,
            ws[i].tuple,
        ) == i && ws[i].derivation is Some ==> comes_after(ws, rules, defined, i)
}

/// Whether a witness names a rule that is there, and comes after the
/// witnesses of its premises.
pub open spec fn comes_after(
    ws: Seq<WitnessModel>,
    rules: Map<Name, Seq<RuleModel>>,
    defined: Set<Name>,
    i: int,
) -> bool {
    let d = ws[i].derivation->Some_0;
    let lits = positives(rules[ws[i].store][d.0 as int].body);
    &&& rules.contains_key(ws[i].store)
    &&& d.0 < rules[ws[i].store].len()
    &&& lits.len() == d.1.len() ==> forall|j: int|
        0 <= j < lits.len() && defined.contains((#[trigger] lits[j]).rel) ==> {
            let at = first_witness(ws, lits[j].rel, d.1[j]);
            at < i || at == ws.len()
        }
}

/// The positive literals of a rule.
fn positive_literals(rule: &Rule) -> (r: Vec<Literal>)
    ensures
        r.deep_view() == positives(rule.deep_view().body),
{
    let ghost body = rule.deep_view().body;
    let ghost keep = |l: LiteralModel| !l.negated;
    let mut out: Vec<Literal> = Vec::new();
    let mut i: usize = 0;
    proof {
        reveal(Seq::filter);
        assert(out.deep_view() =~= body.take(0).filter(keep));
    }
    while i < rule.body.len()
        invariant
            i <= rule.body@.len(),
            body == rule.body.deep_view(),
            keep == (|l: LiteralModel| !l.negated),
            out.deep_view() == body.take(i as int).filter(keep),
        decreases rule.body.len() - i,
    {
        let ghost prev = out.deep_view();
        proof {
            reveal(Seq::filter);
            assert(body.take(i + 1).drop_last() =~= body.take(i as int));
            assert(body.take(i + 1).last() == rule.body@[i as int].deep_view());
        }
        if !rule.body[i].negated {
            out.push(rule.body[i].clone());
            proof {
                assert(out.deep_view() =~= prev.push(rule.body@[i as int].deep_view()));
            }
        }
        i = i + 1;
    }
    proof {
        assert(body.take(i as int) =~= body);
    }
    out
}

fn rebuild(
    rel: &String,
    row: &Tuple,
    table: &Vec<Witness>,
    rules: &RulesByHead,
    idb: &OrderedSet<String>,
    limit: usize,
) -> (r: Option<Proof>)
    requires
        rules.wf(),
        idb.wf(),
        limit <= table@.len(),
        in_order(table.deep_view(), rules_by_head(rules@), idb.deep_view()),
        idb.deep_view().contains(rel@) ==> {
            let at = first_witness(table.deep_view(), rel@, row.deep_view());
            at < limit || at == table@.len()
        },
    ensures
        match r {
            Some(p) => rebuilt(
                table.deep_view(),
                rules_by_head(rules@),
                idb.deep_view(),
                rel@,
                row.deep_view(),
                limit as int,
            ) == Some(p.deep_view()),
            None => rebuilt(
                table.deep_view(),
                rules_by_head(rules@),
                idb.deep_view(),
                rel@,
                row.deep_view(),
                limit as int,
            ) is None,
        },
    decreases limit,
{
    proof {
        broadcast use lemma_step_model;
    }
    let ghost ws = table.deep_view();
    let ghost model = rules_by_head(rules@);
    let ghost defined = idb.deep_view();
    proof {
        assert(ws.len() == table@.len());
    }
    if !idb.contains(rel) {
        return Some(Proof::Ground { rel: rel.clone(), tuple: copy_row(row) });
    }
    let i: usize = index_witness(table, rel, row);
    if i == table.len() {
        return None;
    }
    proof {
        lemma_first_from(ws, rel@, row.deep_view(), 0);
        assert(ws[i as int] == table@[i as int].deep_view());
        assert(is_of(ws[i as int], rel@, row.deep_view()));
    }
    let (rule_idx, rows) = match &table[i].derivation {
        Some(d) => (d.0, &d.1),
        None => {
            return None;
        },
    };
    proof {
        assert(comes_after(ws, model, defined, i as int));
    }
    let held = match rules.get(rel) {
        Some(held) => held,
        None => {
            return None;
        },
    };
    proof {
        assert(model[rel@] == held.deep_view());
        assert(model[rel@].len() == held@.len());
        assert(model[rel@][rule_idx as int] == held@[rule_idx as int].deep_view());
    }
    let lits = positive_literals(&held[rule_idx]);
    let ghost lm = lits.deep_view();
    let ghost rm = rows.deep_view();
    proof {
        assert(lm.len() == lits@.len());
        assert(rm.len() == rows@.len());
    }
    if lits.len() != rows.len() {
        return None;
    }
    let mut premises: Vec<Proof> = Vec::new();
    let mut k: usize = 0;
    proof {
        assert(premises.deep_view() =~= Seq::<ProofModel>::empty());
    }
    while k < lits.len()
        invariant
            k <= lits@.len(),
            lits@.len() == rows@.len(),
            lm == lits.deep_view(),
            rm == rows.deep_view(),
            lm.len() == lits@.len(),
            rm.len() == rows@.len(),
            rules.wf(),
            idb.wf(),
            i < limit <= table@.len(),
            ws == table.deep_view(),
            ws.len() == table@.len(),
            model == rules_by_head(rules@),
            defined == idb.deep_view(),
            in_order(ws, model, defined),
            forall|j: int|
                0 <= j < lm.len() && defined.contains((#[trigger] lm[j]).rel) ==> {
                    let at = first_witness(ws, lm[j].rel, rm[j]);
                    at < i || at == ws.len()
                },
            rebuilt(ws, model, defined, rel@, row.deep_view(), limit as int) == (match all_rebuilt(
                ws,
                model,
                defined,
                lm,
                rm,
                i as int,
                lm.len() as int,
            ) {
                None => None,
                Some(ps) => Some(
                    ProofModel::Step { rel: rel@, tuple: row.deep_view(), rule_idx, premises: ps },
                ),
            }),
            all_rebuilt(ws, model, defined, lm, rm, i as int, k as int) == Some(
                premises.deep_view(),
            ),
        decreases lits.len() - k,
    {
        proof {
            assert(lm[k as int] == lits@[k as int].deep_view());
            assert(rm[k as int] == rows@[k as int].deep_view());
        }
        match rebuild(&lits[k].rel, &rows[k], table, rules, idb, i) {
            Some(p) => {
                let ghost prev = premises.deep_view();
                let ghost m = p.deep_view();
                premises.push(p);
                proof {
                    assert(premises.deep_view() =~= prev.push(m));
                }
            },
            None => {
                proof {
                    lemma_none_rebuilt(
                        ws,
                        model,
                        defined,
                        lm,
                        rm,
                        i as int,
                        k + 1,
                        lm.len() as int,
                    );
                }
                return None;
            },
        }
        k = k + 1;
    }
    Some(Proof::Step { rel: rel.clone(), tuple: copy_row(row), rule_idx, premises })
}

proof fn lemma_none_rebuilt(
    ws: Seq<WitnessModel>,
    rules: Map<Name, Seq<RuleModel>>,
    defined: Set<Name>,
    lits: Seq<LiteralModel>,
    rows: Seq<Row>,
    limit: int,
    j: int,
    k: int,
)
    requires
        0 <= j <= k,
        all_rebuilt(ws, rules, defined, lits, rows, limit, j) is None,
    ensures
        all_rebuilt(ws, rules, defined, lits, rows, limit, k) is None,
    decreases k,
{
    if j < k {
        lemma_none_rebuilt(ws, rules, defined, lits, rows, limit, j, k - 1);
    }
}

/// Rebuild the proof of a fact from the witnesses of an evaluation. There is
/// none where a fact has no witness, or one that no rule derived.
pub fn reconstruct(
    rel: &String,
    row: &Tuple,
    table: &Vec<Witness>,
    rules: &RulesByHead,
    idb: &OrderedSet<String>,
) -> (r: Option<Proof>)
    requires
        rules.wf(),
        idb.wf(),
        in_order(table.deep_view(), rules_by_head(rules@), idb.deep_view()),
    ensures
        match r {
            Some(p) => rebuilt(
                table.deep_view(),
                rules_by_head(rules@),
                idb.deep_view(),
                rel@,
                row.deep_view(),
                table@.len() as int,
            ) == Some(p.deep_view()),
            None => rebuilt(
                table.deep_view(),
                rules_by_head(rules@),
                idb.deep_view(),
                rel@,
                row.deep_view(),
                table@.len() as int,
            ) is None,
        },
{
    proof {
        assert(table.deep_view().len() == table@.len());
        lemma_first_from(table.deep_view(), rel@, row.deep_view(), 0);
    }
    rebuild(rel, row, table, rules, idb, table.len())
}

/// Whether a witness is an honest one: its rule does not negate, and under
/// some values of the variables gives its tuple from its rows; those of
/// relations that no rule defines are stored.
pub open spec fn is_honest(
    w: WitnessModel,
    rules: Map<Name, Seq<RuleModel>>,
    defined: Set<Name>,
    facts: Map<Name, Set<Row>>,
) -> bool {
    let d = w.derivation->Some_0;
    let rule = rules[w.store][d.0 as int];
    &&& rules.contains_key(w.store)
    &&& d.0 < rules[w.store].len()
    &&& rule.head_rel == w.store
    &&& !negates(rule.body)
    &&& rule.body.len() == d.1.len()
    &&& exists|theta: Map<Name, Val>| #[trigger] gives(rule, w.tuple, d.1, theta)
    &&& forall|j: int|
        0 <= j < rule.body.len() && !defined.contains((#[trigger] rule.body[j]).rel)
            ==> stored_rows(facts, rule.body[j].rel).contains(d.1[j])
}

/// Whether a rule gives a row from rows, under values of its variables.
pub open spec fn gives(rule: RuleModel, tuple: Row, rows: Seq<Row>, theta: Map<Name, Val>) -> bool {
    &&& all_bound(rule.head_args, theta)
    &&& grounded(rule.head_args, theta) == tuple
    &&& forall|j: int|
        0 <= j < rule.body.len() ==> all_bound((#[trigger] rule.body[j]).args, theta) && rows[j]
            == grounded(rule.body[j].args, theta)
}

/// Whether the witnesses of derived facts are honest ones.
pub open spec fn all_honest(
    ws: Seq<WitnessModel>,
    rules: Map<Name, Seq<RuleModel>>,
    defined: Set<Name>,
    facts: Map<Name, Set<Row>>,
) -> bool {
    forall|i: int|
        0 <= i < ws.len() && defined.contains((#[trigger] ws[i]).store) && ws[i].derivation is Some
            ==> is_honest(ws[i], rules, defined, facts)
}

/// From honest witnesses only proofs are rebuilt, each of the fact that was
/// asked for.
pub proof fn law_honest_witnesses_give_proofs(
    ws: Seq<WitnessModel>,
    rules: Map<Name, Seq<RuleModel>>,
    defined: Set<Name>,
    facts: Map<Name, Set<Row>>,
    rel: Name,
    row: Row,
    limit: int,
)
    requires
        all_honest(ws, rules, defined, facts),
        defined.contains(rel) || stored_rows(facts, rel).contains(row),
    ensures
        rebuilt(ws, rules, defined, rel, row, limit) matches Some(p) ==> {
            &&& proves(p, rules, facts)
            &&& proved_rel(p) == rel
            &&& proved_row(p) == row
        },
    decreases limit, 0nat, 0int,
{
    if defined.contains(rel) && rebuilt(ws, rules, defined, rel, row, limit) is Some {
        let p = rebuilt(ws, rules, defined, rel, row, limit)->Some_0;
        let i = first_witness(ws, rel, row);
        lemma_first_from(ws, rel, row, 0);
        assert(is_of(ws[i], rel, row));
        assert(is_honest(ws[i], rules, defined, facts));
        let d = ws[i].derivation->Some_0;
        let rule = rules[rel][d.0 as int];
        let lits = positives(rule.body);
        lemma_positives_all(rule.body);
        let premises = all_rebuilt(ws, rules, defined, lits, d.1, i, lits.len() as int)->Some_0;
        let theta = choose|theta: Map<Name, Val>| #[trigger] gives(rule, row, d.1, theta);
        assert forall|j: int| 0 <= j < lits.len() implies defined.contains((#[trigger] lits[j]).rel)
            || stored_rows(facts, lits[j].rel).contains(d.1[j]) by {
            assert(rule.body[j] == lits[j]);
        }
        lemma_all_rebuilt(ws, rules, defined, facts, lits, d.1, i, lits.len() as int);
        assert forall|j: int| 0 <= j < premises.len() implies #[trigger] is_premise(
            rule.body[j],
            premises[j],
            theta,
        ) by {
            assert(proves(premises[j], rules, facts));
            assert(all_bound(rule.body[j].args, theta));
        }
        assert(is_instance(rule, row, premises, theta));
        assert(is_valid_step(rel, row, d.0, premises, rules));
    }
}

proof fn lemma_all_rebuilt(
    ws: Seq<WitnessModel>,
    rules: Map<Name, Seq<RuleModel>>,
    defined: Set<Name>,
    facts: Map<Name, Set<Row>>,
    lits: Seq<LiteralModel>,
    rows: Seq<Row>,
    limit: int,
    k: int,
)
    requires
        0 <= k <= lits.len(),
        0 <= limit,
        lits.len() == rows.len(),
        all_honest(ws, rules, defined, facts),
        forall|j: int|
            0 <= j < lits.len() ==> defined.contains((#[trigger] lits[j]).rel) || stored_rows(
                facts,
                lits[j].rel,
            ).contains(rows[j]),
    ensures
        all_rebuilt(ws, rules, defined, lits, rows, limit, k) matches Some(ps) ==> {
            &&& ps.len() == k
            &&& forall|j: int|
                0 <= j < k ==> {
                    &&& proves(#[trigger] ps[j], rules, facts)
                    &&& proved_rel(ps[j]) == lits[j].rel
                    &&& proved_row(ps[j]) == rows[j]
                }
        },
    decreases limit, 1nat, k,
{
    if k > 0 {
        lemma_all_rebuilt(ws, rules, defined, facts, lits, rows, limit, k - 1);
        assert(defined.contains(lits[k - 1].rel) || stored_rows(facts, lits[k - 1].rel).contains(
            rows[k - 1],
        ));
        law_honest_witnesses_give_proofs(
            ws,
            rules,
            defined,
            facts,
            lits[k - 1].rel,
            rows[k - 1],
            limit,
        );
    }
}

/// Without negation every literal is a positive one.
proof fn lemma_positives_all(body: Seq<LiteralModel>)
    requires
        !negates(body),
    ensures
        positives(body) == body,
    decreases body.len(),
{
    reveal(Seq::filter);
    if body.len() > 0 {
        let less = body.drop_last();
        assert forall|j: int| 0 <= j < less.len() implies !(#[trigger] less[j]).negated by {
            assert(body[j] == less[j]);
        }
        lemma_positives_all(less);
        assert(!body[body.len() - 1].negated);
        assert(body =~= less.push(body.last()));
    } else {
        assert(positives(body) =~= body);
    }
}

} // verus!
