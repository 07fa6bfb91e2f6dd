//! The width of each relation, as a program uses it.

use vstd::prelude::*;
use crate::names::Name;
use crate::order::{lemma_map_of_at, lemma_sorted_no_duplicates, OrderedMap, OrderedSet};
use crate::program::{is_fixed, Program, ProgramModel, RuleModel};
use crate::value::{lemma_rows_sorted, row_before, Row, Tuple};

verus! {

/// The first row of a set, in tuple order.
pub open spec fn is_first(rows: Set<Row>, row: Row) -> bool {
    rows.contains(row) && forall|other: Row| #[trigger]
        rows.contains(other) ==> other == row || row_before(row, other)
}

/// Whether a rule's head has a width.
pub open spec fn head_at(p: ProgramModel, i: int, rel: Name, n: nat) -> bool {
    0 <= i < p.rules.len() && p.rules[i].head_rel == rel && p.rules[i].head_args.len() == n
}

/// Whether a literal has a width.
pub open spec fn literal_at(r: RuleModel, j: int, rel: Name, n: nat) -> bool {
    0 <= j < r.body.len() && r.body[j].rel == rel && r.body[j].args.len() == n
}

/// Whether a rule uses a relation at a width.
pub open spec fn rule_uses(p: ProgramModel, i: int, rel: Name, n: nat) -> bool {
    ||| head_at(p, i, rel, n)
    ||| 0 <= i < p.rules.len() && exists|j: int| #[trigger] literal_at(p.rules[i], j, rel, n)
}

/// Whether the first stored row of a relation has a width.
pub open spec fn stored_at(facts: Map<Name, Set<Row>>, rel: Name, n: nat) -> bool {
    facts.contains_key(rel) && exists|row: Row| #[trigger]
        is_first(facts[rel], row) && row.len() == n
}

/// Whether a program uses a relation at a width.
pub open spec fn used_at(p: ProgramModel, rel: Name, n: nat) -> bool {
    ||| exists|i: int| #[trigger] rule_uses(p, i, rel, n)
    ||| stored_at(p.facts, rel, n)
}

/// Whether a program uses every relation at one width.
pub open spec fn one_width(p: ProgramModel) -> bool {
    forall|rel: Name, a: nat, b: nat| #[trigger]
        used_at(p, rel, a) && #[trigger] used_at(p, rel, b) ==> a == b
}

/// Note the width of a relation.
fn note(arities: &mut OrderedMap<String, usize>, rel: &String, n: usize, Ghost(p): Ghost<ProgramModel>)
    requires
        old(arities).wf(),
        one_width(p),
        used_at(p, rel@, n as nat),
        forall|x: Name| #[trigger]
            old(arities)@.contains_key(x) ==> used_at(p, x, old(arities)@[x] as nat),
    ensures
        final(arities).wf(),
        final(arities)@ == old(arities)@.insert(rel@, n),
        old(arities)@.contains_key(rel@) ==> old(arities)@[rel@] == n,
{
    proof {
        if arities@.contains_key(rel@) {
            assert(used_at(p, rel@, arities@[rel@] as nat));
            assert(arities@.insert(rel@, n) =~= arities@);
        }
    }
    if !arities.contains_key(rel) {
        arities.insert(rel.clone(), n);
    }
}

proof fn lemma_first_item(s: OrderedSet<Tuple>)
    requires
        s.wf(),
    ensures
        s.items@.len() > 0 ==> is_first(s.deep_view(), s.items@[0].deep_view()),
        forall|row: Row| #[trigger]
            is_first(s.deep_view(), row) ==> s.items@.len() > 0 && row == s.items@[0].deep_view(),
{
    let rows = s.items.deep_view();
    lemma_rows_sorted(rows);
    if s.items@.len() > 0 {
        assert(rows[0] == s.items@[0].deep_view());
        assert(rows.contains(rows[0]));
        assert forall|other: Row| #[trigger] s.deep_view().contains(other) implies other == rows[0]
            || row_before(rows[0], other) by {
            let k = choose|k: int| 0 <= k < rows.len() && rows[k] == other;
            if k > 0 {
                assert(row_before(rows[0], rows[k]));
            }
        }
        assert forall|row: Row| #[trigger] is_first(s.deep_view(), row) implies row == rows[0] by {
            assert(s.deep_view().contains(rows[0]));
            if row != rows[0] {
                assert(row_before(row, rows[0]));
                assert(s.deep_view().contains(row));
                assert(row_before(rows[0], row));
                crate::value::lemma_row_transitive(row, rows[0], row);
                crate::value::lemma_row_irreflexive(row);
            }
        }
    }
}

/// The width of each relation that a program uses, from its rules and its
/// stored rows.
pub fn model_arities(program: &Program) -> (r: OrderedMap<String, usize>)
    requires
        program.wf(),
        one_width(program.deep_view()),
    ensures
        r.wf(),
        forall|rel: Name| #[trigger]
            r@.contains_key(rel) ==> used_at(program.deep_view(), rel, r@[rel] as nat),
        forall|rel: Name, n: nat| #[trigger]
            used_at(program.deep_view(), rel, n) ==> r@.contains_key(rel) && r@[rel] == n,
{
    let ghost p = program.deep_view();
    let mut out: OrderedMap<String, usize> = OrderedMap::new();
    let mut i: usize = 0;
    while i < program.rules.len()
        invariant
            i <= program.rules@.len(),
            p == program.deep_view(),
            one_width(p),
            out.wf(),
            forall|rel: Name| #[trigger]
                out@.contains_key(rel) ==> used_at(p, rel, out@[rel] as nat),
            forall|k: int, rel: Name, n: nat|
                0 <= k < i && #[trigger] rule_uses(p, k, rel, n) ==> out@.contains_key(rel)
                    && out@[rel] == n,
        decreases program.rules.len() - i,
    {
        let rule = &program.rules[i];
        let ghost m = p.rules[i as int];
        proof {
            assert(m == rule.deep_view());
            assert(rule_uses(p, i as int, rule.head_rel@, rule.head_args@.len()));
        }
        note(&mut out, &rule.head_rel, rule.head_args.len(), Ghost(p));
        let mut j: usize = 0;
        while j < rule.body.len()
            invariant
                i < program.rules@.len(),
                j <= rule.body@.len(),
                p == program.deep_view(),
                *rule == program.rules@[i as int],
                m == rule.deep_view(),
                m == p.rules[i as int],
                one_width(p),
                out.wf(),
                forall|rel: Name| #[trigger]
                    out@.contains_key(rel) ==> used_at(p, rel, out@[rel] as nat),
                forall|k: int, rel: Name, n: nat|
                    0 <= k < i && #[trigger] rule_uses(p, k, rel, n) ==> out@.contains_key(rel)
                        && out@[rel] == n,
                out@.contains_key(m.head_rel) && out@[m.head_rel] == m.head_args.len(),
                forall|k: int, rel: Name, n: nat|
                    0 <= k < j && #[trigger] literal_at(m, k, rel, n) ==> out@.contains_key(rel)
                        && out@[rel] == n,
            decreases rule.body.len() - j,
        {
            let l = &rule.body[j];
            proof {
                assert(m.body[j as int] == l.deep_view());
                assert(literal_at(m, j as int, l.rel@, l.args@.len()));
                assert(rule_uses(p, i as int, l.rel@, l.args@.len()));
            }
            note(&mut out, &l.rel, l.args.len(), Ghost(p));
            j = j + 1;
        }
        i = i + 1;
    }
    let mut f: usize = 0;
    let total: usize = program.facts.len();
    let ghost keys = program.facts.keys.deep_view();
    proof {
        lemma_sorted_no_duplicates::<String>(keys);
    }
    while f < total
        invariant
            f <= total,
            i == program.rules@.len(),
            total == program.facts.keys@.len(),
            keys == program.facts.keys.deep_view(),
            keys.no_duplicates(),
            p == program.deep_view(),
            program.wf(),
            one_width(p),
            out.wf(),
            forall|rel: Name| #[trigger]
                out@.contains_key(rel) ==> used_at(p, rel, out@[rel] as nat),
            forall|k: int, rel: Name, n: nat|
                0 <= k < i && #[trigger] rule_uses(p, k, rel, n) ==> out@.contains_key(rel)
                    && out@[rel] == n,
            forall|k: int, n: nat|
                0 <= k < f && #[trigger] stored_at(p.facts, keys[k], n) ==> out@.contains_key(
                    keys[k],
                ) && out@[keys[k]] == n,
        decreases total - f,
    {
        let rel = &program.facts.keys[f];
        let rows = &program.facts.vals[f];
        proof {
            lemma_map_of_at(keys, program.facts.vals@, f as int);
            assert(keys[f as int] == rel@);
            assert(program.facts@.contains_key(rel@));
            lemma_first_item(*rows);
            assert(p.facts[rel@] == rows.deep_view());
        }
        if rows.items.len() > 0 {
            proof {
                assert(rows.items@[0].deep_view().len() == rows.items@[0]@.len());
                assert(stored_at(p.facts, rel@, rows.items@[0]@.len()));
            }
            note(&mut out, rel, rows.items[0].len(), Ghost(p));
        }
        proof {
            assert forall|k: int, n: nat|
                0 <= k < f + 1 && #[trigger] stored_at(p.facts, keys[k], n) implies
                out@.contains_key(keys[k]) && out@[keys[k]] == n by {
                if k == f {
                    let row = choose|row: Row| #[trigger]
                        is_first(p.facts[rel@], row) && row.len() == n;
                    assert(row == rows.items@[0].deep_view());
                }
            }
        }
        f = f + 1;
    }
    proof {
        assert forall|rel: Name, n: nat| #[trigger] used_at(p, rel, n) implies out@.contains_key(
            rel,
        ) && out@[rel] == n by {
            if stored_at(p.facts, rel, n) {
                assert(keys.contains(rel));
                let k = keys.index_of(rel);
                assert(stored_at(p.facts, keys[k], n));
            } else {
                let k = choose|k: int| #[trigger] rule_uses(p, k, rel, n);
                assert(0 <= k < i);
            }
        }
    }
    out
}

/// The widths of the relations that fixed rules define.
pub fn fixed_arities_of(program: &Program, arities: &OrderedMap<String, usize>) -> (r: OrderedMap<
    String,
    usize,
>)
    requires
        arities.wf(),
        forall|rel: Name|
            is_fixed(program.deep_view(), rel) ==> #[trigger] arities@.contains_key(rel),
    ensures
        r.wf(),
        forall|rel: Name| #[trigger]
            r@.contains_key(rel) == is_fixed(program.deep_view(), rel),
        forall|rel: Name| #[trigger] r@.contains_key(rel) ==> r@[rel] == arities@[rel],
{
    let ghost p = program.deep_view();
    let mut out: OrderedMap<String, usize> = OrderedMap::new();
    let mut i: usize = 0;
    while i < program.fixed.len()
        invariant
            i <= program.fixed@.len(),
            p == program.deep_view(),
            arities.wf(),
            forall|rel: Name| is_fixed(p, rel) ==> #[trigger] arities@.contains_key(rel),
            out.wf(),
            forall|rel: Name| #[trigger]
                out@.contains_key(rel) == exists|j: int|
                    0 <= j < i && (#[trigger] p.fixed[j]).head_rel == rel,
            forall|rel: Name| #[trigger] out@.contains_key(rel) ==> out@[rel] == arities@[rel],
        decreases program.fixed.len() - i,
    {
        let head = &program.fixed[i].head_rel;
        proof {
            assert(p.fixed[i as int].head_rel == head@);
            assert(is_fixed(p, head@));
        }
        match arities.get(head) {
            Some(n) => {
                out.insert(head.clone(), *n);
            },
            None => {},
        }
        i = i + 1;
    }
    out
}

} // verus!
