//! What the relations of a drawn program are in its least models: walks along
//! its edges.

use vstd::prelude::*;
use crate::aggr::Aggregation;
use crate::depend::{aggregates, has_aggr};
use crate::drawn_facts::{law_drawn_edges, law_drawn_items, law_drawn_nodes, lemma_fact_names};
use crate::fixed::{computed, endpoints};
use crate::gen_rules::{
    asks, drawn_fixed, drawn_program, drawn_rules, folded, interleaved_rules, join_rules,
    meet_rules, mutual_rules, pair, path_rules, reader_rules, rule, v,
};
use crate::generate::{params_at, GenParams};
use crate::least::{
    body_holds, derives, gives_row, head_row, is_least_model, is_model, is_plain, literal_holds,
    ranks, Reading,
};
use crate::names::Name;
use crate::program::{
    is_defined, is_fixed, stored_rows, unaggregated, LiteralModel, ProgramModel, RuleModel,
};
use crate::reach::{goes, is_walk, leads, link_row, Link};
use crate::unify::grounded;
use crate::value::{Row, Val};

verus! {

/// The edges that a program stores.
pub open spec fn stored_edges(p: ProgramModel) -> Set<Link> {
    Set::new(|l: Link| stored_rows(p.facts, "edge"@).contains(link_row(l)))
}

/// Whether a walk of a number of edges leads from one place to another.
pub open spec fn leads_in(edges: Set<Link>, l: Link, n: nat) -> bool {
    exists|w: Seq<i64>| #[trigger]
        is_walk(edges, w) && w.len() == n + 1 && w[0] == l.from && w.last() == l.to
}

proof fn lemma_leads_in(edges: Set<Link>, l: Link)
    ensures
        leads(edges, l) <==> exists|n: nat| n >= 1 && #[trigger] leads_in(edges, l, n),
{
    if leads(edges, l) {
        let w = choose|w: Seq<i64>| #[trigger]
            is_walk(edges, w) && w[0] == l.from && w.last() == l.to;
        assert(leads_in(edges, l, (w.len() - 1) as nat));
    }
    if exists|n: nat| n >= 1 && #[trigger] leads_in(edges, l, n) {
        let n = choose|n: nat| n >= 1 && #[trigger] leads_in(edges, l, n);
        let w = choose|w: Seq<i64>| #[trigger]
            is_walk(edges, w) && w.len() == n + 1 && w[0] == l.from && w.last() == l.to;
        assert(is_walk(edges, w));
    }
}

proof fn lemma_edge_leads(edges: Set<Link>, l: Link)
    ensures
        leads_in(edges, l, 1) <==> edges.contains(l),
{
    if edges.contains(l) {
        let w = seq![l.from, l.to];
        assert forall|i: int| 0 <= i < w.len() - 1 implies #[trigger] goes(edges, w, i) by {
            assert(i == 0);
        }
        assert(is_walk(edges, w));
    }
    if leads_in(edges, l, 1) {
        let w = choose|w: Seq<i64>| #[trigger]
            is_walk(edges, w) && w.len() == 2 && w[0] == l.from && w.last() == l.to;
        assert(goes(edges, w, 0));
    }
}

proof fn lemma_joined_leads(edges: Set<Link>, a: i64, b: i64, c: i64, n: nat, k: nat)
    requires
        leads_in(edges, Link { from: a, to: b }, n),
        leads_in(edges, Link { from: b, to: c }, k),
    ensures
        leads_in(edges, Link { from: a, to: c }, n + k),
{
    let u = choose|w: Seq<i64>| #[trigger]
        is_walk(edges, w) && w.len() == n + 1 && w[0] == a && w.last() == b;
    let t = choose|w: Seq<i64>| #[trigger]
        is_walk(edges, w) && w.len() == k + 1 && w[0] == b && w.last() == c;
    let w = u + t.drop_first();
    assert forall|i: int| 0 <= i < w.len() - 1 implies #[trigger] goes(edges, w, i) by {
        if i < u.len() - 1 {
            assert(goes(edges, u, i));
            assert(w[i] == u[i] && w[i + 1] == u[i + 1]);
        } else {
            let j = i - (u.len() - 1);
            assert(goes(edges, t, j));
            assert(w[i] == t[j]);
            assert(w[i + 1] == t[j + 1]);
        }
    }
    assert(w.last() == t.last());
    assert(is_walk(edges, w));
}

/// A walk parts at each of its places.
proof fn lemma_parted_leads(edges: Set<Link>, l: Link, n: nat, k: nat) -> (mid: i64)
    requires
        leads_in(edges, l, n),
        1 <= k < n,
    ensures
        leads_in(edges, Link { from: l.from, to: mid }, k),
        leads_in(edges, Link { from: mid, to: l.to }, (n - k) as nat),
{
    let w = choose|w: Seq<i64>| #[trigger]
        is_walk(edges, w) && w.len() == n + 1 && w[0] == l.from && w.last() == l.to;
    let u = w.take(k as int + 1);
    let t = w.skip(k as int);
    assert forall|i: int| 0 <= i < u.len() - 1 implies #[trigger] goes(edges, u, i) by {
        assert(goes(edges, w, i));
    }
    assert forall|i: int| 0 <= i < t.len() - 1 implies #[trigger] goes(edges, t, i) by {
        assert(goes(edges, w, i + k));
    }
    assert(is_walk(edges, u));
    assert(is_walk(edges, t));
    w[k as int]
}

/// Whether a program is drawn from parameters.
pub open spec fn is_drawn(p: ProgramModel, g: GenParams) -> bool {
    &&& p.rules == drawn_rules(g)
    &&& p.fixed == drawn_fixed(g)
    &&& forall|row: Row| #[trigger]
        stored_rows(p.facts, "edge"@).contains(row) ==> exists|l: Link| row == #[trigger] link_row(l)
}

proof fn lemma_is_drawn(seed: u64)
    ensures
        is_drawn(drawn_program(seed), params_at(seed)),
{
    law_drawn_edges(seed);
    let p = drawn_program(seed);
    assert forall|row: Row| #[trigger] stored_rows(p.facts, "edge"@).contains(row) implies exists|
        l: Link,
    | row == #[trigger] link_row(l) by {
        let l = choose|l: Link|
            row == #[trigger] link_row(l) && 0 <= l.from < params_at(seed).n_nodes && 0 <= l.to
                < params_at(seed).n_nodes;
        assert(row == link_row(l));
    }
}

/// The names of the relations that rules define, and of the variables, by
/// their first letters.
proof fn lemma_names()
    ensures
        "path"@.len() == 4 && "path"@[0] == 'p' && "path"@[1] == 'a',
        "qa"@.len() == 2 && "qa"@[0] == 'q' && "qa"@[1] == 'a',
        "qb"@.len() == 2 && "qb"@[0] == 'q' && "qb"@[1] == 'b',
        "pj"@.len() == 2 && "pj"@[0] == 'p' && "pj"@[1] == 'j',
        "j"@.len() == 1 && "j"@[0] == 'j',
        "m"@.len() == 1 && "m"@[0] == 'm',
        "mi"@.len() == 2 && "mi"@[0] == 'm' && "mi"@[1] == 'i',
        "out"@.len() == 3,
        "unreachable"@.len() == 11 && "unreachable"@[0] == 'u',
        "reach_count"@.len() == 11 && "reach_count"@[0] == 'r',
        "bulk_sum"@.len() == 8,
        "fx"@.len() == 2 && "fx"@[0] == 'f' && "fx"@[1] == 'x',
        "fr"@.len() == 2 && "fr"@[0] == 'f' && "fr"@[1] == 'r',
        "X"@.len() == 1 && "X"@[0] == 'X',
        "Y"@.len() == 1 && "Y"@[0] == 'Y',
        "Z"@.len() == 1 && "Z"@[0] == 'Z',
{
    reveal_strlit("path");
    reveal_strlit("qa");
    reveal_strlit("qb");
    reveal_strlit("pj");
    reveal_strlit("j");
    reveal_strlit("m");
    reveal_strlit("mi");
    reveal_strlit("out");
    reveal_strlit("unreachable");
    reveal_strlit("reach_count");
    reveal_strlit("bulk_sum");
    reveal_strlit("fx");
    reveal_strlit("fr");
    reveal_strlit("X");
    reveal_strlit("Y");
    reveal_strlit("Z");
}

proof fn lemma_drawn_parts(p: GenParams, r: RuleModel)
    ensures
        drawn_rules(p).contains(r) <==> path_rules(p).contains(r) || meet_rules(p).contains(r)
            || interleaved_rules(p).contains(r) || mutual_rules(p).contains(r) || join_rules(
            p,
        ).contains(r) || reader_rules(p).contains(r),
{
    broadcast use vstd::seq_lib::lemma_seq_concat_contains_all_elements;

}

/// The relations that rules define.
spec fn is_head(n: Name) -> bool {
    n == "path"@ || n == "m"@ || n == "mi"@ || n == "qa"@ || n == "qb"@ || n == "pj"@ || n == "j"@
        || n == "out"@ || n == "unreachable"@ || n == "reach_count"@ || n == "bulk_sum"@ || n
        == "fr"@
}

proof fn lemma_heads(p: GenParams, r: RuleModel)
    requires
        drawn_rules(p).contains(r),
    ensures
        is_head(r.head_rel),
        path_rules(p).contains(r) <==> r.head_rel == "path"@,
        mutual_rules(p).contains(r) <==> r.head_rel == "qa"@ || r.head_rel == "qb"@,
        join_rules(p).contains(r) <==> r.head_rel == "pj"@ || r.head_rel == "j"@,
        meet_rules(p).contains(r) <==> r.head_rel == "m"@,
        interleaved_rules(p).contains(r) <==> r.head_rel == "mi"@,
        reader_rules(p).contains(r) <==> r.head_rel == "out"@ || r.head_rel == "unreachable"@
            || r.head_rel == "reach_count"@ || r.head_rel == "bulk_sum"@ || r.head_rel == "fr"@,
{
    lemma_drawn_parts(p, r);
    lemma_names();
    lemma_part_heads(p, r);
}

proof fn lemma_part_heads(p: GenParams, r: RuleModel)
    ensures
        path_rules(p).contains(r) ==> r.head_rel == "path"@,
        mutual_rules(p).contains(r) ==> r.head_rel == "qa"@ || r.head_rel == "qb"@,
        join_rules(p).contains(r) ==> r.head_rel == "pj"@ || r.head_rel == "j"@,
        meet_rules(p).contains(r) ==> r.head_rel == "m"@,
        interleaved_rules(p).contains(r) ==> r.head_rel == "mi"@,
        reader_rules(p).contains(r) ==> r.head_rel == "out"@ || r.head_rel == "unreachable"@
            || r.head_rel == "reach_count"@ || r.head_rel == "bulk_sum"@ || r.head_rel == "fr"@,
{
}

/// Two values of variables.
spec fn two(a: Val, b: Val) -> Map<Name, Val> {
    Map::empty().insert("X"@, a).insert("Y"@, b)
}

/// Three values of variables.
spec fn three(a: Val, b: Val, c: Val) -> Map<Name, Val> {
    two(a, b).insert("Z"@, c)
}

proof fn lemma_pair_row(a: Name, b: Name, theta: Map<Name, Val>)
    ensures
        grounded(seq![v(a), v(b)], theta) == seq![theta[a], theta[b]],
{
    assert(grounded(seq![v(a), v(b)], theta) =~= seq![theta[a], theta[b]]);
}

proof fn lemma_one_row(a: Name, theta: Map<Name, Val>)
    ensures
        grounded(seq![v(a)], theta) == seq![theta[a]],
{
    assert(grounded(seq![v(a)], theta) =~= seq![theta[a]]);
}

/// A rule with one pair in its body fires on each such pair.
proof fn lemma_fires_on_one(p: ProgramModel, m: Reading, head: Name, from: Name, a: Val, b: Val)
    requires
        is_model(p, m),
        p.rules.contains(rule(head, "X"@, "Y"@, seq![pair(from, "X"@, "Y"@)])),
        m(from).contains(seq![a, b]),
    ensures
        m(head).contains(seq![a, b]),
{
    lemma_names();
    let r = rule(head, "X"@, "Y"@, seq![pair(from, "X"@, "Y"@)]);
    let theta = two(a, b);
    lemma_pair_row("X"@, "Y"@, theta);
    assert(theta["X"@] == a && theta["Y"@] == b);
    assert(literal_holds(m, r.body[0], theta));
    assert(body_holds(m, r.body, theta));
    assert(m(r.head_rel).contains(head_row(r, theta)));
}

/// A rule that joins two pairs fires on each two that meet.
proof fn lemma_fires_on_two(
    p: ProgramModel,
    m: Reading,
    head: Name,
    one: Name,
    other: Name,
    a: Val,
    b: Val,
    c: Val,
)
    requires
        is_model(p, m),
        p.rules.contains(
            rule(head, "X"@, "Z"@, seq![pair(one, "X"@, "Y"@), pair(other, "Y"@, "Z"@)]),
        ),
        m(one).contains(seq![a, b]),
        m(other).contains(seq![b, c]),
    ensures
        m(head).contains(seq![a, c]),
{
    lemma_names();
    let r = rule(head, "X"@, "Z"@, seq![pair(one, "X"@, "Y"@), pair(other, "Y"@, "Z"@)]);
    let theta = three(a, b, c);
    lemma_pair_row("X"@, "Y"@, theta);
    lemma_pair_row("Y"@, "Z"@, theta);
    lemma_pair_row("X"@, "Z"@, theta);
    assert(theta["X"@] == a && theta["Y"@] == b && theta["Z"@] == c);
    assert(literal_holds(m, r.body[0], theta));
    assert(literal_holds(m, r.body[1], theta));
    assert(body_holds(m, r.body, theta));
    assert(m(r.head_rel).contains(head_row(r, theta)));
}

/// Where a rule with one pair in its body fires, the pair is there.
proof fn lemma_fired_on_one(
    p: ProgramModel,
    m: Reading,
    rank: spec_fn(Name, Row) -> nat,
    theta: Map<Name, Val>,
    head: Name,
    from: Name,
)
    requires
        derives(p, m, rank, rule(head, "X"@, "Y"@, seq![pair(from, "X"@, "Y"@)]), theta),
    ensures
        head_row(rule(head, "X"@, "Y"@, seq![pair(from, "X"@, "Y"@)]), theta) == seq![
            theta["X"@],
            theta["Y"@],
        ],
        m(from).contains(seq![theta["X"@], theta["Y"@]]),
{
    let r = rule(head, "X"@, "Y"@, seq![pair(from, "X"@, "Y"@)]);
    lemma_pair_row("X"@, "Y"@, theta);
    assert(literal_holds(m, r.body[0], theta));
}

/// Where a rule that joins two pairs fires, they are there, and of lower
/// rank.
proof fn lemma_fired_on_two(
    p: ProgramModel,
    m: Reading,
    rank: spec_fn(Name, Row) -> nat,
    theta: Map<Name, Val>,
    head: Name,
    one: Name,
    other: Name,
)
    requires
        derives(
            p,
            m,
            rank,
            rule(head, "X"@, "Z"@, seq![pair(one, "X"@, "Y"@), pair(other, "Y"@, "Z"@)]),
            theta,
        ),
    ensures
        head_row(
            rule(head, "X"@, "Z"@, seq![pair(one, "X"@, "Y"@), pair(other, "Y"@, "Z"@)]),
            theta,
        ) == seq![theta["X"@], theta["Z"@]],
        m(one).contains(seq![theta["X"@], theta["Y"@]]),
        m(other).contains(seq![theta["Y"@], theta["Z"@]]),
        is_plain(p, one) ==> rank(one, seq![theta["X"@], theta["Y"@]]) < rank(
            head,
            seq![theta["X"@], theta["Z"@]],
        ),
        is_plain(p, other) ==> rank(other, seq![theta["Y"@], theta["Z"@]]) < rank(
            head,
            seq![theta["X"@], theta["Z"@]],
        ),
{
    let r = rule(head, "X"@, "Z"@, seq![pair(one, "X"@, "Y"@), pair(other, "Y"@, "Z"@)]);
    lemma_pair_row("X"@, "Y"@, theta);
    lemma_pair_row("Y"@, "Z"@, theta);
    lemma_pair_row("X"@, "Z"@, theta);
    assert(literal_holds(m, r.body[0], theta));
    assert(literal_holds(m, r.body[1], theta));
    assert(r.body[0] == pair(one, "X"@, "Y"@));
    assert(r.body[1] == pair(other, "Y"@, "Z"@));
}

/// The stored relations of a drawn program are as they are stored, in every
/// model.
proof fn lemma_stored(p: ProgramModel, g: GenParams, m: Reading)
    requires
        is_drawn(p, g),
        is_model(p, m),
    ensures
        m("edge"@) == stored_rows(p.facts, "edge"@),
        m("node"@) == stored_rows(p.facts, "node"@),
        m("seed"@) == stored_rows(p.facts, "seed"@),
        m("item"@) == stored_rows(p.facts, "item"@),
        m("seed3"@) == stored_rows(p.facts, "seed3"@),
{
    lemma_undefined(p, g, "edge"@);
    lemma_undefined(p, g, "node"@);
    lemma_undefined(p, g, "seed"@);
    lemma_undefined(p, g, "item"@);
    lemma_undefined(p, g, "seed3"@);
}

proof fn lemma_undefined(p: ProgramModel, g: GenParams, rel: Name)
    requires
        is_drawn(p, g),
        rel == "edge"@ || rel == "node"@ || rel == "seed"@ || rel == "item"@ || rel == "seed3"@,
    ensures
        !is_defined(p, rel),
{
    lemma_names();
    lemma_fact_names();
    if exists|i: int| 0 <= i < p.rules.len() && (#[trigger] p.rules[i]).head_rel == rel {
        let i = choose|i: int| 0 <= i < p.rules.len() && (#[trigger] p.rules[i]).head_rel == rel;
        assert(drawn_rules(g).contains(p.rules[i]));
        lemma_heads(g, p.rules[i]);
    }
}

/// A relation that rules define and do not aggregate is plain.
proof fn lemma_is_plain(p: ProgramModel, g: GenParams, rel: Name, r: RuleModel)
    requires
        is_drawn(p, g),
        drawn_rules(g).contains(r),
        r.head_rel == rel,
        rel == "path"@ || rel == "qa"@ || rel == "qb"@ || rel == "pj"@ || rel == "j"@ || rel
            == "out"@ || rel == "unreachable"@ || rel == "fr"@,
    ensures
        is_plain(p, rel),
{
    lemma_names();
    let k = choose|k: int| 0 <= k < p.rules.len() && p.rules[k] == r;
    assert(p.rules[k].head_rel == rel);
    assert(!is_fixed(p, rel));
    if has_aggr(p, rel) {
        let i = choose|i: int|
            0 <= i < p.rules.len() && (#[trigger] p.rules[i]).head_rel == rel && aggregates(
                p.rules[i].aggr,
            );
        assert(drawn_rules(g).contains(p.rules[i]));
        lemma_heads(g, p.rules[i]);
        lemma_plain_parts(g, p.rules[i]);
    }
}

proof fn lemma_plain_parts(g: GenParams, r: RuleModel)
    requires
        path_rules(g).contains(r) || mutual_rules(g).contains(r) || join_rules(g).contains(r) || (
        reader_rules(g).contains(r) && (r.head_rel == "out"@ || r.head_rel == "unreachable"@
            || r.head_rel == "fr"@)),
    ensures
        !aggregates(r.aggr),
{
    lemma_names();
    assert(r.aggr == unaggregated(2));
}

/// An edge row is an edge.
proof fn lemma_edge_row(p: ProgramModel, g: GenParams, row: Row) -> (l: Link)
    requires
        is_drawn(p, g),
        stored_rows(p.facts, "edge"@).contains(row),
    ensures
        row == link_row(l),
        leads_in(stored_edges(p), l, 1),
{
    let l = choose|l: Link| row == #[trigger] link_row(l);
    lemma_edge_leads(stored_edges(p), l);
    l
}

/// Two walks whose rows meet.
proof fn lemma_rows_join(edges: Set<Link>, x: Val, y: Val, z: Val, a: Link, n: nat, b: Link, k: nat) -> (l:
    Link)
    requires
        leads_in(edges, a, n),
        leads_in(edges, b, k),
        seq![x, y] == link_row(a),
        seq![y, z] == link_row(b),
    ensures
        seq![x, z] == link_row(l),
        leads_in(edges, l, n + k),
{
    assert(seq![x, y][0] == x && seq![x, y][1] == y);
    assert(seq![y, z][0] == y && seq![y, z][1] == z);
    assert(link_row(a)[0] == Val::Num(a.from) && link_row(a)[1] == Val::Num(a.to));
    assert(link_row(b)[0] == Val::Num(b.from) && link_row(b)[1] == Val::Num(b.to));
    lemma_joined_leads(edges, a.from, a.to, b.to, n, k);
    Link { from: a.from, to: b.to }
}

/// How a row was derived: which rule, and the values of the variables.
proof fn lemma_derivation(
    p: ProgramModel,
    m: Reading,
    rank: spec_fn(Name, Row) -> nat,
    rel: Name,
    row: Row,
) -> (d: (RuleModel, Map<Name, Val>))
    requires
        ranks(p, m, rank),
        is_plain(p, rel),
        m(rel).contains(row),
    ensures
        derives(p, m, rank, d.0, d.1),
        p.rules.contains(d.0),
        d.0.head_rel == rel,
        row == head_row(d.0, d.1),
{
    choose|r: RuleModel, theta: Map<Name, Val>| #[trigger]
        derives(p, m, rank, r, theta) && r.head_rel == rel && row == head_row(r, theta)
}

/// What the rules for a path are.
proof fn lemma_path_rules(g: GenParams)
    ensures
        drawn_rules(g).contains(path_rules(g)[0]),
        drawn_rules(g).contains(path_rules(g)[1]),
{
    assert(path_rules(g).contains(path_rules(g)[0]));
    assert(path_rules(g).contains(path_rules(g)[1]));
    lemma_drawn_parts(g, path_rules(g)[0]);
    lemma_drawn_parts(g, path_rules(g)[1]);
}

/// Edges are paths.
proof fn lemma_path_from_edge(p: ProgramModel, g: GenParams, m: Reading, l: Link)
    requires
        is_drawn(p, g),
        is_model(p, m),
        stored_edges(p).contains(l),
    ensures
        m("path"@).contains(link_row(l)),
{
    lemma_stored(p, g, m);
    lemma_path_rules(g);
    lemma_fires_on_one(p, m, "path"@, "edge"@, Val::Num(l.from), Val::Num(l.to));
}

/// A path behind an edge is a path.
proof fn lemma_path_behind_edge(p: ProgramModel, g: GenParams, m: Reading, a: i64, b: i64, c: i64)
    requires
        is_drawn(p, g),
        is_model(p, m),
        stored_edges(p).contains(Link { from: a, to: b }),
        m("path"@).contains(link_row(Link { from: b, to: c })),
    ensures
        m("path"@).contains(link_row(Link { from: a, to: c })),
{
    lemma_path_from_edge(p, g, m, Link { from: a, to: b });
    lemma_stored(p, g, m);
    lemma_path_rules(g);
    if g.self_join {
        lemma_fires_on_two(p, m, "path"@, "path"@, "path"@, Val::Num(a), Val::Num(b), Val::Num(c));
    } else {
        lemma_fires_on_two(p, m, "path"@, "edge"@, "path"@, Val::Num(a), Val::Num(b), Val::Num(c));
    }
}

proof fn lemma_path_complete(p: ProgramModel, g: GenParams, m: Reading, l: Link, n: nat)
    requires
        is_drawn(p, g),
        is_model(p, m),
        n >= 1,
        leads_in(stored_edges(p), l, n),
    ensures
        m("path"@).contains(link_row(l)),
    decreases n,
{
    let edges = stored_edges(p);
    if n == 1 {
        lemma_edge_leads(edges, l);
        lemma_path_from_edge(p, g, m, l);
    } else {
        let mid = lemma_parted_leads(edges, l, n, 1);
        lemma_edge_leads(edges, Link { from: l.from, to: mid });
        lemma_path_complete(p, g, m, Link { from: mid, to: l.to }, (n - 1) as nat);
        lemma_path_behind_edge(p, g, m, l.from, mid, l.to);
    }
}

/// A path is an edge, or a path behind an edge or another path, of lower
/// rank.
proof fn lemma_path_step(
    p: ProgramModel,
    g: GenParams,
    m: Reading,
    rank: spec_fn(Name, Row) -> nat,
    row: Row,
) -> (t: Option<(Val, Val, Val)>)
    requires
        is_drawn(p, g),
        is_model(p, m),
        ranks(p, m, rank),
        m("path"@).contains(row),
    ensures
        t is None ==> stored_rows(p.facts, "edge"@).contains(row),
        t matches Some(s) ==> {
            &&& row == seq![s.0, s.2]
            &&& stored_rows(p.facts, "edge"@).contains(seq![s.0, s.1]) || (m("path"@).contains(
                seq![s.0, s.1],
            ) && rank("path"@, seq![s.0, s.1]) < rank("path"@, row))
            &&& m("path"@).contains(seq![s.1, s.2])
            &&& rank("path"@, seq![s.1, s.2]) < rank("path"@, row)
        },
{
    lemma_stored(p, g, m);
    lemma_path_rules(g);
    lemma_is_plain(p, g, "path"@, path_rules(g)[0]);
    let (r, theta) = lemma_derivation(p, m, rank, "path"@, row);
    lemma_heads(g, r);
    assert(r == path_rules(g)[0] || r == path_rules(g)[1]);
    if r == path_rules(g)[0] {
        lemma_fired_on_one(p, m, rank, theta, "path"@, "edge"@);
        None
    } else {
        if g.self_join {
            lemma_fired_on_two(p, m, rank, theta, "path"@, "path"@, "path"@);
        } else {
            lemma_fired_on_two(p, m, rank, theta, "path"@, "edge"@, "path"@);
        }
        Some((theta["X"@], theta["Y"@], theta["Z"@]))
    }
}

proof fn lemma_path_sound(
    p: ProgramModel,
    g: GenParams,
    m: Reading,
    rank: spec_fn(Name, Row) -> nat,
    row: Row,
) -> (r: (Link, nat))
    requires
        is_drawn(p, g),
        is_model(p, m),
        ranks(p, m, rank),
        m("path"@).contains(row),
    ensures
        row == link_row(r.0),
        r.1 >= 1,
        leads_in(stored_edges(p), r.0, r.1),
    decreases rank("path"@, row),
{
    match lemma_path_step(p, g, m, rank, row) {
        None => (lemma_edge_row(p, g, row), 1),
        Some((x, y, z)) => {
            let a = if stored_rows(p.facts, "edge"@).contains(seq![x, y]) {
                (lemma_edge_row(p, g, seq![x, y]), 1nat)
            } else {
                lemma_path_sound(p, g, m, rank, seq![x, y])
            };
            let b = lemma_path_sound(p, g, m, rank, seq![y, z]);
            let l = lemma_rows_join(stored_edges(p), x, y, z, a.0, a.1, b.0, b.1);
            (l, a.1 + b.1)
        },
    }
}

proof fn lemma_paths(p: ProgramModel, g: GenParams, m: Reading, row: Row)
    requires
        is_drawn(p, g),
        is_least_model(p, m),
    ensures
        m("path"@).contains(row) <==> exists|l: Link|
            row == #[trigger] link_row(l) && leads(stored_edges(p), l),
{
    let edges = stored_edges(p);
    let rank = choose|rank: spec_fn(Name, Row) -> nat| #[trigger] ranks(p, m, rank);
    if m("path"@).contains(row) {
        let r = lemma_path_sound(p, g, m, rank, row);
        lemma_leads_in(edges, r.0);
        assert(leads_in(edges, r.0, r.1));
    }
    if exists|l: Link| row == #[trigger] link_row(l) && leads(edges, l) {
        let l = choose|l: Link| row == #[trigger] link_row(l) && leads(edges, l);
        lemma_leads_in(edges, l);
        let n = choose|n: nat| n >= 1 && #[trigger] leads_in(edges, l, n);
        lemma_path_complete(p, g, m, l, n);
    }
}

/// In every least model of a drawn program, a pair is a path exactly where a
/// walk along the program's edges leads from its first to its second.
pub proof fn law_paths_are_walks(seed: u64, m: Reading, row: Row)
    requires
        is_least_model(drawn_program(seed), m),
    ensures
        m("path"@).contains(row) <==> exists|l: Link|
            row == #[trigger] link_row(l) && leads(stored_edges(drawn_program(seed)), l),
{
    lemma_is_drawn(seed);
    lemma_paths(drawn_program(seed), params_at(seed), m, row);
}

/// Whether a walk of some odd, or some even, number of edges leads from one
/// place to another.
pub open spec fn leads_oddly(edges: Set<Link>, l: Link, odd: bool) -> bool {
    exists|n: nat| n >= 1 && (n % 2 == 1) == odd && #[trigger] leads_in(edges, l, n)
}

/// The relation of the walks with an odd, or an even, number of edges.
spec fn parity_name(odd: bool) -> Name {
    if odd {
        "qa"@
    } else {
        "qb"@
    }
}

proof fn lemma_mutual_rules(g: GenParams)
    requires
        g.mutual || g.two_dep || g.cross_join,
    ensures
        drawn_rules(g).contains(mutual_rules(g)[0]),
        drawn_rules(g).contains(mutual_rules(g)[1]),
        drawn_rules(g).contains(mutual_rules(g)[2]),
{
    assert(mutual_rules(g).contains(mutual_rules(g)[0]));
    assert(mutual_rules(g).contains(mutual_rules(g)[1]));
    assert(mutual_rules(g).contains(mutual_rules(g)[2]));
    lemma_drawn_parts(g, mutual_rules(g)[0]);
    lemma_drawn_parts(g, mutual_rules(g)[1]);
    lemma_drawn_parts(g, mutual_rules(g)[2]);
}

proof fn lemma_odd_from_edge(p: ProgramModel, g: GenParams, m: Reading, l: Link)
    requires
        is_drawn(p, g),
        is_model(p, m),
        g.mutual || g.two_dep || g.cross_join,
        stored_edges(p).contains(l),
    ensures
        m("qa"@).contains(link_row(l)),
{
    lemma_stored(p, g, m);
    lemma_mutual_rules(g);
    lemma_fires_on_one(p, m, "qa"@, "edge"@, Val::Num(l.from), Val::Num(l.to));
}

proof fn lemma_parity_before_edge(
    p: ProgramModel,
    g: GenParams,
    m: Reading,
    odd: bool,
    a: i64,
    b: i64,
    c: i64,
)
    requires
        is_drawn(p, g),
        is_model(p, m),
        g.mutual || g.two_dep || g.cross_join,
        m(parity_name(odd)).contains(link_row(Link { from: a, to: b })),
        stored_edges(p).contains(Link { from: b, to: c }),
    ensures
        m(parity_name(!odd)).contains(link_row(Link { from: a, to: c })),
{
    lemma_stored(p, g, m);
    lemma_mutual_rules(g);
    if odd {
        lemma_fires_on_two(p, m, "qb"@, "qa"@, "edge"@, Val::Num(a), Val::Num(b), Val::Num(c));
    } else {
        lemma_fires_on_two(p, m, "qa"@, "qb"@, "edge"@, Val::Num(a), Val::Num(b), Val::Num(c));
    }
}

proof fn lemma_parity_complete(p: ProgramModel, g: GenParams, m: Reading, l: Link, n: nat)
    requires
        is_drawn(p, g),
        is_model(p, m),
        g.mutual || g.two_dep || g.cross_join,
        n >= 1,
        leads_in(stored_edges(p), l, n),
    ensures
        m(parity_name(n % 2 == 1)).contains(link_row(l)),
    decreases n,
{
    let edges = stored_edges(p);
    if n == 1 {
        lemma_edge_leads(edges, l);
        lemma_odd_from_edge(p, g, m, l);
    } else {
        let k = (n - 1) as nat;
        let mid = lemma_parted_leads(edges, l, n, k);
        lemma_edge_leads(edges, Link { from: mid, to: l.to });
        lemma_parity_complete(p, g, m, Link { from: l.from, to: mid }, k);
        lemma_parity_before_edge(p, g, m, k % 2 == 1, l.from, mid, l.to);
        assert((k % 2 == 1) == !(n % 2 == 1));
    }
}

proof fn lemma_parity_step(
    p: ProgramModel,
    g: GenParams,
    m: Reading,
    rank: spec_fn(Name, Row) -> nat,
    odd: bool,
    row: Row,
) -> (t: Option<(Val, Val, Val)>)
    requires
        is_drawn(p, g),
        is_model(p, m),
        ranks(p, m, rank),
        g.mutual || g.two_dep || g.cross_join,
        m(parity_name(odd)).contains(row),
    ensures
        t is None ==> odd && stored_rows(p.facts, "edge"@).contains(row),
        t matches Some(s) ==> {
            &&& row == seq![s.0, s.2]
            &&& m(parity_name(!odd)).contains(seq![s.0, s.1])
            &&& rank(parity_name(!odd), seq![s.0, s.1]) < rank(parity_name(odd), row)
            &&& stored_rows(p.facts, "edge"@).contains(seq![s.1, s.2])
        },
{
    lemma_stored(p, g, m);
    lemma_mutual_rules(g);
    lemma_names();
    lemma_is_plain(p, g, "qa"@, mutual_rules(g)[0]);
    lemma_is_plain(p, g, "qb"@, mutual_rules(g)[2]);
    let (r, theta) = lemma_derivation(p, m, rank, parity_name(odd), row);
    lemma_heads(g, r);
    assert(r == mutual_rules(g)[0] || r == mutual_rules(g)[1] || r == mutual_rules(g)[2]);
    if r == mutual_rules(g)[0] {
        lemma_fired_on_one(p, m, rank, theta, "qa"@, "edge"@);
        None
    } else {
        if odd {
            lemma_fired_on_two(p, m, rank, theta, "qa"@, "qb"@, "edge"@);
        } else {
            lemma_fired_on_two(p, m, rank, theta, "qb"@, "qa"@, "edge"@);
        }
        Some((theta["X"@], theta["Y"@], theta["Z"@]))
    }
}

proof fn lemma_parity_sound(
    p: ProgramModel,
    g: GenParams,
    m: Reading,
    rank: spec_fn(Name, Row) -> nat,
    odd: bool,
    row: Row,
) -> (r: (Link, nat))
    requires
        is_drawn(p, g),
        is_model(p, m),
        ranks(p, m, rank),
        g.mutual || g.two_dep || g.cross_join,
        m(parity_name(odd)).contains(row),
    ensures
        row == link_row(r.0),
        r.1 >= 1,
        (r.1 % 2 == 1) == odd,
        leads_in(stored_edges(p), r.0, r.1),
    decreases rank(parity_name(odd), row),
{
    match lemma_parity_step(p, g, m, rank, odd, row) {
        None => (lemma_edge_row(p, g, row), 1),
        Some((x, y, z)) => {
            let a = lemma_parity_sound(p, g, m, rank, !odd, seq![x, y]);
            let b = lemma_edge_row(p, g, seq![y, z]);
            let l = lemma_rows_join(stored_edges(p), x, y, z, a.0, a.1, b, 1);
            (l, a.1 + 1)
        },
    }
}

proof fn lemma_parities(p: ProgramModel, g: GenParams, m: Reading, odd: bool, row: Row)
    requires
        is_drawn(p, g),
        is_least_model(p, m),
        g.mutual || g.two_dep || g.cross_join,
    ensures
        m(parity_name(odd)).contains(row) <==> exists|l: Link|
            row == #[trigger] link_row(l) && leads_oddly(stored_edges(p), l, odd),
{
    let edges = stored_edges(p);
    let rank = choose|rank: spec_fn(Name, Row) -> nat| #[trigger] ranks(p, m, rank);
    if m(parity_name(odd)).contains(row) {
        let r = lemma_parity_sound(p, g, m, rank, odd, row);
        assert(leads_in(edges, r.0, r.1));
        assert(leads_oddly(edges, r.0, odd));
    }
    if exists|l: Link| row == #[trigger] link_row(l) && leads_oddly(edges, l, odd) {
        let l = choose|l: Link| row == #[trigger] link_row(l) && leads_oddly(edges, l, odd);
        let n = choose|n: nat| n >= 1 && (n % 2 == 1) == odd && #[trigger] leads_in(edges, l, n);
        lemma_parity_complete(p, g, m, l, n);
    }
}

/// In every least model of a drawn program that has the two relations that
/// define each other, the pairs of one are those that a walk of an odd number
/// of edges leads between, and the pairs of the other those of an even number.
pub proof fn law_mutual_relations_are_parities(seed: u64, m: Reading, row: Row)
    requires
        is_least_model(drawn_program(seed), m),
        params_at(seed).mutual || params_at(seed).two_dep || params_at(seed).cross_join,
    ensures
        m("qa"@).contains(row) <==> exists|l: Link|
            row == #[trigger] link_row(l) && leads_oddly(
                stored_edges(drawn_program(seed)),
                l,
                true,
            ),
        m("qb"@).contains(row) <==> exists|l: Link|
            row == #[trigger] link_row(l) && leads_oddly(
                stored_edges(drawn_program(seed)),
                l,
                false,
            ),
{
    lemma_is_drawn(seed);
    lemma_parities(drawn_program(seed), params_at(seed), m, true, row);
    lemma_parities(drawn_program(seed), params_at(seed), m, false, row);
}

/// The rules for the joins.
proof fn lemma_join_rules(g: GenParams)
    ensures
        g.two_dep ==> drawn_rules(g).contains(
            rule("pj"@, "X"@, "Z"@, seq![pair("path"@, "X"@, "Y"@), pair("qa"@, "Y"@, "Z"@)]),
        ),
        g.cross_join ==> drawn_rules(g).contains(
            rule("j"@, "X"@, "Z"@, seq![pair("qa"@, "X"@, "Y"@), pair("qb"@, "Y"@, "Z"@)]),
        ),
{
    let rs = join_rules(g);
    if g.two_dep {
        assert(rs.contains(rs[0]));
        lemma_drawn_parts(g, rs[0]);
    }
    if g.cross_join {
        let k = rs.len() - 1;
        assert(rs.contains(rs[k]));
        lemma_drawn_parts(g, rs[k]);
    }
}

proof fn lemma_cross_complete(p: ProgramModel, g: GenParams, m: Reading, l: Link, n: nat)
    requires
        is_drawn(p, g),
        is_model(p, m),
        g.cross_join,
        n >= 3,
        n % 2 == 1,
        leads_in(stored_edges(p), l, n),
    ensures
        m("j"@).contains(link_row(l)),
{
    let edges = stored_edges(p);
    let mid = lemma_parted_leads(edges, l, n, 1);
    lemma_parity_complete(p, g, m, Link { from: l.from, to: mid }, 1);
    lemma_parity_complete(p, g, m, Link { from: mid, to: l.to }, (n - 1) as nat);
    lemma_join_rules(g);
    lemma_fires_on_two(
        p,
        m,
        "j"@,
        "qa"@,
        "qb"@,
        Val::Num(l.from),
        Val::Num(mid),
        Val::Num(l.to),
    );
}

proof fn lemma_cross_sound(
    p: ProgramModel,
    g: GenParams,
    m: Reading,
    rank: spec_fn(Name, Row) -> nat,
    row: Row,
) -> (r: (Link, nat))
    requires
        is_drawn(p, g),
        is_model(p, m),
        ranks(p, m, rank),
        g.cross_join,
        m("j"@).contains(row),
    ensures
        row == link_row(r.0),
        r.1 >= 3,
        r.1 % 2 == 1,
        leads_in(stored_edges(p), r.0, r.1),
{
    lemma_join_rules(g);
    lemma_names();
    let cross = rule("j"@, "X"@, "Z"@, seq![pair("qa"@, "X"@, "Y"@), pair("qb"@, "Y"@, "Z"@)]);
    lemma_is_plain(p, g, "j"@, cross);
    let (r, theta) = lemma_derivation(p, m, rank, "j"@, row);
    lemma_heads(g, r);
    assert(r == cross);
    lemma_fired_on_two(p, m, rank, theta, "j"@, "qa"@, "qb"@);
    let (x, y, z) = (theta["X"@], theta["Y"@], theta["Z"@]);
    let a = lemma_parity_sound(p, g, m, rank, true, seq![x, y]);
    let b = lemma_parity_sound(p, g, m, rank, false, seq![y, z]);
    let l = lemma_rows_join(stored_edges(p), x, y, z, a.0, a.1, b.0, b.1);
    (l, a.1 + b.1)
}

/// In every least model of a drawn program that has the join of the two
/// relations that define each other, its pairs are those that a walk of three
/// or more edges, an odd number, leads between.
pub proof fn law_cross_join_is_odd_walks(seed: u64, m: Reading, row: Row)
    requires
        is_least_model(drawn_program(seed), m),
        params_at(seed).cross_join,
    ensures
        m("j"@).contains(row) <==> exists|l: Link, n: nat|
            row == link_row(l) && n >= 3 && n % 2 == 1 && #[trigger] leads_in(
                stored_edges(drawn_program(seed)),
                l,
                n,
            ),
{
    lemma_is_drawn(seed);
    let p = drawn_program(seed);
    let g = params_at(seed);
    let rank = choose|rank: spec_fn(Name, Row) -> nat| #[trigger] ranks(p, m, rank);
    if m("j"@).contains(row) {
        let r = lemma_cross_sound(p, g, m, rank, row);
        assert(leads_in(stored_edges(p), r.0, r.1));
    }
    if exists|l: Link, n: nat|
        row == link_row(l) && n >= 3 && n % 2 == 1 && #[trigger] leads_in(stored_edges(p), l, n) {
        let (l, n) = choose|l: Link, n: nat|
            row == link_row(l) && n >= 3 && n % 2 == 1 && #[trigger] leads_in(
                stored_edges(p),
                l,
                n,
            );
        lemma_cross_complete(p, g, m, l, n);
    }
}

proof fn lemma_repaired_complete(p: ProgramModel, g: GenParams, m: Reading, l: Link, n: nat)
    requires
        is_drawn(p, g),
        is_model(p, m),
        g.two_dep,
        n >= 2,
        leads_in(stored_edges(p), l, n),
    ensures
        m("pj"@).contains(link_row(l)),
{
    let edges = stored_edges(p);
    let k = (n - 1) as nat;
    let mid = lemma_parted_leads(edges, l, n, k);
    lemma_path_complete(p, g, m, Link { from: l.from, to: mid }, k);
    lemma_parity_complete(p, g, m, Link { from: mid, to: l.to }, 1);
    lemma_join_rules(g);
    lemma_fires_on_two(
        p,
        m,
        "pj"@,
        "path"@,
        "qa"@,
        Val::Num(l.from),
        Val::Num(mid),
        Val::Num(l.to),
    );
}

proof fn lemma_repaired_step(
    p: ProgramModel,
    g: GenParams,
    m: Reading,
    rank: spec_fn(Name, Row) -> nat,
    row: Row,
) -> (t: (Val, Val, Val))
    requires
        is_drawn(p, g),
        is_model(p, m),
        ranks(p, m, rank),
        g.two_dep,
        m("pj"@).contains(row),
    ensures
        row == seq![t.0, t.2],
        m("path"@).contains(seq![t.0, t.1]) || (m("pj"@).contains(seq![t.0, t.1]) && rank(
            "pj"@,
            seq![t.0, t.1],
        ) < rank("pj"@, row)),
        m("qa"@).contains(seq![t.1, t.2]),
{
    lemma_join_rules(g);
    lemma_names();
    let one = rule("pj"@, "X"@, "Z"@, seq![pair("path"@, "X"@, "Y"@), pair("qa"@, "Y"@, "Z"@)]);
    let two = rule("pj"@, "X"@, "Z"@, seq![pair("pj"@, "X"@, "Y"@), pair("qa"@, "Y"@, "Z"@)]);
    lemma_is_plain(p, g, "pj"@, one);
    let (r, theta) = lemma_derivation(p, m, rank, "pj"@, row);
    lemma_heads(g, r);
    assert(r == one || r == two);
    if r == one {
        lemma_fired_on_two(p, m, rank, theta, "pj"@, "path"@, "qa"@);
    } else {
        lemma_fired_on_two(p, m, rank, theta, "pj"@, "pj"@, "qa"@);
    }
    (theta["X"@], theta["Y"@], theta["Z"@])
}

proof fn lemma_repaired_sound(
    p: ProgramModel,
    g: GenParams,
    m: Reading,
    rank: spec_fn(Name, Row) -> nat,
    row: Row,
) -> (r: (Link, nat))
    requires
        is_drawn(p, g),
        is_model(p, m),
        ranks(p, m, rank),
        g.two_dep,
        m("pj"@).contains(row),
    ensures
        row == link_row(r.0),
        r.1 >= 2,
        leads_in(stored_edges(p), r.0, r.1),
    decreases rank("pj"@, row),
{
    let (x, y, z) = lemma_repaired_step(p, g, m, rank, row);
    let a = if m("path"@).contains(seq![x, y]) {
        lemma_path_sound(p, g, m, rank, seq![x, y])
    } else {
        lemma_repaired_sound(p, g, m, rank, seq![x, y])
    };
    let b = lemma_parity_sound(p, g, m, rank, true, seq![y, z]);
    let l = lemma_rows_join(stored_edges(p), x, y, z, a.0, a.1, b.0, b.1);
    (l, a.1 + b.1)
}

/// In every least model of a drawn program that has the join that goes on
/// from paths, its pairs are those that a walk of two or more edges leads
/// between.
pub proof fn law_path_join_is_longer_walks(seed: u64, m: Reading, row: Row)
    requires
        is_least_model(drawn_program(seed), m),
        params_at(seed).two_dep,
    ensures
        m("pj"@).contains(row) <==> exists|l: Link, n: nat|
            row == link_row(l) && n >= 2 && #[trigger] leads_in(
                stored_edges(drawn_program(seed)),
                l,
                n,
            ),
{
    lemma_is_drawn(seed);
    let p = drawn_program(seed);
    let g = params_at(seed);
    let rank = choose|rank: spec_fn(Name, Row) -> nat| #[trigger] ranks(p, m, rank);
    if m("pj"@).contains(row) {
        let r = lemma_repaired_sound(p, g, m, rank, row);
        assert(leads_in(stored_edges(p), r.0, r.1));
    }
    if exists|l: Link, n: nat|
        row == link_row(l) && n >= 2 && #[trigger] leads_in(stored_edges(p), l, n) {
        let (l, n) = choose|l: Link, n: nat|
            row == link_row(l) && n >= 2 && #[trigger] leads_in(stored_edges(p), l, n);
        lemma_repaired_complete(p, g, m, l, n);
    }
}

/// A row of a relation that reads another as it is: the row of that.
proof fn lemma_fired_reads_one(m: Reading, theta: Map<Name, Val>, from: Name, a: Name, b: Name)
    requires
        body_holds(m, seq![pair(from, a, b)], theta),
    ensures
        m(from).contains(seq![theta[a], theta[b]]),
{
    lemma_pair_row(a, b, theta);
    assert(literal_holds(m, seq![pair(from, a, b)][0], theta));
}

/// The rules that read others.
proof fn lemma_reader_rules(g: GenParams)
    ensures
        drawn_rules(g).contains(rule("out"@, "X"@, "Y"@, seq![pair("m"@, "X"@, "Y"@)])),
        g.negation ==> drawn_rules(g).contains(unreachable_rule()),
        g.normal_aggr ==> drawn_rules(g).contains(count_rule()),
        g.bulk_aggr ==> drawn_rules(g).contains(sum_rule()),
        g.fixed_rule ==> drawn_rules(g).contains(endpoint_rule()),
        forall|r: RuleModel| #[trigger]
            reader_rules(g).contains(r) ==> {
                ||| r == rule("out"@, "X"@, "Y"@, seq![pair("m"@, "X"@, "Y"@)])
                ||| g.negation && r == unreachable_rule()
                ||| g.normal_aggr && r == count_rule()
                ||| g.bulk_aggr && r == sum_rule()
                ||| g.fixed_rule && r == endpoint_rule()
            },
{
    broadcast use vstd::seq_lib::lemma_seq_concat_contains_all_elements;

    let out = rule("out"@, "X"@, "Y"@, seq![pair("m"@, "X"@, "Y"@)]);
    assert(seq![out].contains(seq![out][0]));
    assert(seq![unreachable_rule()].contains(seq![unreachable_rule()][0]));
    assert(seq![count_rule()].contains(seq![count_rule()][0]));
    assert(seq![sum_rule()].contains(seq![sum_rule()][0]));
    assert(seq![endpoint_rule()].contains(seq![endpoint_rule()][0]));
    lemma_drawn_parts(g, out);
    lemma_drawn_parts(g, unreachable_rule());
    lemma_drawn_parts(g, count_rule());
    lemma_drawn_parts(g, sum_rule());
    lemma_drawn_parts(g, endpoint_rule());
}

spec fn unreachable_rule() -> RuleModel {
    rule(
        "unreachable"@,
        "X"@,
        "Y"@,
        seq![
            asks("node"@, seq![v("X"@)]),
            asks("node"@, seq![v("Y"@)]),
            LiteralModel { rel: "path"@, args: seq![v("X"@), v("Y"@)], negated: true },
        ],
    )
}

spec fn count_rule() -> RuleModel {
    folded(
        "reach_count"@,
        "X"@,
        "Y"@,
        None,
        Some(Aggregation::Count),
        seq![pair("path"@, "X"@, "Y"@)],
    )
}

spec fn sum_rule() -> RuleModel {
    folded(
        "bulk_sum"@,
        "X"@,
        "Y"@,
        None,
        Some(Aggregation::Sum),
        seq![pair("item"@, "X"@, "Y"@)],
    )
}

spec fn endpoint_rule() -> RuleModel {
    rule(
        "fr"@,
        "X"@,
        "Y"@,
        seq![asks("fx"@, seq![v("X"@)]), asks("node"@, seq![v("Y"@)])],
    )
}

/// In every least model of a drawn program, what reads the meet has its pairs.
pub proof fn law_out_is_the_meet(seed: u64, m: Reading, row: Row)
    requires
        is_least_model(drawn_program(seed), m),
    ensures
        m("out"@).contains(row) <==> m("m"@).contains(row) && row.len() == 2,
{
    let p = drawn_program(seed);
    let g = params_at(seed);
    lemma_is_drawn(seed);
    lemma_out(p, g, m, row);
}

proof fn lemma_out(p: ProgramModel, g: GenParams, m: Reading, row: Row)
    requires
        is_drawn(p, g),
        is_least_model(p, m),
    ensures
        m("out"@).contains(row) <==> m("m"@).contains(row) && row.len() == 2,
{
    let rank = choose|rank: spec_fn(Name, Row) -> nat| #[trigger] ranks(p, m, rank);
    let out = rule("out"@, "X"@, "Y"@, seq![pair("m"@, "X"@, "Y"@)]);
    lemma_reader_rules(g);
    lemma_names();
    lemma_is_plain(p, g, "out"@, out);
    if m("out"@).contains(row) {
        let (r, theta) = lemma_derivation(p, m, rank, "out"@, row);
        lemma_heads(g, r);
        assert(r == out);
        lemma_fired_on_one(p, m, rank, theta, "out"@, "m"@);
    }
    if m("m"@).contains(row) && row.len() == 2 {
        assert(row =~= seq![row[0], row[1]]);
        lemma_fires_on_one(p, m, "out"@, "m"@, row[0], row[1]);
    }
}

proof fn lemma_unreachable(p: ProgramModel, g: GenParams, m: Reading, row: Row)
    requires
        is_drawn(p, g),
        is_least_model(p, m),
        g.negation,
    ensures
        m("unreachable"@).contains(row) <==> row.len() == 2 && stored_rows(
            p.facts,
            "node"@,
        ).contains(seq![row[0]]) && stored_rows(p.facts, "node"@).contains(seq![row[1]]) && !m(
            "path"@,
        ).contains(row),
{
    let rank = choose|rank: spec_fn(Name, Row) -> nat| #[trigger] ranks(p, m, rank);
    let u = unreachable_rule();
    lemma_reader_rules(g);
    lemma_names();
    lemma_stored(p, g, m);
    lemma_is_plain(p, g, "unreachable"@, u);
    if m("unreachable"@).contains(row) {
        let (r, theta) = lemma_derivation(p, m, rank, "unreachable"@, row);
        lemma_heads(g, r);
        assert(r == u);
        lemma_pair_row("X"@, "Y"@, theta);
        lemma_one_row("X"@, theta);
        lemma_one_row("Y"@, theta);
        assert(literal_holds(m, u.body[0], theta));
        assert(literal_holds(m, u.body[1], theta));
        assert(literal_holds(m, u.body[2], theta));
    }
    if row.len() == 2 && m("node"@).contains(seq![row[0]]) && m("node"@).contains(seq![row[1]])
        && !m("path"@).contains(row) {
        let theta = two(row[0], row[1]);
        assert(row =~= seq![row[0], row[1]]);
        assert(theta["X"@] == row[0] && theta["Y"@] == row[1]);
        lemma_pair_row("X"@, "Y"@, theta);
        lemma_one_row("X"@, theta);
        lemma_one_row("Y"@, theta);
        assert(literal_holds(m, u.body[0], theta));
        assert(literal_holds(m, u.body[1], theta));
        assert(literal_holds(m, u.body[2], theta));
        assert(body_holds(m, u.body, theta));
        lemma_plain_parts(g, u);
        assert(m(u.head_rel).contains(head_row(u, theta)));
    }
}

/// In every least model of a drawn program with a negation, a pair is
/// unreachable exactly where both of it are nodes and no walk along the
/// program's edges leads from its first to its second.
pub proof fn law_unreachable_is_no_walk(seed: u64, m: Reading, row: Row)
    requires
        is_least_model(drawn_program(seed), m),
        params_at(seed).negation,
    ensures
        m("unreachable"@).contains(row) <==> exists|l: Link|
            row == #[trigger] link_row(l) && 0 <= l.from < params_at(seed).n_nodes && 0 <= l.to
                < params_at(seed).n_nodes && !leads(stored_edges(drawn_program(seed)), l),
{
    lemma_is_drawn(seed);
    law_drawn_nodes(seed);
    lemma_no_walk(drawn_program(seed), params_at(seed), m, row);
}

proof fn lemma_no_walk(p: ProgramModel, g: GenParams, m: Reading, row: Row)
    requires
        is_drawn(p, g),
        is_least_model(p, m),
        g.negation,
        forall|row: Row| #[trigger]
            stored_rows(p.facts, "node"@).contains(row) <==> row.len() == 1 && row[0] is Num && 0
                <= row[0]->Num_0 < g.n_nodes,
    ensures
        m("unreachable"@).contains(row) <==> exists|l: Link|
            row == #[trigger] link_row(l) && 0 <= l.from < g.n_nodes && 0 <= l.to < g.n_nodes
                && !leads(stored_edges(p), l),
{
    let edges = stored_edges(p);
    lemma_unreachable(p, g, m, row);
    lemma_paths(p, g, m, row);
    if m("unreachable"@).contains(row) {
        assert(seq![row[0]][0] == row[0]);
        assert(seq![row[1]][0] == row[1]);
        let l = Link { from: row[0]->Num_0, to: row[1]->Num_0 };
        assert(row =~= link_row(l));
        assert(!leads(edges, l));
    }
    if exists|l: Link|
        row == #[trigger] link_row(l) && 0 <= l.from < g.n_nodes && 0 <= l.to < g.n_nodes && !leads(
            edges,
            l,
        ) {
        let l = choose|l: Link|
            row == #[trigger] link_row(l) && 0 <= l.from < g.n_nodes && 0 <= l.to < g.n_nodes
                && !leads(edges, l);
        assert(row[0] == Val::Num(l.from) && row[1] == Val::Num(l.to));
        assert(seq![row[0]][0] == row[0]);
        assert(seq![row[1]][0] == row[1]);
        if exists|k: Link| row == #[trigger] link_row(k) && leads(edges, k) {
            let k = choose|k: Link| row == #[trigger] link_row(k) && leads(edges, k);
            assert(link_row(k)[0] == Val::Num(k.from) && link_row(k)[1] == Val::Num(k.to));
            assert(k == l);
        }
    }
}

proof fn lemma_endpoint_pairs(p: ProgramModel, g: GenParams, m: Reading, row: Row)
    requires
        is_drawn(p, g),
        is_least_model(p, m),
        g.fixed_rule,
    ensures
        m("fr"@).contains(row) <==> row.len() == 2 && m("fx"@).contains(seq![row[0]])
            && stored_rows(p.facts, "node"@).contains(seq![row[1]]),
        m("fx"@) == endpoints(m("path"@)),
{
    let rank = choose|rank: spec_fn(Name, Row) -> nat| #[trigger] ranks(p, m, rank);
    let e = endpoint_rule();
    lemma_reader_rules(g);
    lemma_names();
    lemma_stored(p, g, m);
    lemma_is_plain(p, g, "fr"@, e);
    let f = p.fixed[0];
    assert(f == drawn_fixed(g)[0]);
    assert(m(f.head_rel) == computed(f.eval, Seq::new(f.inputs.len(), |k: int| m(f.inputs[k]))));
    if m("fr"@).contains(row) {
        let (r, theta) = lemma_derivation(p, m, rank, "fr"@, row);
        lemma_heads(g, r);
        assert(r == e);
        lemma_pair_row("X"@, "Y"@, theta);
        lemma_one_row("X"@, theta);
        lemma_one_row("Y"@, theta);
        assert(literal_holds(m, e.body[0], theta));
        assert(literal_holds(m, e.body[1], theta));
    }
    if row.len() == 2 && m("fx"@).contains(seq![row[0]]) && m("node"@).contains(seq![row[1]]) {
        let theta = two(row[0], row[1]);
        assert(row =~= seq![row[0], row[1]]);
        assert(theta["X"@] == row[0] && theta["Y"@] == row[1]);
        lemma_pair_row("X"@, "Y"@, theta);
        lemma_one_row("X"@, theta);
        lemma_one_row("Y"@, theta);
        assert(literal_holds(m, e.body[0], theta));
        assert(literal_holds(m, e.body[1], theta));
        assert(body_holds(m, e.body, theta));
        lemma_plain_parts(g, e);
        assert(m(e.head_rel).contains(head_row(e, theta)));
    }
}

/// In every least model of a drawn program with a fixed rule, that rule has
/// the ends of the program's edges, and what reads it pairs each with every
/// node.
pub proof fn law_fixed_rule_is_edge_ends(seed: u64, m: Reading, row: Row)
    requires
        is_least_model(drawn_program(seed), m),
        params_at(seed).fixed_rule,
    ensures
        m("fx"@).contains(row) <==> exists|l: Link| #[trigger]
            stored_edges(drawn_program(seed)).contains(l) && (row == seq![Val::Num(l.from)] || row
                == seq![Val::Num(l.to)]),
        m("fr"@).contains(row) <==> row.len() == 2 && m("fx"@).contains(seq![row[0]]) && row[1] is Num
            && 0 <= row[1]->Num_0 < params_at(seed).n_nodes,
{
    lemma_is_drawn(seed);
    law_drawn_nodes(seed);
    lemma_edge_ends(drawn_program(seed), params_at(seed), m, row);
}

proof fn lemma_edge_ends(p: ProgramModel, g: GenParams, m: Reading, row: Row)
    requires
        is_drawn(p, g),
        is_least_model(p, m),
        g.fixed_rule,
        forall|row: Row| #[trigger]
            stored_rows(p.facts, "node"@).contains(row) <==> row.len() == 1 && row[0] is Num && 0
                <= row[0]->Num_0 < g.n_nodes,
    ensures
        m("fx"@).contains(row) <==> exists|l: Link| #[trigger]
            stored_edges(p).contains(l) && (row == seq![Val::Num(l.from)] || row == seq![
                Val::Num(l.to),
            ]),
        m("fr"@).contains(row) <==> row.len() == 2 && m("fx"@).contains(seq![row[0]])
            && row[1] is Num && 0 <= row[1]->Num_0 < g.n_nodes,
{
    let edges = stored_edges(p);
    lemma_endpoint_pairs(p, g, m, row);
    assert(row.len() == 2 ==> seq![row[1]][0] == row[1]);
    if m("fx"@).contains(row) {
        let t = choose|t: Row| #[trigger]
            m("path"@).contains(t) && t.len() == 2 && (row == seq![t[0]] || row == seq![t[1]]);
        lemma_paths(p, g, m, t);
        let l = choose|l: Link| t == #[trigger] link_row(l) && leads(edges, l);
        let w = choose|w: Seq<i64>| #[trigger]
            is_walk(edges, w) && w[0] == l.from && w.last() == l.to;
        let n = w.len() - 2;
        assert(goes(edges, w, 0));
        assert(goes(edges, w, n));
        assert(edges.contains(Link { from: w[0], to: w[1] }));
        assert(edges.contains(Link { from: w[n], to: w[n + 1] }));
        assert(t[0] == Val::Num(l.from) && t[1] == Val::Num(l.to));
    }
    if exists|l: Link| #[trigger]
        edges.contains(l) && (row == seq![Val::Num(l.from)] || row == seq![Val::Num(l.to)]) {
        let l = choose|l: Link| #[trigger]
            edges.contains(l) && (row == seq![Val::Num(l.from)] || row == seq![Val::Num(l.to)]);
        lemma_path_from_edge(p, g, m, l);
        let t = link_row(l);
        assert(t[0] == Val::Num(l.from) && t[1] == Val::Num(l.to) && t.len() == 2);
        assert(m("path"@).contains(t));
    }
}

/// A reading has a row that the only rule of a relation gives exactly where
/// the rule reads it.
proof fn lemma_gives_read(p: ProgramModel, g: GenParams, m: Reading, r: RuleModel, from: Name, row: Row)
    requires
        is_drawn(p, g),
        p.rules.contains(r),
        forall|q: RuleModel| #[trigger]
            p.rules.contains(q) && q.head_rel == r.head_rel ==> q == r,
        r.head_args == seq![v("X"@), v("Y"@)],
        r.body == seq![pair(from, "X"@, "Y"@)],
    ensures
        gives_row(p, m, r.head_rel, row) <==> row.len() == 2 && m(from).contains(row),
{
    lemma_names();
    if gives_row(p, m, r.head_rel, row) {
        let (q, theta) = choose|q: RuleModel, theta: Map<Name, Val>|
            p.rules.contains(q) && q.head_rel == r.head_rel && #[trigger] body_holds(
                m,
                q.body,
                theta,
            ) && row == head_row(q, theta);
        lemma_pair_row("X"@, "Y"@, theta);
        lemma_fired_reads_one(m, theta, from, "X"@, "Y"@);
    }
    if row.len() == 2 && m(from).contains(row) {
        let theta = two(row[0], row[1]);
        assert(row =~= seq![row[0], row[1]]);
        assert(theta["X"@] == row[0] && theta["Y"@] == row[1]);
        lemma_pair_row("X"@, "Y"@, theta);
        assert(literal_holds(m, r.body[0], theta));
        assert(body_holds(m, r.body, theta));
    }
}

/// What a drawn program counts are its paths, by their first places; what it
/// sums are the numbers of its items, by their keys.
#[verifier::rlimit(60)]
pub proof fn law_what_is_counted_and_summed(seed: u64, m: Reading, row: Row)
    requires
        is_model(drawn_program(seed), m),
    ensures
        params_at(seed).normal_aggr ==> (gives_row(drawn_program(seed), m, "reach_count"@, row)
            <==> row.len() == 2 && m("path"@).contains(row)),
        params_at(seed).bulk_aggr ==> (gives_row(drawn_program(seed), m, "bulk_sum"@, row)
            <==> stored_rows(drawn_program(seed).facts, "item"@).contains(row)),
        forall|r: RuleModel| #[trigger]
            drawn_program(seed).rules.contains(r) && r.head_rel == "reach_count"@ ==> r.aggr == seq![
                None,
                Some(Aggregation::Count),
            ],
        forall|r: RuleModel| #[trigger]
            drawn_program(seed).rules.contains(r) && r.head_rel == "bulk_sum"@ ==> r.aggr == seq![
                None,
                Some(Aggregation::Sum),
            ],
{
    lemma_is_drawn(seed);
    lemma_items_are_pairs(seed);
    lemma_counted_and_summed(drawn_program(seed), params_at(seed), m, row);
}

proof fn lemma_items_are_pairs(seed: u64)
    ensures
        forall|row: Row| #[trigger]
            stored_rows(drawn_program(seed).facts, "item"@).contains(row) ==> row.len() == 2,
{
    law_drawn_items(seed);
}

proof fn lemma_counted_and_summed(p: ProgramModel, g: GenParams, m: Reading, row: Row)
    requires
        is_drawn(p, g),
        is_model(p, m),
        forall|row: Row| #[trigger]
            stored_rows(p.facts, "item"@).contains(row) ==> row.len() == 2,
    ensures
        g.normal_aggr ==> (gives_row(p, m, "reach_count"@, row) <==> row.len() == 2 && m(
            "path"@,
        ).contains(row)),
        g.bulk_aggr ==> (gives_row(p, m, "bulk_sum"@, row) <==> stored_rows(
            p.facts,
            "item"@,
        ).contains(row)),
        forall|r: RuleModel| #[trigger]
            p.rules.contains(r) && r.head_rel == "reach_count"@ ==> r.aggr == seq![
                None,
                Some(Aggregation::Count),
            ],
        forall|r: RuleModel| #[trigger]
            p.rules.contains(r) && r.head_rel == "bulk_sum"@ ==> r.aggr == seq![
                None,
                Some(Aggregation::Sum),
            ],
{
    lemma_reader_rules(g);
    lemma_names();
    lemma_stored(p, g, m);
    assert forall|r: RuleModel| #[trigger]
        p.rules.contains(r) && r.head_rel == "reach_count"@ implies r == count_rule() by {
        lemma_heads(g, r);
    }
    assert forall|r: RuleModel| #[trigger]
        p.rules.contains(r) && r.head_rel == "bulk_sum"@ implies r == sum_rule() by {
        lemma_heads(g, r);
    }
    if g.normal_aggr {
        lemma_gives_read(p, g, m, count_rule(), "path"@, row);
    }
    if g.bulk_aggr {
        lemma_gives_read(p, g, m, sum_rule(), "item"@, row);
    }
}

/// Whether a relation has a pair.
pub open spec fn has_pair(m: Reading, rel: Name, a: Val, b: Val) -> bool {
    m(rel).contains(seq![a, b])
}

/// A node and a value as a pair of the meet: the value is first where the
/// program aggregates its first column.
pub open spec fn meet_pair(g: GenParams, node: Val, value: Val) -> Row {
    if g.meet_pos0 {
        seq![value, node]
    } else {
        seq![node, value]
    }
}

proof fn lemma_meet_rules(g: GenParams)
    ensures
        drawn_rules(g).contains(meet_rules(g)[0]),
        drawn_rules(g).contains(meet_rules(g)[1]),
{
    assert(meet_rules(g).contains(meet_rules(g)[0]));
    assert(meet_rules(g).contains(meet_rules(g)[1]));
    lemma_drawn_parts(g, meet_rules(g)[0]);
    lemma_drawn_parts(g, meet_rules(g)[1]);
}

proof fn lemma_meet_seeded(p: ProgramModel, g: GenParams, m: Reading, node: Val, value: Val)
    requires
        is_drawn(p, g),
        m("seed"@).contains(seq![node, value]),
    ensures
        gives_row(p, m, "m"@, meet_pair(g, node, value)),
{
    lemma_names();
    lemma_meet_rules(g);
    let r = meet_rules(g)[0];
    let theta = two(node, value);
    assert(theta["X"@] == node && theta["Y"@] == value);
    lemma_pair_row("X"@, "Y"@, theta);
    lemma_pair_row("Y"@, "X"@, theta);
    assert(literal_holds(m, r.body[0], theta));
    assert(body_holds(m, r.body, theta));
    assert(head_row(r, theta) == meet_pair(g, node, value));
}

proof fn lemma_meet_carried(
    p: ProgramModel,
    g: GenParams,
    m: Reading,
    from: Val,
    node: Val,
    value: Val,
)
    requires
        is_drawn(p, g),
        m("edge"@).contains(seq![from, node]),
        m("m"@).contains(meet_pair(g, from, value)),
    ensures
        gives_row(p, m, "m"@, meet_pair(g, node, value)),
{
    lemma_names();
    lemma_meet_rules(g);
    let r = meet_rules(g)[1];
    let theta = three(from, node, value);
    assert(theta["X"@] == from && theta["Y"@] == node && theta["Z"@] == value);
    lemma_pair_row("X"@, "Y"@, theta);
    lemma_pair_row("X"@, "Z"@, theta);
    lemma_pair_row("Z"@, "X"@, theta);
    lemma_pair_row("Y"@, "Z"@, theta);
    lemma_pair_row("Z"@, "Y"@, theta);
    assert(literal_holds(m, r.body[0], theta));
    assert(literal_holds(m, r.body[1], theta));
    assert(body_holds(m, r.body, theta));
    assert(head_row(r, theta) == meet_pair(g, node, value));
}

proof fn lemma_meet_given(p: ProgramModel, g: GenParams, m: Reading, row: Row) -> (t: (
    Option<Val>,
    Val,
    Val,
))
    requires
        is_drawn(p, g),
        gives_row(p, m, "m"@, row),
    ensures
        row == meet_pair(g, t.1, t.2),
        t.0 is None ==> m("seed"@).contains(seq![t.1, t.2]),
        t.0 matches Some(from) ==> m("edge"@).contains(seq![from, t.1]) && m("m"@).contains(
            meet_pair(g, from, t.2),
        ),
{
    let (r, theta) = choose|r: RuleModel, theta: Map<Name, Val>|
        p.rules.contains(r) && r.head_rel == "m"@ && #[trigger] body_holds(m, r.body, theta) && row
            == head_row(r, theta);
    lemma_heads(g, r);
    assert(r == meet_rules(g)[0] || r == meet_rules(g)[1]);
    lemma_pair_row("X"@, "Y"@, theta);
    lemma_pair_row("Y"@, "X"@, theta);
    assert(literal_holds(m, r.body[0], theta));
    if r == meet_rules(g)[0] {
        (None, theta["X"@], theta["Y"@])
    } else {
        lemma_pair_row("X"@, "Z"@, theta);
        lemma_pair_row("Z"@, "X"@, theta);
        lemma_pair_row("Y"@, "Z"@, theta);
        lemma_pair_row("Z"@, "Y"@, theta);
        assert(literal_holds(m, r.body[1], theta));
        (Some(theta["X"@]), theta["Y"@], theta["Z"@])
    }
}

/// A value comes to a node in the meet of a drawn program exactly where it is
/// a seed of the node, or comes along an edge from a node that has it. The
/// values are what is folded, by the program's meet, and the nodes are the
/// groups.
#[verifier::rlimit(40)]
pub proof fn law_meet_carries_seeds(seed: u64, m: Reading, node: Val, value: Val)
    ensures
        gives_row(drawn_program(seed), m, "m"@, meet_pair(params_at(seed), node, value)) <==> {
            ||| m("seed"@).contains(seq![node, value])
            ||| exists|from: Val|
                #[trigger] has_pair(m, "edge"@, from, node) && m("m"@).contains(
                    meet_pair(params_at(seed), from, value),
                )
        },
        forall|r: RuleModel| #[trigger]
            drawn_program(seed).rules.contains(r) && r.head_rel == "m"@ ==> r.aggr == (
            if params_at(seed).meet_pos0 {
                seq![Some(params_at(seed).meet_op), None]
            } else {
                seq![None, Some(params_at(seed).meet_op)]
            }),
{
    lemma_is_drawn(seed);
    lemma_meet_carries(drawn_program(seed), params_at(seed), m, node, value);
}

proof fn lemma_meet_carries(p: ProgramModel, g: GenParams, m: Reading, node: Val, value: Val)
    requires
        is_drawn(p, g),
    ensures
        gives_row(p, m, "m"@, meet_pair(g, node, value)) <==> {
            ||| m("seed"@).contains(seq![node, value])
            ||| exists|from: Val|
                #[trigger] has_pair(m, "edge"@, from, node) && m("m"@).contains(
                    meet_pair(g, from, value),
                )
        },
        forall|r: RuleModel| #[trigger]
            p.rules.contains(r) && r.head_rel == "m"@ ==> r.aggr == (if g.meet_pos0 {
                seq![Some(g.meet_op), None]
            } else {
                seq![None, Some(g.meet_op)]
            }),
{
    let row = meet_pair(g, node, value);
    if gives_row(p, m, "m"@, row) {
        let t = lemma_meet_given(p, g, m, row);
        assert(row[0] == meet_pair(g, t.1, t.2)[0] && row[1] == meet_pair(g, t.1, t.2)[1]);
        assert(t.1 == node && t.2 == value);
        if t.0 is Some {
            assert(has_pair(m, "edge"@, t.0->Some_0, node));
        }
    }
    if m("seed"@).contains(seq![node, value]) {
        lemma_meet_seeded(p, g, m, node, value);
    }
    if exists|from: Val|
        #[trigger] has_pair(m, "edge"@, from, node) && m("m"@).contains(meet_pair(g, from, value)) {
        let from = choose|from: Val|
            #[trigger] has_pair(m, "edge"@, from, node) && m("m"@).contains(meet_pair(g, from, value));
        lemma_meet_carried(p, g, m, from, node, value);
    }
    assert forall|r: RuleModel| #[trigger]
        p.rules.contains(r) && r.head_rel == "m"@ implies r.aggr == (if g.meet_pos0 {
        seq![Some(g.meet_op), None]
    } else {
        seq![None, Some(g.meet_op)]
    }) by {
        lemma_heads(g, r);
        assert(r == meet_rules(g)[0] || r == meet_rules(g)[1]);
    }
}

/// The variables of the two meets at once.
proof fn lemma_more_names()
    ensures
        "Lo"@.len() == 2 && "Lo"@[0] == 'L',
        "Hi"@.len() == 2 && "Hi"@[0] == 'H',
        "K"@.len() == 1 && "K"@[0] == 'K',
        "S"@.len() == 1 && "S"@[0] == 'S',
        "T"@.len() == 1 && "T"@[0] == 'T',
{
    reveal_strlit("Lo");
    reveal_strlit("Hi");
    reveal_strlit("K");
    reveal_strlit("S");
    reveal_strlit("T");
}

proof fn lemma_three_row(a: Name, b: Name, c: Name, theta: Map<Name, Val>)
    ensures
        grounded(seq![v(a), v(b), v(c)], theta) == seq![theta[a], theta[b], theta[c]],
{
    assert(grounded(seq![v(a), v(b), v(c)], theta) =~= seq![theta[a], theta[b], theta[c]]);
}

proof fn lemma_double_rules(g: GenParams)
    requires
        g.meet_interleaved,
    ensures
        drawn_rules(g).contains(interleaved_rules(g)[0]),
        drawn_rules(g).contains(interleaved_rules(g)[1]),
{
    let rs = interleaved_rules(g);
    assert(rs.contains(rs[0]));
    assert(rs.contains(rs[1]));
    lemma_drawn_parts(g, rs[0]);
    lemma_drawn_parts(g, rs[1]);
}

proof fn lemma_double_carries(p: ProgramModel, g: GenParams, m: Reading, node: Val, lo: Val, hi: Val)
    requires
        is_drawn(p, g),
        g.meet_interleaved,
    ensures
        gives_row(p, m, "mi"@, seq![lo, node, hi]) <==> {
            ||| m("seed3"@).contains(seq![node, lo, hi])
            ||| exists|from: Val|
                #[trigger] has_pair(m, "edge"@, from, node) && m("mi"@).contains(seq![lo, from, hi])
        },
        forall|r: RuleModel| #[trigger]
            p.rules.contains(r) && r.head_rel == "mi"@ ==> r.aggr == seq![
                Some(Aggregation::Min),
                None,
                Some(Aggregation::Max),
            ],
{
    let row = seq![lo, node, hi];
    let one = interleaved_rules(g)[0];
    let next = interleaved_rules(g)[1];
    lemma_double_rules(g);
    lemma_more_names();
    if gives_row(p, m, "mi"@, row) {
        let (r, theta) = choose|r: RuleModel, theta: Map<Name, Val>|
            p.rules.contains(r) && r.head_rel == "mi"@ && #[trigger] body_holds(m, r.body, theta)
                && row == head_row(r, theta);
        lemma_heads(g, r);
        assert(r == one || r == next);
        assert(literal_holds(m, r.body[0], theta));
        assert(row[0] == lo && row[1] == node && row[2] == hi);
        if r == one {
            lemma_three_row("Lo"@, "K"@, "Hi"@, theta);
            lemma_three_row("K"@, "Lo"@, "Hi"@, theta);
        } else {
            lemma_three_row("Lo"@, "T"@, "Hi"@, theta);
            lemma_three_row("Lo"@, "S"@, "Hi"@, theta);
            lemma_pair_row("S"@, "T"@, theta);
            assert(literal_holds(m, r.body[1], theta));
            assert(has_pair(m, "edge"@, theta["S"@], node));
        }
    }
    if m("seed3"@).contains(seq![node, lo, hi]) {
        let theta = Map::empty().insert("K"@, node).insert("Lo"@, lo).insert("Hi"@, hi);
        assert(theta["K"@] == node && theta["Lo"@] == lo && theta["Hi"@] == hi);
        lemma_three_row("Lo"@, "K"@, "Hi"@, theta);
        lemma_three_row("K"@, "Lo"@, "Hi"@, theta);
        assert(literal_holds(m, one.body[0], theta));
        assert(body_holds(m, one.body, theta));
        assert(head_row(one, theta) == row);
    }
    if exists|from: Val|
        #[trigger] has_pair(m, "edge"@, from, node) && m("mi"@).contains(seq![lo, from, hi]) {
        let from = choose|from: Val|
            #[trigger] has_pair(m, "edge"@, from, node) && m("mi"@).contains(seq![lo, from, hi]);
        let theta = Map::empty().insert("T"@, node).insert("S"@, from).insert("Lo"@, lo).insert(
            "Hi"@,
            hi,
        );
        assert(theta["T"@] == node && theta["S"@] == from && theta["Lo"@] == lo && theta["Hi"@]
            == hi);
        lemma_three_row("Lo"@, "T"@, "Hi"@, theta);
        lemma_three_row("Lo"@, "S"@, "Hi"@, theta);
        lemma_pair_row("S"@, "T"@, theta);
        assert(literal_holds(m, next.body[0], theta));
        assert(literal_holds(m, next.body[1], theta));
        assert(body_holds(m, next.body, theta));
        assert(head_row(next, theta) == row);
    }
    assert forall|r: RuleModel| #[trigger]
        p.rules.contains(r) && r.head_rel == "mi"@ implies r.aggr == seq![
        Some(Aggregation::Min),
        None,
        Some(Aggregation::Max),
    ] by {
        lemma_heads(g, r);
        assert(r == one || r == next);
    }
}

/// Where a drawn program has two meets at once, two values come to a node
/// exactly where they are a seed of the node, or come along an edge from a
/// node that has them. The first are folded to the least, the last to the
/// greatest, and the nodes between them are the groups.
#[verifier::rlimit(40)]
pub proof fn law_double_meet_carries_seeds(seed: u64, m: Reading, node: Val, lo: Val, hi: Val)
    requires
        params_at(seed).meet_interleaved,
    ensures
        gives_row(drawn_program(seed), m, "mi"@, seq![lo, node, hi]) <==> {
            ||| m("seed3"@).contains(seq![node, lo, hi])
            ||| exists|from: Val|
                #[trigger] has_pair(m, "edge"@, from, node) && m("mi"@).contains(seq![lo, from, hi])
        },
        forall|r: RuleModel| #[trigger]
            drawn_program(seed).rules.contains(r) && r.head_rel == "mi"@ ==> r.aggr == seq![
                Some(Aggregation::Min),
                None,
                Some(Aggregation::Max),
            ],
{
    lemma_is_drawn(seed);
    lemma_double_carries(drawn_program(seed), params_at(seed), m, node, lo, hi);
}

} // verus!
