//! Writing rules and writes out as words, and reading them back.

use vstd::prelude::*;
use crate::lex::{Bracket, Tok};
use crate::names::Name;
use crate::plan::DeltaAxis;
use crate::script::{
    arg_list, atom, atoms, bracketed, clause, closes, column, columns, first_at, first_close,
    first_of, head, is_at, rule, rules, ArgModel, AtomModel, ClauseModel, RuleModel, WriteModel,
};

verus! {

/// An argument as a word.
pub open spec fn arg_out(a: ArgModel) -> Tok {
    match a {
        ArgModel::Var(n) => Tok::Word(n),
        ArgModel::Int(i) => Tok::Int(i),
    }
}

/// Arguments as words, with a comma between each two.
pub open spec fn args_out(args: Seq<ArgModel>) -> Seq<Tok>
    decreases args.len(),
{
    if args.len() == 0 {
        Seq::empty()
    } else if args.len() == 1 {
        seq![arg_out(args[0])]
    } else {
        args_out(args.drop_last()) + seq![Tok::Comma, arg_out(args.last())]
    }
}

/// A word that arguments are written with.
spec fn is_plain_word(t: Tok) -> bool {
    t is Word || t is Int || t is Comma
}

spec fn all_plain(ts: Seq<Tok>) -> bool {
    forall|i: int| 0 <= i < ts.len() ==> is_plain_word(#[trigger] ts[i])
}

proof fn lemma_args_out(args: Seq<ArgModel>)
    ensures
        arg_list(args_out(args)) == Some(args),
        args_out(args).len() == (if args.len() == 0 {
            0
        } else {
            2 * args.len() - 1
        }),
        all_plain(args_out(args)),
    decreases args.len(),
{
    let ts = args_out(args);
    if args.len() == 0 {
        assert(args =~= Seq::<ArgModel>::empty());
    } else if args.len() == 1 {
        assert(args =~= seq![args[0]]);
    } else {
        let front = args_out(args.drop_last());
        lemma_args_out(args.drop_last());
        assert(ts.take(ts.len() - 2) =~= front);
        assert(ts[ts.len() - 2] == Tok::Comma);
        assert(ts.last() == arg_out(args.last()));
        assert(args.drop_last().push(args.last()) =~= args);
        assert forall|i: int| 0 <= i < ts.len() implies is_plain_word(#[trigger] ts[i]) by {
            if i < front.len() {
                assert(ts[i] == front[i]);
            }
        }
    }
}

/// Words that read as arguments are those arguments written out.
proof fn lemma_args_in(ts: Seq<Tok>)
    requires
        arg_list(ts) is Some,
    ensures
        ts == args_out(arg_list(ts)->Some_0),
    decreases ts.len(),
{
    if ts.len() == 0 {
        assert(ts =~= args_out(Seq::empty()));
    } else if ts.len() == 1 {
        assert(ts =~= args_out(arg_list(ts)->Some_0));
    } else {
        let front = ts.take(ts.len() - 2);
        let args = arg_list(ts)->Some_0;
        lemma_args_in(front);
        assert(args.drop_last() =~= arg_list(front)->Some_0);
        assert(front.len() > 0);
        assert(args.len() >= 2);
        assert(ts =~= front + seq![Tok::Comma, arg_out(args.last())]);
    }
}

/// Whether a clause can be written: a time of the system cannot be given with
/// an instant alone.
pub open spec fn is_writable(c: ClauseModel) -> bool {
    c matches ClauseModel::At(at) ==> at.sys == i64::MAX
}

/// A validity clause as words.
pub open spec fn clause_out(c: ClauseModel) -> Seq<Tok> {
    match c {
        ClauseModel::At(at) => seq![Tok::At, Tok::Int(at.valid)],
        ClauseModel::Spans { sys, var } => seq![
            Tok::AtWord("spans"@),
            Tok::Word(var),
            Tok::Comma,
            Tok::Int(sys),
        ],
        ClauseModel::Delta { axis, from, to, var } => seq![
            Tok::AtWord(
                match axis {
                    DeltaAxis::Valid => "delta"@,
                    DeltaAxis::Sys => "delta_sys"@,
                },
            ),
            Tok::Open(Bracket::Round),
            Tok::Int(from),
            Tok::Comma,
            Tok::Int(to),
            Tok::Close(Bracket::Round),
            Tok::Word(var),
        ],
    }
}

/// A validity clause that is written out reads as it was.
pub proof fn law_clause_reads_back(c: ClauseModel)
    requires
        is_writable(c),
    ensures
        clause(clause_out(c)) == Some(c),
{
    reveal_strlit("delta");
    reveal_strlit("delta_sys");
    assert("delta"@.len() == 5);
    assert("delta_sys"@.len() == 9);
}

/// Spans without a time of the system are those of its newest time.
pub proof fn law_spans_default_to_newest(var: Name)
    ensures
        clause(seq![Tok::AtWord("spans"@), Tok::Word(var)]) == Some(
            ClauseModel::Spans { sys: i64::MAX, var },
        ),
{
}

/// What stands in the brackets of an atom, as words.
pub open spec fn bracketed_out(args: Seq<ArgModel>, validity: Option<ClauseModel>) -> Seq<Tok> {
    args_out(args) + (match validity {
        None => Seq::empty(),
        Some(c) => clause_out(c),
    })
}

proof fn lemma_first_at(ts: Seq<Tok>, i: int, k: int)
    requires
        0 <= i <= k <= ts.len(),
        forall|j: int| i <= j < k ==> !is_at(#[trigger] ts[j]),
        k < ts.len() ==> is_at(ts[k]),
    ensures
        first_at(ts, i) == k,
    decreases k - i,
{
    if i < k {
        assert(!is_at(ts[i]));
        lemma_first_at(ts, i + 1, k);
    }
}

proof fn lemma_first_close(ts: Seq<Tok>, i: int, k: int)
    requires
        0 <= i <= k < ts.len(),
        forall|j: int| i <= j < k ==> !closes(#[trigger] ts[j]),
        closes(ts[k]),
    ensures
        first_close(ts, i) == k,
    decreases k - i,
{
    if i < k {
        assert(!closes(ts[i]));
        lemma_first_close(ts, i + 1, k);
    }
}

proof fn lemma_first_of(ts: Seq<Tok>, t: Tok, i: int, k: int)
    requires
        0 <= i <= k <= ts.len(),
        forall|j: int| i <= j < k ==> #[trigger] ts[j] != t,
        k < ts.len() ==> ts[k] == t,
    ensures
        first_of(ts, t, i) == k,
    decreases k - i,
{
    if i < k {
        assert(ts[i] != t);
        lemma_first_of(ts, t, i + 1, k);
    }
}

/// Whether a validity clause can stand in an atom and can be written.
pub open spec fn may_stand(validity: Option<ClauseModel>, stored: bool) -> bool {
    validity matches Some(c) ==> stored && is_writable(c)
}

proof fn lemma_bracketed_out(args: Seq<ArgModel>, validity: Option<ClauseModel>, stored: bool)
    requires
        may_stand(validity, stored),
    ensures
        bracketed(bracketed_out(args, validity), stored) == Some((args, validity)),
        forall|i: int|
            0 <= i < bracketed_out(args, validity).len() ==> is_inner(
                #[trigger] bracketed_out(args, validity)[i],
            ),
{
    let ts = bracketed_out(args, validity);
    let front = args_out(args);
    lemma_args_out(args);
    let n = front.len() as int;
    assert forall|j: int| 0 <= j < n implies !is_at(#[trigger] ts[j]) by {
        assert(ts[j] == front[j]);
        assert(is_plain_word(front[j]));
    }
    assert forall|i: int| 0 <= i < ts.len() implies is_inner(#[trigger] ts[i]) by {
        if i < n {
            assert(ts[i] == front[i]);
            assert(is_plain_word(front[i]));
        }
    }
    assert(ts.take(n) =~= front);
    match validity {
        None => {
            assert(ts =~= front);
            lemma_first_at(ts, 0, n);
        },
        Some(c) => {
            law_clause_reads_back(c);
            assert(ts[n] == clause_out(c)[0]);
            lemma_first_at(ts, 0, n);
            assert(ts.skip(n) =~= clause_out(c));
        },
    }
}

/// A word that can stand in the brackets of an atom.
spec fn is_inner(t: Tok) -> bool {
    is_plain_word(t) || t is At || t is AtWord || t == Tok::Open(Bracket::Round) || t == Tok::Close(
        Bracket::Round,
    )
}

/// An atom as words, in brackets of a kind.
pub open spec fn atom_out(a: AtomModel, b: Bracket) -> Seq<Tok> {
    (if a.negated {
        seq![Tok::Word("not"@)]
    } else {
        Seq::empty()
    }) + (if a.stored {
        seq![Tok::Star]
    } else {
        Seq::empty()
    }) + seq![Tok::Word(a.name), Tok::Open(b)] + bracketed_out(a.args, a.validity) + seq![
        Tok::Close(b),
    ]
}

/// Whether an atom can be written in brackets of a kind: braces are for
/// stored relations, and so are validity clauses.
pub open spec fn is_writable_atom(a: AtomModel, b: Bracket) -> bool {
    &&& may_stand(a.validity, a.stored)
    &&& b is Square || b is Brace && a.stored
}

/// An atom that is written out reads as it was.
pub proof fn law_atom_reads_back(a: AtomModel, b: Bracket)
    requires
        is_writable_atom(a, b),
    ensures
        atom(atom_out(a, b)) == Some(a),
{
    let ts = atom_out(a, b);
    let inner = bracketed_out(a.args, a.validity);
    let core = seq![Tok::Word(a.name), Tok::Open(b)] + inner + seq![Tok::Close(b)];
    lemma_bracketed_out(a.args, a.validity, a.stored);
    assert(core.subrange(2, core.len() - 1) =~= inner);
    assert(core[0] == Tok::Word(a.name) && core[1] == Tok::Open(b) && core.last() == Tok::Close(b));
    let rest = if a.stored {
        seq![Tok::Star] + core
    } else {
        core
    };
    if a.stored {
        assert(rest.skip(1) =~= core);
    }
    if a.negated {
        assert(ts =~= seq![Tok::Word("not"@)] + rest);
        assert(ts.skip(1) =~= rest);
        assert(ts[1] == rest[0]);
    } else {
        assert(ts =~= rest);
    }
}

/// An atom of a rule with a validity clause does not read, nor does one in
/// braces.
pub proof fn law_rule_atoms_are_bare(a: AtomModel, b: Bracket)
    requires
        !a.stored,
        a.validity is Some && is_writable(a.validity->Some_0) || a.validity is None && b is Brace,
    ensures
        atom(atom_out(a, b)) is None,
{
    let ts = atom_out(a, b);
    let inner = bracketed_out(a.args, a.validity);
    let core = seq![Tok::Word(a.name), Tok::Open(b)] + inner + seq![Tok::Close(b)];
    lemma_bracketed_out(a.args, a.validity, true);
    assert(core.subrange(2, core.len() - 1) =~= inner);
    assert(core[0] == Tok::Word(a.name) && core[1] == Tok::Open(b) && core.last() == Tok::Close(b));
    if a.negated {
        assert(ts =~= seq![Tok::Word("not"@)] + core);
        assert(ts.skip(1) =~= core);
        assert(ts[1] == core[0]);
    } else {
        assert(ts =~= core);
        if ts[0] == Tok::Word("not"@) && b is Brace {
            assert(ts.skip(1)[0] == Tok::Open(b));
        }
    }
    if a.validity is Some {
        let c = a.validity->Some_0;
        let n = args_out(a.args).len() as int;
        lemma_args_out(a.args);
        assert forall|j: int| 0 <= j < n implies !is_at(#[trigger] inner[j]) by {
            assert(inner[j] == args_out(a.args)[j]);
            assert(is_plain_word(args_out(a.args)[j]));
        }
        assert(inner[n] == clause_out(c)[0]);
        lemma_first_at(inner, 0, n);
    }
}

/// The words of an atom: only the last closes it, and none ends a head or a
/// rule.
proof fn lemma_atom_words(a: AtomModel, b: Bracket)
    requires
        is_writable_atom(a, b),
    ensures
        atom_out(a, b).len() >= 3,
        closes(atom_out(a, b).last()),
        forall|i: int|
            0 <= i < atom_out(a, b).len() - 1 ==> !closes(#[trigger] atom_out(a, b)[i]),
        forall|i: int|
            0 <= i < atom_out(a, b).len() ==> #[trigger] atom_out(a, b)[i] != Tok::Semicolon
                && atom_out(a, b)[i] != Tok::Define,
{
    let ts = atom_out(a, b);
    let inner = bracketed_out(a.args, a.validity);
    lemma_bracketed_out(a.args, a.validity, a.stored);
    let k = ts.len() - 1 - inner.len();
    assert forall|i: int| k <= i < ts.len() - 1 implies #[trigger] ts[i] == inner[i - k] by {}
    assert forall|i: int| 0 <= i < ts.len() - 1 implies !closes(#[trigger] ts[i]) && ts[i]
        != Tok::Semicolon && ts[i] != Tok::Define by {
        if i >= k {
            assert(ts[i] == inner[i - k]);
            assert(is_inner(inner[i - k]));
        }
    }
}

/// Atoms as words, each in brackets of a kind, with a comma between each two.
pub open spec fn atoms_out(body: Seq<AtomModel>, bs: Seq<Bracket>) -> Seq<Tok>
    decreases body.len(),
{
    if body.len() == 0 {
        Seq::empty()
    } else if body.len() == 1 {
        atom_out(body[0], bs[0])
    } else {
        atom_out(body[0], bs[0]) + seq![Tok::Comma] + atoms_out(body.drop_first(), bs.drop_first())
    }
}

/// Whether a body can be written with brackets of some kinds.
pub open spec fn is_writable_body(body: Seq<AtomModel>, bs: Seq<Bracket>) -> bool {
    &&& body.len() > 0
    &&& bs.len() == body.len()
    &&& forall|i: int| 0 <= i < body.len() ==> is_writable_atom(#[trigger] body[i], bs[i])
}

/// A body that is written out reads as it was.
pub proof fn law_body_reads_back(body: Seq<AtomModel>, bs: Seq<Bracket>)
    requires
        is_writable_body(body, bs),
    ensures
        atoms(atoms_out(body, bs)) == Some(body),
        forall|i: int|
            0 <= i < atoms_out(body, bs).len() ==> #[trigger] atoms_out(body, bs)[i]
                != Tok::Semicolon && atoms_out(body, bs)[i] != Tok::Define,
    decreases body.len(),
{
    let ts = atoms_out(body, bs);
    let first = atom_out(body[0], bs[0]);
    let end = first.len() - 1;
    assert(is_writable_atom(body[0], bs[0]));
    law_atom_reads_back(body[0], bs[0]);
    lemma_atom_words(body[0], bs[0]);
    assert(ts.take(end + 1) =~= first);
    assert forall|j: int| 0 <= j < end implies !closes(#[trigger] ts[j]) by {
        assert(ts[j] == first[j]);
    }
    assert(ts[end] == first[end]);
    lemma_first_close(ts, 0, end);
    if body.len() == 1 {
        assert(seq![body[0]] =~= body);
    } else {
        let more = body.drop_first();
        let kinds = bs.drop_first();
        assert forall|i: int| 0 <= i < more.len() implies is_writable_atom(
            #[trigger] more[i],
            kinds[i],
        ) by {
            assert(more[i] == body[i + 1]);
        }
        law_body_reads_back(more, kinds);
        assert(ts[end + 1] == Tok::Comma);
        assert(ts.skip(end + 2) =~= atoms_out(more, kinds));
        assert(seq![body[0]] + more =~= body);
    }
    assert forall|i: int| 0 <= i < ts.len() implies #[trigger] ts[i] != Tok::Semicolon && ts[i]
        != Tok::Define by {
        if i <= end {
            assert(ts[i] == first[i]);
        } else if i > end + 1 {
            assert(ts[i] == atoms_out(body.drop_first(), bs.drop_first())[i - end - 2]);
        }
    }
}

/// A head as words: a question mark or a name, and its arguments in square
/// brackets.
pub open spec fn head_out(name: Option<Name>, args: Seq<ArgModel>) -> Seq<Tok> {
    seq![
        match name {
            None => Tok::Query,
            Some(n) => Tok::Word(n),
        },
        Tok::Open(Bracket::Square),
    ] + args_out(args) + seq![Tok::Close(Bracket::Square)]
}

/// A head that is written out reads as it was, and what reads as a head is
/// that head written out.
pub proof fn law_head_reads_back(name: Option<Name>, args: Seq<ArgModel>, ts: Seq<Tok>)
    ensures
        head(head_out(name, args)) == Some((name, args)),
        head(ts) == Some((name, args)) ==> ts == head_out(name, args),
{
    let out = head_out(name, args);
    lemma_args_out(args);
    assert(out.subrange(2, out.len() - 1) =~= args_out(args));
    assert(out.last() == Tok::Close(Bracket::Square));
    if head(ts) == Some((name, args)) {
        let inner = ts.subrange(2, ts.len() - 1);
        lemma_args_in(inner);
        assert(ts =~= seq![ts[0], ts[1]] + inner + seq![ts.last()]);
        assert(ts =~= out);
    }
}

/// A rule with a head and any words for its body reads exactly where the
/// words read as a body, and then has that head's name and arguments, in
/// their order, and that body.
pub proof fn law_rule_has_its_head(name: Option<Name>, args: Seq<ArgModel>, body: Seq<Tok>)
    ensures
        rule(head_out(name, args) + seq![Tok::Define] + body) == (match atoms(body) {
            None => None::<RuleModel>,
            Some(b) => Some(RuleModel { head: name, args, body: b }),
        }),
{
    let h = head_out(name, args);
    let ts = h + seq![Tok::Define] + body;
    let n = h.len() as int;
    law_head_reads_back(name, args, h);
    lemma_args_out(args);
    assert forall|j: int| 0 <= j < n implies #[trigger] ts[j] != Tok::Define by {
        assert(ts[j] == h[j]);
        if 2 <= j < n - 1 {
            assert(h[j] == args_out(args)[j - 2]);
            assert(is_plain_word(args_out(args)[j - 2]));
        }
    }
    assert(ts[n] == Tok::Define);
    lemma_first_of(ts, Tok::Define, 0, n);
    assert(ts.take(n) =~= h);
    assert(ts.skip(n + 1) =~= body);
}

/// Words that read as a rule begin with the rule's head written out, and the
/// words behind the definition sign read as its body.
pub proof fn law_rule_comes_from_its_head(ts: Seq<Tok>)
    requires
        rule(ts) is Some,
    ensures
        exists|body: Seq<Tok>|
            ts == #[trigger] (head_out(rule(ts)->Some_0.head, rule(ts)->Some_0.args) + seq![
                Tok::Define,
            ] + body) && atoms(body) == Some(rule(ts)->Some_0.body),
{
    let r = rule(ts)->Some_0;
    let d = first_of(ts, Tok::Define, 0);
    lemma_found_of(ts, Tok::Define, 0);
    law_head_reads_back(r.head, r.args, ts.take(d));
    let body = ts.skip(d + 1);
    assert(ts =~= ts.take(d) + seq![Tok::Define] + body);
    assert(ts == head_out(r.head, r.args) + seq![Tok::Define] + body);
}

proof fn lemma_found_of(ts: Seq<Tok>, t: Tok, i: int)
    requires
        0 <= i <= ts.len(),
    ensures
        i <= first_of(ts, t, i) <= ts.len(),
        first_of(ts, t, i) < ts.len() ==> ts[first_of(ts, t, i)] == t,
    decreases ts.len() - i,
{
    if i < ts.len() && ts[i] != t {
        lemma_found_of(ts, t, i + 1);
    }
}

/// A rule as words.
pub open spec fn rule_out(r: RuleModel, bs: Seq<Bracket>) -> Seq<Tok> {
    head_out(r.head, r.args) + seq![Tok::Define] + atoms_out(r.body, bs)
}

/// A rule that is written out reads as it was.
pub proof fn law_rule_reads_back(r: RuleModel, bs: Seq<Bracket>)
    requires
        is_writable_body(r.body, bs),
    ensures
        rule(rule_out(r, bs)) == Some(r),
{
    law_body_reads_back(r.body, bs);
    law_rule_has_its_head(r.head, r.args, atoms_out(r.body, bs));
}

proof fn lemma_rule_words(r: RuleModel, bs: Seq<Bracket>)
    requires
        is_writable_body(r.body, bs),
    ensures
        rule_out(r, bs).len() > 0,
        rule_out(r, bs)[0] is Query || rule_out(r, bs)[0] is Word,
        forall|i: int|
            0 <= i < rule_out(r, bs).len() ==> #[trigger] rule_out(r, bs)[i] != Tok::Semicolon,
{
    let ts = rule_out(r, bs);
    let h = head_out(r.head, r.args);
    let n = h.len() as int;
    law_body_reads_back(r.body, bs);
    lemma_args_out(r.args);
    assert(ts[0] == h[0]);
    assert forall|i: int| 0 <= i < ts.len() implies #[trigger] ts[i] != Tok::Semicolon by {
        if i < n {
            assert(ts[i] == h[i]);
            if 2 <= i < n - 1 {
                assert(h[i] == args_out(r.args)[i - 2]);
                assert(is_plain_word(args_out(r.args)[i - 2]));
            }
        } else if i > n {
            assert(ts[i] == atoms_out(r.body, bs)[i - n - 1]);
        }
    }
}

/// Rules as words, with a semicolon between each two.
pub open spec fn rules_out(rs: Seq<RuleModel>, bs: Seq<Seq<Bracket>>) -> Seq<Tok>
    decreases rs.len(),
{
    if rs.len() == 0 {
        Seq::empty()
    } else if rs.len() == 1 {
        rule_out(rs[0], bs[0])
    } else {
        rule_out(rs[0], bs[0]) + seq![Tok::Semicolon] + rules_out(rs.drop_first(), bs.drop_first())
    }
}

/// Whether rules can be written with brackets of some kinds.
pub open spec fn are_writable(rs: Seq<RuleModel>, bs: Seq<Seq<Bracket>>) -> bool {
    &&& rs.len() > 0
    &&& bs.len() == rs.len()
    &&& forall|i: int| 0 <= i < rs.len() ==> is_writable_body((#[trigger] rs[i]).body, bs[i])
}

/// Rules that are written out read as they were.
pub proof fn law_rules_read_back(rs: Seq<RuleModel>, bs: Seq<Seq<Bracket>>)
    requires
        are_writable(rs, bs),
    ensures
        rules(rules_out(rs, bs)) == Some(rs),
        rules_out(rs, bs).len() > 0,
        rules_out(rs, bs)[0] is Query || rules_out(rs, bs)[0] is Word,
    decreases rs.len(),
{
    let ts = rules_out(rs, bs);
    let first = rule_out(rs[0], bs[0]);
    let n = first.len() as int;
    assert(is_writable_body(rs[0].body, bs[0]));
    law_rule_reads_back(rs[0], bs[0]);
    lemma_rule_words(rs[0], bs[0]);
    assert(ts[0] == first[0]);
    assert forall|j: int| 0 <= j < n implies #[trigger] ts[j] != Tok::Semicolon by {
        assert(ts[j] == first[j]);
    }
    if rs.len() == 1 {
        lemma_first_of(ts, Tok::Semicolon, 0, n);
        assert(seq![rs[0]] =~= rs);
    } else {
        let more = rs.drop_first();
        let kinds = bs.drop_first();
        assert forall|i: int| 0 <= i < more.len() implies is_writable_body(
            (#[trigger] more[i]).body,
            kinds[i],
        ) by {
            assert(more[i] == rs[i + 1]);
        }
        law_rules_read_back(more, kinds);
        assert(ts[n] == Tok::Semicolon);
        lemma_first_of(ts, Tok::Semicolon, 0, n);
        assert(ts.take(n) =~= first);
        assert(ts.skip(n + 1) =~= rules_out(more, kinds));
        assert(seq![rs[0]] + more =~= rs);
    }
}

/// A column as words: its name, and its type if it is given.
pub open spec fn column_out(name: Name, ty: Option<Name>) -> Seq<Tok> {
    match ty {
        None => seq![Tok::Word(name)],
        Some(t) => seq![Tok::Word(name), Tok::Colon, Tok::Word(t)],
    }
}

/// Columns as words, with a comma between each two.
pub open spec fn columns_out(names: Seq<Name>, types: Seq<Option<Name>>) -> Seq<Tok>
    decreases names.len(),
{
    if names.len() == 0 {
        Seq::empty()
    } else if names.len() == 1 {
        column_out(names[0], types[0])
    } else {
        column_out(names[0], types[0]) + seq![Tok::Comma] + columns_out(
            names.drop_first(),
            types.drop_first(),
        )
    }
}

/// Columns that are written out, with or without types, read as their names.
pub proof fn law_columns_read_back(names: Seq<Name>, types: Seq<Option<Name>>)
    requires
        names.len() > 0,
        types.len() == names.len(),
    ensures
        columns(columns_out(names, types)) == Some(names),
        forall|i: int|
            0 <= i < columns_out(names, types).len() ==> #[trigger] columns_out(names, types)[i]
                != Tok::Close(Bracket::Brace),
    decreases names.len(),
{
    let ts = columns_out(names, types);
    let first = column_out(names[0], types[0]);
    let n = first.len() as int;
    assert(column(first) == Some(names[0]));
    assert forall|j: int| 0 <= j < n implies #[trigger] ts[j] != Tok::Comma && ts[j] != Tok::Close(
        Bracket::Brace,
    ) by {
        assert(ts[j] == first[j]);
    }
    if names.len() == 1 {
        lemma_first_of(ts, Tok::Comma, 0, n);
        assert(seq![names[0]] =~= names);
    } else {
        let more = columns_out(names.drop_first(), types.drop_first());
        law_columns_read_back(names.drop_first(), types.drop_first());
        assert(ts[n] == Tok::Comma);
        lemma_first_of(ts, Tok::Comma, 0, n);
        assert(ts.take(n) =~= first);
        assert(ts.skip(n + 1) =~= more);
        assert(seq![names[0]] + names.drop_first() =~= names);
        assert forall|i: int| 0 <= i < ts.len() implies #[trigger] ts[i] != Tok::Close(
            Bracket::Brace,
        ) by {
            if i > n {
                assert(ts[i] == more[i - n - 1]);
            }
        }
    }
}

/// A write as words.
pub open spec fn write_out(w: WriteModel, types: Seq<Option<Name>>) -> Seq<Tok> {
    seq![Tok::Colon, Tok::Word(w.op), Tok::Word(w.relation), Tok::Open(Bracket::Brace)]
        + columns_out(w.columns, types) + seq![Tok::Close(Bracket::Brace)] + (match w.at {
        None => Seq::empty(),
        Some(t) => seq![Tok::At, Tok::Int(t)],
    })
}

/// A write that is written out reads as it was.
pub proof fn law_write_reads_back(w: WriteModel, types: Seq<Option<Name>>)
    requires
        w.columns.len() > 0,
        types.len() == w.columns.len(),
    ensures
        crate::script::write(write_out(w, types)) == Some(w),
{
    let ts = write_out(w, types);
    let cols = columns_out(w.columns, types);
    law_columns_read_back(w.columns, types);
    let end = 4 + cols.len() as int;
    assert forall|j: int| 4 <= j < end implies #[trigger] ts[j] != Tok::Close(Bracket::Brace) by {
        assert(ts[j] == cols[j - 4]);
    }
    assert(ts[end] == Tok::Close(Bracket::Brace));
    lemma_first_of(ts, Tok::Close(Bracket::Brace), 4, end);
    assert(ts.subrange(4, end) =~= cols);
    match w.at {
        None => {},
        Some(t) => {
            assert(ts[end + 1] == Tok::At);
            assert(ts[end + 2] == Tok::Int(t));
        },
    }
}

/// A write with any other validity clause than an instant does not read.
pub proof fn law_writes_take_instants_alone(
    w: WriteModel,
    types: Seq<Option<Name>>,
    c: ClauseModel,
)
    requires
        w.columns.len() > 0,
        types.len() == w.columns.len(),
        w.at is None,
        !(c is At),
    ensures
        crate::script::write(write_out(w, types) + clause_out(c)) is None,
{
    let ts = write_out(w, types) + clause_out(c);
    let cols = columns_out(w.columns, types);
    law_columns_read_back(w.columns, types);
    let end = 4 + cols.len() as int;
    assert forall|j: int| 4 <= j < end implies #[trigger] ts[j] != Tok::Close(Bracket::Brace) by {
        assert(ts[j] == cols[j - 4]);
    }
    assert(ts[end] == Tok::Close(Bracket::Brace));
    lemma_first_of(ts, Tok::Close(Bracket::Brace), 4, end);
    assert(ts[end + 1] == clause_out(c)[0]);
}

} // verus!
