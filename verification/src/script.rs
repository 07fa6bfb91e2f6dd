//! The grammar of queries: where a validity clause may stand, and how it
//! reads.

use vstd::prelude::*;
use crate::history::AsOf;
use crate::lex::{split_words, words, Bracket, Tok, Token};
use crate::names::{names, Name};
use crate::plan::{DeltaAxis, ValidityClause};

verus! {

/// The model of a [`ValidityClause`].
pub enum ClauseModel {
    At(AsOf),
    Spans { sys: i64, var: Name },
    Delta { axis: DeltaAxis, from: i64, to: i64, var: Name },
}

impl DeepView for ValidityClause {
    type V = ClauseModel;

    open spec fn deep_view(&self) -> ClauseModel {
        match *self {
            ValidityClause::At(at) => ClauseModel::At(at),
            ValidityClause::Spans { sys, var } => ClauseModel::Spans { sys, var: var@ },
            ValidityClause::Delta { axis, from, to, var } => ClauseModel::Delta {
                axis,
                from,
                to,
                var: var@,
            },
        }
    }
}

/// An argument of an atom or a head.
#[derive(Debug)]
pub enum Arg {
    Var(String),
    Int(i64),
}

/// The model of an [`Arg`].
pub enum ArgModel {
    Var(Name),
    Int(i64),
}

impl DeepView for Arg {
    type V = ArgModel;

    open spec fn deep_view(&self) -> ArgModel {
        match *self {
            Arg::Var(s) => ArgModel::Var(s@),
            Arg::Int(n) => ArgModel::Int(n),
        }
    }
}

/// An atom of a rule body. Only a stored relation can have a validity clause.
#[derive(Debug)]
pub struct AtomText {
    pub negated: bool,
    pub stored: bool,
    pub name: String,
    pub args: Vec<Arg>,
    pub validity: Option<ValidityClause>,
}

/// The model of an [`AtomText`].
pub struct AtomModel {
    pub negated: bool,
    pub stored: bool,
    pub name: Name,
    pub args: Seq<ArgModel>,
    pub validity: Option<ClauseModel>,
}

impl DeepView for AtomText {
    type V = AtomModel;

    open spec fn deep_view(&self) -> AtomModel {
        AtomModel {
            negated: self.negated,
            stored: self.stored,
            name: self.name@,
            args: self.args.deep_view(),
            validity: match self.validity {
                None => None,
                Some(c) => Some(c.deep_view()),
            },
        }
    }
}

/// A rule: the name of its head (none for the entry), its arguments, and its
/// body.
#[derive(Debug)]
pub struct RuleText {
    pub head: Option<String>,
    pub args: Vec<Arg>,
    pub body: Vec<AtomText>,
}

/// The model of a [`RuleText`].
pub struct RuleModel {
    pub head: Option<Name>,
    pub args: Seq<ArgModel>,
    pub body: Seq<AtomModel>,
}

impl DeepView for RuleText {
    type V = RuleModel;

    open spec fn deep_view(&self) -> RuleModel {
        RuleModel {
            head: match self.head {
                None => None,
                Some(s) => Some(s@),
            },
            args: self.args.deep_view(),
            body: self.body.deep_view(),
        }
    }
}

/// A script does not follow the grammar.
#[derive(Clone, Copy, Debug, PartialEq, Eq, Structural)]
pub struct ScriptError;

impl ScriptError {
    /// What is wrong.
    pub fn message(&self) -> (r: &'static str)
        ensures
            r@ == "the query does not follow the grammar"@,
    {
        "the query does not follow the grammar"
    }
}

/// A word of a script as an argument.
pub open spec fn arg_word(t: Tok) -> Option<ArgModel> {
    match t {
        Tok::Word(s) => Some(ArgModel::Var(s)),
        Tok::Int(n) => Some(ArgModel::Int(n)),
        _ => None,
    }
}

/// Arguments with a comma between each two.
pub open spec fn arg_list(ts: Seq<Tok>) -> Option<Seq<ArgModel>>
    decreases ts.len(),
{
    if ts.len() == 0 {
        Some(Seq::empty())
    } else if ts.len() == 1 {
        match arg_word(ts[0]) {
            Some(a) => Some(seq![a]),
            None => None,
        }
    } else {
        match (arg_list(ts.take(ts.len() - 2)), arg_word(ts.last())) {
            (Some(front), Some(a)) => if ts[ts.len() - 2] == Tok::Comma && ts.len() > 2 {
                Some(front.push(a))
            } else {
                None
            },
            _ => None,
        }
    }
}

/// A validity clause: `@ t`, `@spans var`, `@spans var, sys`,
/// `@delta(from, to) var` or `@delta_sys(from, to) var`.
pub open spec fn clause(ts: Seq<Tok>) -> Option<ClauseModel> {
    if ts.len() == 2 {
        match (ts[0], ts[1]) {
            (Tok::At, Tok::Int(t)) => Some(
                ClauseModel::At(AsOf { valid: t, sys: i64::MAX }),
            ),
            (Tok::AtWord(w), Tok::Word(var)) => if w == "spans"@ {
                Some(ClauseModel::Spans { sys: i64::MAX, var })
            } else {
                None
            },
            _ => None,
        }
    } else if ts.len() == 4 {
        match (ts[0], ts[1], ts[2], ts[3]) {
            (Tok::AtWord(w), Tok::Word(var), Tok::Comma, Tok::Int(sys)) => if w == "spans"@ {
                Some(ClauseModel::Spans { sys, var })
            } else {
                None
            },
            _ => None,
        }
    } else if ts.len() == 7 {
        match (ts[0], ts[2], ts[4], ts[6]) {
            (Tok::AtWord(w), Tok::Int(from), Tok::Int(to), Tok::Word(var)) => if ts[1] == Tok::Open(
                Bracket::Round,
            ) && ts[3] == Tok::Comma && ts[5] == Tok::Close(Bracket::Round) {
                if w == "delta"@ {
                    Some(ClauseModel::Delta { axis: DeltaAxis::Valid, from, to, var })
                } else if w == "delta_sys"@ {
                    Some(ClauseModel::Delta { axis: DeltaAxis::Sys, from, to, var })
                } else {
                    None
                }
            } else {
                None
            },
            _ => None,
        }
    } else {
        None
    }
}

/// Whether a word begins a validity clause.
pub open spec fn is_at(t: Tok) -> bool {
    t is At || t is AtWord
}

/// The first place from `i` on where a validity clause begins.
pub open spec fn first_at(ts: Seq<Tok>, i: int) -> int
    decreases ts.len() - i,
{
    if 0 <= i < ts.len() && !is_at(ts[i]) {
        first_at(ts, i + 1)
    } else {
        i
    }
}

/// Whether a word closes the arguments of an atom.
pub open spec fn closes(t: Tok) -> bool {
    t == Tok::Close(Bracket::Square) || t == Tok::Close(Bracket::Brace)
}

/// The first place from `i` on where the arguments of an atom close.
pub open spec fn first_close(ts: Seq<Tok>, i: int) -> int
    decreases ts.len() - i,
{
    if 0 <= i < ts.len() && !closes(ts[i]) {
        first_close(ts, i + 1)
    } else {
        i
    }
}

/// What stands in the brackets of an atom: arguments, and behind them a
/// validity clause, if the atom can have one.
pub open spec fn bracketed(ts: Seq<Tok>, stored: bool) -> Option<(Seq<ArgModel>, Option<ClauseModel>)> {
    let at = first_at(ts, 0);
    match arg_list(ts.take(at)) {
        None => None,
        Some(args) => if at == ts.len() {
            Some((args, None))
        } else if !stored {
            None
        } else {
            match clause(ts.skip(at)) {
                None => None,
                Some(c) => Some((args, Some(c))),
            }
        },
    }
}

/// An atom: `not` if it is negated, a star if it is a stored relation, its
/// name, and its arguments in brackets. A rule has square brackets.
pub open spec fn atom(ts: Seq<Tok>) -> Option<AtomModel> {
    let negated = ts.len() > 0 && ts[0] == Tok::Word("not"@) && !(ts.len() > 1 && ts[1] == Tok::Open(
        Bracket::Square,
    ));
    let rest = if negated {
        ts.skip(1)
    } else {
        ts
    };
    let stored = rest.len() > 0 && rest[0] == Tok::Star;
    let core = if stored {
        rest.skip(1)
    } else {
        rest
    };
    if core.len() < 3 {
        None
    } else {
        match (core[0], core[1], core.last()) {
            (Tok::Word(name), Tok::Open(a), Tok::Close(b)) => if a == b && (a == Bracket::Square || (
            stored && a == Bracket::Brace)) {
                match bracketed(core.subrange(2, core.len() - 1), stored) {
                    None => None,
                    Some(inner) => Some(
                        AtomModel { negated, stored, name, args: inner.0, validity: inner.1 },
                    ),
                }
            } else {
                None
            },
            _ => None,
        }
    }
}

/// Atoms with a comma between each two.
pub open spec fn atoms(ts: Seq<Tok>) -> Option<Seq<AtomModel>>
    decreases ts.len(),
{
    let end = first_close(ts, 0);
    if !(0 <= end < ts.len()) {
        None
    } else {
        match atom(ts.take(end + 1)) {
            None => None,
            Some(a) => if end + 1 == ts.len() {
                Some(seq![a])
            } else if ts[end + 1] == Tok::Comma {
                match atoms(ts.skip(end + 2)) {
                    None => None,
                    Some(more) => Some(seq![a] + more),
                }
            } else {
                None
            },
        }
    }
}

/// A head: a question mark or a name, and arguments in square brackets.
pub open spec fn head(ts: Seq<Tok>) -> Option<(Option<Name>, Seq<ArgModel>)> {
    if ts.len() < 3 || ts[1] != Tok::Open(Bracket::Square) || ts.last() != Tok::Close(
        Bracket::Square,
    ) {
        None
    } else {
        match (ts[0], arg_list(ts.subrange(2, ts.len() - 1))) {
            (Tok::Query, Some(args)) => Some((None, args)),
            (Tok::Word(name), Some(args)) => Some((Some(name), args)),
            _ => None,
        }
    }
}

/// The first place from `i` on of a word.
pub open spec fn first_of(ts: Seq<Tok>, t: Tok, i: int) -> int
    decreases ts.len() - i,
{
    if 0 <= i < ts.len() && ts[i] != t {
        first_of(ts, t, i + 1)
    } else {
        i
    }
}

/// A rule: a head and a body.
pub open spec fn rule(ts: Seq<Tok>) -> Option<RuleModel> {
    let d = first_of(ts, Tok::Define, 0);
    if d >= ts.len() {
        None
    } else {
        match (head(ts.take(d)), atoms(ts.skip(d + 1))) {
            (Some(h), Some(body)) => Some(RuleModel { head: h.0, args: h.1, body }),
            _ => None,
        }
    }
}

/// Rules with a semicolon between each two.
pub open spec fn rules(ts: Seq<Tok>) -> Option<Seq<RuleModel>>
    decreases ts.len(),
{
    let s = first_of(ts, Tok::Semicolon, 0);
    if s >= ts.len() {
        match rule(ts) {
            None => None,
            Some(r) => Some(seq![r]),
        }
    } else if s < 0 {
        None
    } else {
        match (rule(ts.take(s)), rules(ts.skip(s + 1))) {
            (Some(r), Some(more)) => Some(seq![r] + more),
            _ => None,
        }
    }
}

/// A write: its operation, its relation, its columns, and when it holds.
#[derive(Debug)]
pub struct WriteText {
    pub op: String,
    pub relation: String,
    pub columns: Vec<String>,
    pub at: Option<i64>,
}

/// The model of a [`WriteText`].
pub struct WriteModel {
    pub op: Name,
    pub relation: Name,
    pub columns: Seq<Name>,
    pub at: Option<i64>,
}

impl DeepView for WriteText {
    type V = WriteModel;

    open spec fn deep_view(&self) -> WriteModel {
        WriteModel {
            op: self.op@,
            relation: self.relation@,
            columns: names(self.columns@),
            at: self.at,
        }
    }
}

/// A script: a write, or rules.
#[derive(Debug)]
pub enum Script {
    Write(WriteText),
    Rules(Vec<RuleText>),
}

/// The model of a [`Script`].
pub enum ScriptModel {
    Write(WriteModel),
    Rules(Seq<RuleModel>),
}

impl DeepView for Script {
    type V = ScriptModel;

    open spec fn deep_view(&self) -> ScriptModel {
        match *self {
            Script::Write(w) => ScriptModel::Write(w.deep_view()),
            Script::Rules(rs) => ScriptModel::Rules(rs.deep_view()),
        }
    }
}

/// A column: its name, or its name and its type.
pub open spec fn column(ts: Seq<Tok>) -> Option<Name> {
    if ts.len() == 1 || (ts.len() == 3 && ts[1] == Tok::Colon && ts[2] is Word) {
        match ts[0] {
            Tok::Word(s) => Some(s),
            _ => None,
        }
    } else {
        None
    }
}

/// Columns with a comma between each two.
pub open spec fn columns(ts: Seq<Tok>) -> Option<Seq<Name>>
    decreases ts.len(),
{
    let c = first_of(ts, Tok::Comma, 0);
    if c >= ts.len() {
        match column(ts) {
            None => None,
            Some(n) => Some(seq![n]),
        }
    } else if c < 0 {
        None
    } else {
        match (column(ts.take(c)), columns(ts.skip(c + 1))) {
            (Some(n), Some(more)) => Some(seq![n] + more),
            _ => None,
        }
    }
}

/// A write: a colon and its operation, its relation, its columns in braces,
/// and an instant behind an at sign, if there is one. No other validity
/// clause can stand here.
pub open spec fn write(ts: Seq<Tok>) -> Option<WriteModel> {
    if ts.len() < 5 || ts[0] != Tok::Colon || ts[3] != Tok::Open(Bracket::Brace) {
        None
    } else {
        let end = first_of(ts, Tok::Close(Bracket::Brace), 4);
        if end >= ts.len() {
            None
        } else {
            match (ts[1], ts[2], columns(ts.subrange(4, end))) {
                (Tok::Word(op), Tok::Word(relation), Some(columns)) => if end + 1 == ts.len() {
                    Some(WriteModel { op, relation, columns, at: None })
                } else if end + 3 == ts.len() && ts[end + 1] == Tok::At {
                    match ts[end + 2] {
                        Tok::Int(t) => Some(WriteModel { op, relation, columns, at: Some(t) }),
                        _ => None,
                    }
                } else {
                    None
                },
                _ => None,
            }
        }
    }
}

/// What a text says, if it follows the grammar.
pub open spec fn script(text: Seq<char>) -> Option<ScriptModel> {
    let ts = words(text);
    if ts.len() > 0 && ts[0] == Tok::Colon {
        match write(ts) {
            None => None,
            Some(w) => Some(ScriptModel::Write(w)),
        }
    } else {
        match rules(ts) {
            None => None,
            Some(rs) => Some(ScriptModel::Rules(rs)),
        }
    }
}

/// A copy of some words.
fn copy_words(ts: &Vec<Token>, from: usize, to: usize) -> (r: Vec<Token>)
    requires
        from <= to <= ts@.len(),
    ensures
        r.deep_view() == ts.deep_view().subrange(from as int, to as int),
        r@.len() == to - from,
{
    let mut out: Vec<Token> = Vec::new();
    let mut i: usize = from;
    proof {
        assert(out.deep_view() =~= ts.deep_view().subrange(from as int, from as int));
    }
    while i < to
        invariant
            from <= i <= to <= ts@.len(),
            out@.len() == i - from,
            out.deep_view() == ts.deep_view().subrange(from as int, i as int),
        decreases to - i,
    {
        let ghost before = out.deep_view();
        let t = match &ts[i] {
            Token::Word(s) => Token::Word(s.clone()),
            Token::AtWord(s) => Token::AtWord(s.clone()),
            Token::At => Token::At,
            Token::Int(n) => Token::Int(*n),
            Token::Open(b) => Token::Open(*b),
            Token::Close(b) => Token::Close(*b),
            Token::Comma => Token::Comma,
            Token::Semicolon => Token::Semicolon,
            Token::Star => Token::Star,
            Token::Query => Token::Query,
            Token::Colon => Token::Colon,
            Token::Define => Token::Define,
            Token::Stray => Token::Stray,
        };
        let ghost m = t.deep_view();
        out.push(t);
        proof {
            assert(m == ts.deep_view()[i as int]);
            assert(out.deep_view() =~= before.push(m));
            assert(ts.deep_view().subrange(from as int, i + 1) =~= before.push(m));
        }
        i = i + 1;
    }
    out
}

/// A result and its model agree.
pub open spec fn reads<A: DeepView>(r: Option<A>, m: Option<A::V>) -> bool {
    match r {
        Some(x) => m == Some(x.deep_view()),
        None => m is None,
    }
}

fn read_arg(t: &Token) -> (r: Option<Arg>)
    ensures
        reads(r, arg_word(t.deep_view())),
{
    match t {
        Token::Word(s) => Some(Arg::Var(s.clone())),
        Token::Int(n) => Some(Arg::Int(*n)),
        _ => None,
    }
}

/// Whether a word is a keyword.
fn word_is(w: &String, keyword: &str) -> (r: bool)
    ensures
        r == (w@ == keyword@),
{
    let k = keyword.to_string();
    *w == k
}

fn is_comma(t: &Token) -> (r: bool)
    ensures
        r == (t.deep_view() == Tok::Comma),
{
    matches!(t, Token::Comma)
}

fn read_args(ts: &Vec<Token>) -> (r: Option<Vec<Arg>>)
    ensures
        reads(r, arg_list(ts.deep_view())),
{
    let ghost all = ts.deep_view();
    proof {
        assert(all.len() == ts@.len());
    }
    let mut out: Vec<Arg> = Vec::new();
    if ts.len() == 0 {
        proof {
            assert(out.deep_view() =~= Seq::<ArgModel>::empty());
        }
        return Some(out);
    }
    if ts.len() % 2 == 0 {
        proof {
            lemma_even_args(all);
        }
        return None;
    }
    match read_arg(&ts[0]) {
        Some(a) => {
            let ghost m = a.deep_view();
            out.push(a);
            proof {
                assert(out.deep_view() =~= seq![m]);
                assert(all.take(1)[0] == all[0]);
            }
        },
        None => {
            proof {
                lemma_bad_prefix(all, 1);
            }
            return None;
        },
    }
    let mut i: usize = 1;
    while i < ts.len()
        invariant
            1 <= i <= ts@.len(),
            i % 2 == 1,
            ts@.len() % 2 == 1,
            all == ts.deep_view(),
            all.len() == ts@.len(),
            arg_list(all.take(i as int)) == Some(out.deep_view()),
        decreases ts.len() - i,
    {
        proof {
            let more = all.take(i + 2);
            assert(more.take(more.len() - 2) =~= all.take(i as int));
            assert(more.last() == all[i + 1]);
            assert(more[more.len() - 2] == all[i as int]);
            assert(all[i as int] == ts@[i as int].deep_view());
            assert(all[i + 1] == ts@[i + 1].deep_view());
        }
        if !is_comma(&ts[i]) {
            proof {
                lemma_bad_prefix(all, i + 2);
            }
            return None;
        }
        match read_arg(&ts[i + 1]) {
            Some(a) => {
                let ghost before = out.deep_view();
                let ghost m = a.deep_view();
                out.push(a);
                proof {
                    assert(out.deep_view() =~= before.push(m));
                }
            },
            None => {
                proof {
                    lemma_bad_prefix(all, i + 2);
                }
                return None;
            },
        }
        i = i + 2;
    }
    proof {
        assert(all.take(i as int) =~= all);
    }
    Some(out)
}

/// Arguments and the commas between them are odd in number.
proof fn lemma_even_args(ts: Seq<Tok>)
    requires
        ts.len() > 0,
        ts.len() % 2 == 0,
    ensures
        arg_list(ts) is None,
    decreases ts.len(),
{
    if ts.len() > 2 {
        lemma_even_args(ts.take(ts.len() - 2));
    }
}

/// What begins with no list of arguments is none.
proof fn lemma_bad_prefix(ts: Seq<Tok>, k: int)
    requires
        0 < k <= ts.len(),
        k % 2 == 1,
        ts.len() % 2 == 1,
        arg_list(ts.take(k)) is None,
    ensures
        arg_list(ts) is None,
    decreases ts.len(),
{
    if k == ts.len() {
        assert(ts.take(k) =~= ts);
    } else {
        let less = ts.take(ts.len() - 2);
        assert(less.take(k) =~= ts.take(k));
        lemma_bad_prefix(less, k);
    }
}

fn read_clause(ts: &Vec<Token>) -> (r: Option<ValidityClause>)
    ensures
        reads(r, clause(ts.deep_view())),
{
    let ghost all = ts.deep_view();
    proof {
        assert(all.len() == ts@.len());
        assert forall|i: int| 0 <= i < all.len() implies all[i] == (#[trigger] ts@[i]).deep_view() by {}
    }
    let n: usize = ts.len();
    if n == 2 {
        match (&ts[0], &ts[1]) {
            (Token::At, Token::Int(t)) => Some(ValidityClause::At(AsOf::current(*t))),
            (Token::AtWord(w), Token::Word(var)) => if word_is(w, "spans") {
                Some(ValidityClause::Spans { sys: i64::MAX, var: var.clone() })
            } else {
                None
            },
            _ => None,
        }
    } else if n == 4 {
        match (&ts[0], &ts[1], &ts[2], &ts[3]) {
            (Token::AtWord(w), Token::Word(var), Token::Comma, Token::Int(sys)) => if word_is(w, "spans") {
                Some(ValidityClause::Spans { sys: *sys, var: var.clone() })
            } else {
                None
            },
            _ => None,
        }
    } else if n == 7 {
        let framed = matches!(ts[1], Token::Open(Bracket::Round)) && is_comma(&ts[3]) && matches!(
            ts[5],
            Token::Close(Bracket::Round)
        );
        match (&ts[0], &ts[2], &ts[4], &ts[6]) {
            (Token::AtWord(w), Token::Int(from), Token::Int(to), Token::Word(var)) => if framed {
                if word_is(w, "delta") {
                    Some(
                        ValidityClause::Delta {
                            axis: DeltaAxis::Valid,
                            from: *from,
                            to: *to,
                            var: var.clone(),
                        },
                    )
                } else if word_is(w, "delta_sys") {
                    Some(
                        ValidityClause::Delta {
                            axis: DeltaAxis::Sys,
                            from: *from,
                            to: *to,
                            var: var.clone(),
                        },
                    )
                } else {
                    None
                }
            } else {
                None
            },
            _ => None,
        }
    } else {
        None
    }
}

/// Whether two words are the same kind of sign.
fn same_sign(t: &Token, sign: &Token) -> (r: bool)
    requires
        !(sign is Word),
        !(sign is AtWord),
        !(sign is Int),
    ensures
        r == (t.deep_view() == sign.deep_view()),
{
    match (t, sign) {
        (Token::At, Token::At) => true,
        (Token::Open(a), Token::Open(b)) => *a == *b,
        (Token::Close(a), Token::Close(b)) => *a == *b,
        (Token::Comma, Token::Comma) => true,
        (Token::Semicolon, Token::Semicolon) => true,
        (Token::Star, Token::Star) => true,
        (Token::Query, Token::Query) => true,
        (Token::Colon, Token::Colon) => true,
        (Token::Define, Token::Define) => true,
        (Token::Stray, Token::Stray) => true,
        _ => false,
    }
}

fn find_at(ts: &Vec<Token>) -> (r: usize)
    ensures
        r == first_at(ts.deep_view(), 0),
        r <= ts@.len(),
{
    let ghost all = ts.deep_view();
    proof {
        assert(all.len() == ts@.len());
    }
    let mut i: usize = 0;
    while i < ts.len() && !matches!(ts[i], Token::At) && !matches!(ts[i], Token::AtWord(_))
        invariant
            i <= ts@.len(),
            all == ts.deep_view(),
            all.len() == ts@.len(),
            first_at(all, i as int) == first_at(all, 0),
        decreases ts.len() - i,
    {
        proof {
            assert(all[i as int] == ts@[i as int].deep_view());
        }
        i = i + 1;
    }
    proof {
        if i < ts@.len() {
            assert(all[i as int] == ts@[i as int].deep_view());
        }
    }
    i
}

fn find_close(ts: &Vec<Token>) -> (r: usize)
    ensures
        r == first_close(ts.deep_view(), 0),
        r <= ts@.len(),
{
    let ghost all = ts.deep_view();
    proof {
        assert(all.len() == ts@.len());
    }
    let mut i: usize = 0;
    while i < ts.len() && !matches!(ts[i], Token::Close(Bracket::Square)) && !matches!(
        ts[i],
        Token::Close(Bracket::Brace)
    )
        invariant
            i <= ts@.len(),
            all == ts.deep_view(),
            all.len() == ts@.len(),
            first_close(all, i as int) == first_close(all, 0),
        decreases ts.len() - i,
    {
        proof {
            assert(all[i as int] == ts@[i as int].deep_view());
        }
        i = i + 1;
    }
    proof {
        if i < ts@.len() {
            assert(all[i as int] == ts@[i as int].deep_view());
        }
    }
    i
}

fn find(ts: &Vec<Token>, sign: &Token, from: usize) -> (r: usize)
    requires
        !(sign is Word),
        !(sign is AtWord),
        !(sign is Int),
        from <= ts@.len(),
    ensures
        r == first_of(ts.deep_view(), sign.deep_view(), from as int),
        from <= r <= ts@.len(),
{
    let ghost all = ts.deep_view();
    proof {
        assert(all.len() == ts@.len());
    }
    let mut i: usize = from;
    while i < ts.len() && !same_sign(&ts[i], sign)
        invariant
            from <= i <= ts@.len(),
            !(sign is Word),
            !(sign is AtWord),
            !(sign is Int),
            all == ts.deep_view(),
            all.len() == ts@.len(),
            first_of(all, sign.deep_view(), i as int) == first_of(
                all,
                sign.deep_view(),
                from as int,
            ),
        decreases ts.len() - i,
    {
        proof {
            assert(all[i as int] == ts@[i as int].deep_view());
        }
        i = i + 1;
    }
    proof {
        if i < ts@.len() {
            assert(all[i as int] == ts@[i as int].deep_view());
        }
    }
    i
}

fn read_bracketed(ts: &Vec<Token>, stored: bool) -> (r: Option<(Vec<Arg>, Option<ValidityClause>)>)
    ensures
        match r {
            Some(p) => bracketed(ts.deep_view(), stored) == Some(
                (
                    p.0.deep_view(),
                    match p.1 {
                        None => None,
                        Some(c) => Some(c.deep_view()),
                    },
                ),
            ),
            None => bracketed(ts.deep_view(), stored) is None,
        },
{
    let ghost all = ts.deep_view();
    proof {
        assert(all.len() == ts@.len());
    }
    let at: usize = find_at(ts);
    let front = copy_words(ts, 0, at);
    proof {
        assert(all.subrange(0, at as int) =~= all.take(at as int));
    }
    let args = match read_args(&front) {
        Some(a) => a,
        None => {
            return None;
        },
    };
    if at == ts.len() {
        return Some((args, None));
    }
    if !stored {
        return None;
    }
    let back = copy_words(ts, at, ts.len());
    proof {
        assert(all.subrange(at as int, all.len() as int) =~= all.skip(at as int));
    }
    match read_clause(&back) {
        Some(c) => Some((args, Some(c))),
        None => None,
    }
}

fn read_atom(ts: &Vec<Token>) -> (r: Option<AtomText>)
    ensures
        reads(r, atom(ts.deep_view())),
{
    let ghost all = ts.deep_view();
    proof {
        assert(all.len() == ts@.len());
        assert forall|i: int| 0 <= i < all.len() implies all[i] == (#[trigger] ts@[i]).deep_view() by {}
    }
    let n: usize = ts.len();
    let calls = n > 1 && matches!(ts[1], Token::Open(Bracket::Square));
    let negated = n > 0 && !calls && match &ts[0] {
        Token::Word(w) => word_is(w, "not"),
        _ => false,
    };
    let start: usize = if negated {
        1
    } else {
        0
    };
    let ghost rest = if negated {
        all.skip(1)
    } else {
        all
    };
    let stored = start < n && matches!(ts[start], Token::Star);
    proof {
        if rest.len() > 0 {
            assert(rest[0] == all[start as int]);
        }
    }
    let begin: usize = if stored {
        start + 1
    } else {
        start
    };
    let ghost core = if stored {
        rest.skip(1)
    } else {
        rest
    };
    proof {
        assert(core =~= all.skip(begin as int));
    }
    if n - begin < 3 {
        return None;
    }
    proof {
        assert(core[0] == all[begin as int]);
        assert(core[1] == all[begin + 1]);
        assert(core.last() == all[n - 1]);
        assert(core.subrange(2, core.len() - 1) =~= all.subrange(begin + 2, n - 1));
    }
    let inner = copy_words(ts, begin + 2, n - 1);
    match (&ts[begin], &ts[begin + 1], &ts[n - 1]) {
        (Token::Word(name), Token::Open(a), Token::Close(b)) => {
            if *a == *b && (*a == Bracket::Square || (stored && *a == Bracket::Brace)) {
                match read_bracketed(&inner, stored) {
                    Some((args, validity)) => Some(
                        AtomText { negated, stored, name: name.clone(), args, validity },
                    ),
                    None => None,
                }
            } else {
                None
            }
        },
        _ => None,
    }
}

fn read_atoms(ts: &Vec<Token>) -> (r: Option<Vec<AtomText>>)
    ensures
        reads(r, atoms(ts.deep_view())),
    decreases ts@.len(),
{
    let ghost all = ts.deep_view();
    proof {
        assert(all.len() == ts@.len());
    }
    let end: usize = find_close(ts);
    if end == ts.len() {
        return None;
    }
    let first = copy_words(ts, 0, end + 1);
    proof {
        assert(all.subrange(0, end + 1) =~= all.take(end + 1));
    }
    let a = match read_atom(&first) {
        Some(a) => a,
        None => {
            return None;
        },
    };
    let ghost m = a.deep_view();
    let mut out: Vec<AtomText> = Vec::new();
    out.push(a);
    proof {
        assert(out.deep_view() =~= seq![m]);
    }
    if end + 1 == ts.len() {
        return Some(out);
    }
    proof {
        assert(all[end + 1] == ts@[end + 1].deep_view());
    }
    if !is_comma(&ts[end + 1]) {
        return None;
    }
    let rest = copy_words(ts, end + 2, ts.len());
    proof {
        assert(all.subrange(end + 2, all.len() as int) =~= all.skip(end + 2));
    }
    match read_atoms(&rest) {
        Some(more) => {
            let mut more = more;
            let ghost tail = more.deep_view();
            out.append(&mut more);
            proof {
                assert(out.deep_view() =~= seq![m] + tail);
            }
            Some(out)
        },
        None => None,
    }
}

fn read_head(ts: &Vec<Token>) -> (r: Option<(Option<String>, Vec<Arg>)>)
    ensures
        match r {
            Some(h) => head(ts.deep_view()) == Some(
                (
                    match h.0 {
                        None => None,
                        Some(s) => Some(s@),
                    },
                    h.1.deep_view(),
                ),
            ),
            None => head(ts.deep_view()) is None,
        },
{
    let ghost all = ts.deep_view();
    proof {
        assert(all.len() == ts@.len());
        assert forall|i: int| 0 <= i < all.len() implies all[i] == (#[trigger] ts@[i]).deep_view() by {}
    }
    let n: usize = ts.len();
    if n < 3 {
        return None;
    }
    if !same_sign(&ts[1], &Token::Open(Bracket::Square)) || !same_sign(
        &ts[n - 1],
        &Token::Close(Bracket::Square),
    ) {
        return None;
    }
    let inner = copy_words(ts, 2, n - 1);
    let args = match read_args(&inner) {
        Some(a) => a,
        None => {
            return None;
        },
    };
    match &ts[0] {
        Token::Query => Some((None, args)),
        Token::Word(name) => Some((Some(name.clone()), args)),
        _ => None,
    }
}

fn read_rule(ts: &Vec<Token>) -> (r: Option<RuleText>)
    ensures
        reads(r, rule(ts.deep_view())),
{
    let ghost all = ts.deep_view();
    proof {
        assert(all.len() == ts@.len());
    }
    let d: usize = find(ts, &Token::Define, 0);
    if d == ts.len() {
        return None;
    }
    let front = copy_words(ts, 0, d);
    let back = copy_words(ts, d + 1, ts.len());
    proof {
        assert(all.subrange(0, d as int) =~= all.take(d as int));
        assert(all.subrange(d + 1, all.len() as int) =~= all.skip(d + 1));
    }
    match (read_head(&front), read_atoms(&back)) {
        (Some((head, args)), Some(body)) => Some(RuleText { head, args, body }),
        _ => None,
    }
}

fn read_rules(ts: &Vec<Token>) -> (r: Option<Vec<RuleText>>)
    ensures
        reads(r, rules(ts.deep_view())),
    decreases ts@.len(),
{
    let ghost all = ts.deep_view();
    proof {
        assert(all.len() == ts@.len());
    }
    let s: usize = find(ts, &Token::Semicolon, 0);
    let front = copy_words(ts, 0, s);
    proof {
        assert(all.subrange(0, s as int) =~= all.take(s as int));
        assert(all.take(all.len() as int) =~= all);
    }
    let first = match read_rule(&front) {
        Some(x) => x,
        None => {
            return None;
        },
    };
    let ghost m = first.deep_view();
    let mut out: Vec<RuleText> = Vec::new();
    out.push(first);
    proof {
        assert(out.deep_view() =~= seq![m]);
    }
    if s == ts.len() {
        return Some(out);
    }
    let rest = copy_words(ts, s + 1, ts.len());
    proof {
        assert(all.subrange(s + 1, all.len() as int) =~= all.skip(s + 1));
    }
    match read_rules(&rest) {
        Some(more) => {
            let mut more = more;
            let ghost tail = more.deep_view();
            out.append(&mut more);
            proof {
                assert(out.deep_view() =~= seq![m] + tail);
            }
            Some(out)
        },
        None => None,
    }
}

fn read_column(ts: &Vec<Token>) -> (r: Option<String>)
    ensures
        match r {
            Some(n) => column(ts.deep_view()) == Some(n@),
            None => column(ts.deep_view()) is None,
        },
{
    let ghost all = ts.deep_view();
    proof {
        assert(all.len() == ts@.len());
        assert forall|i: int| 0 <= i < all.len() implies all[i] == (#[trigger] ts@[i]).deep_view() by {}
    }
    let n: usize = ts.len();
    if n == 1 || (n == 3 && same_sign(&ts[1], &Token::Colon) && matches!(ts[2], Token::Word(_))) {
        match &ts[0] {
            Token::Word(s) => Some(s.clone()),
            _ => None,
        }
    } else {
        None
    }
}

fn read_columns(ts: &Vec<Token>) -> (r: Option<Vec<String>>)
    ensures
        match r {
            Some(v) => columns(ts.deep_view()) == Some(names(v@)),
            None => columns(ts.deep_view()) is None,
        },
    decreases ts@.len(),
{
    let ghost all = ts.deep_view();
    proof {
        assert(all.len() == ts@.len());
    }
    let c: usize = find(ts, &Token::Comma, 0);
    let front = copy_words(ts, 0, c);
    proof {
        assert(all.subrange(0, c as int) =~= all.take(c as int));
        assert(all.take(all.len() as int) =~= all);
    }
    let first = match read_column(&front) {
        Some(x) => x,
        None => {
            return None;
        },
    };
    let ghost m = first@;
    let mut out: Vec<String> = Vec::new();
    out.push(first);
    proof {
        assert(names(out@) =~= seq![m]);
    }
    if c == ts.len() {
        return Some(out);
    }
    let rest = copy_words(ts, c + 1, ts.len());
    proof {
        assert(all.subrange(c + 1, all.len() as int) =~= all.skip(c + 1));
    }
    match read_columns(&rest) {
        Some(more) => {
            let mut more = more;
            let ghost tail = names(more@);
            out.append(&mut more);
            proof {
                assert(names(out@) =~= seq![m] + tail);
            }
            Some(out)
        },
        None => None,
    }
}

fn read_write(ts: &Vec<Token>) -> (r: Option<WriteText>)
    ensures
        reads(r, write(ts.deep_view())),
{
    let ghost all = ts.deep_view();
    proof {
        assert(all.len() == ts@.len());
        assert forall|i: int| 0 <= i < all.len() implies all[i] == (#[trigger] ts@[i]).deep_view() by {}
    }
    let n: usize = ts.len();
    if n < 5 {
        return None;
    }
    if !same_sign(&ts[0], &Token::Colon) || !same_sign(&ts[3], &Token::Open(Bracket::Brace)) {
        return None;
    }
    let end: usize = find(ts, &Token::Close(Bracket::Brace), 4);
    if end == n {
        return None;
    }
    let inner = copy_words(ts, 4, end);
    let columns = match read_columns(&inner) {
        Some(v) => v,
        None => {
            return None;
        },
    };
    match (&ts[1], &ts[2]) {
        (Token::Word(op), Token::Word(relation)) => {
            if end + 1 == n {
                Some(WriteText { op: op.clone(), relation: relation.clone(), columns, at: None })
            } else if n - end == 3 && same_sign(&ts[end + 1], &Token::At) {
                match &ts[end + 2] {
                    Token::Int(t) => Some(
                        WriteText {
                            op: op.clone(),
                            relation: relation.clone(),
                            columns,
                            at: Some(*t),
                        },
                    ),
                    _ => None,
                }
            } else {
                None
            }
        },
        _ => None,
    }
}

/// Read a script.
pub fn parse_script(text: &str) -> (r: Result<Script, ScriptError>)
    ensures
        match r {
            Ok(s) => script(text@) == Some(s.deep_view()),
            Err(_) => script(text@) is None,
        },
{
    let ts = split_words(text);
    proof {
        assert(ts.deep_view().len() == ts@.len());
        if ts@.len() > 0 {
            assert(ts.deep_view()[0] == ts@[0].deep_view());
        }
    }
    if ts.len() > 0 && same_sign(&ts[0], &Token::Colon) {
        match read_write(&ts) {
            Some(w) => Ok(Script::Write(w)),
            None => Err(ScriptError),
        }
    } else {
        match read_rules(&ts) {
            Some(rs) => Ok(Script::Rules(rs)),
            None => Err(ScriptError),
        }
    }
}

/// Whether only stored relations have a validity clause.
pub open spec fn clauses_on_stored(body: Seq<AtomModel>) -> bool {
    forall|j: int| 0 <= j < body.len() && (#[trigger] body[j]).validity is Some ==> body[j].stored
}

proof fn lemma_atoms_clauses(ts: Seq<Tok>)
    ensures
        atoms(ts) matches Some(body) ==> clauses_on_stored(body),
    decreases ts.len(),
{
    let end = first_close(ts, 0);
    if 0 <= end && end + 1 < ts.len() {
        lemma_atoms_clauses(ts.skip(end + 2));
    }
}

proof fn lemma_rules_clauses(ts: Seq<Tok>)
    ensures
        rules(ts) matches Some(rs) ==> forall|i: int|
            0 <= i < rs.len() ==> clauses_on_stored((#[trigger] rs[i]).body),
    decreases ts.len(),
{
    let s = first_of(ts, Tok::Semicolon, 0);
    if s >= ts.len() {
        lemma_atoms_clauses(ts.skip(first_of(ts, Tok::Define, 0) + 1));
    } else if s >= 0 {
        let front = ts.take(s);
        lemma_atoms_clauses(front.skip(first_of(front, Tok::Define, 0) + 1));
        lemma_rules_clauses(ts.skip(s + 1));
    }
}

/// A validity clause stands on a stored relation and nowhere else: no text
/// gives a rule application one.
pub proof fn law_only_stored_atoms_have_clauses(text: Seq<char>)
    ensures
        script(text) matches Some(ScriptModel::Rules(rs)) ==> forall|i: int|
            0 <= i < rs.len() ==> clauses_on_stored((#[trigger] rs[i]).body),
{
    lemma_rules_clauses(words(text));
}

} // verus!
