//! The words of a script.

use vstd::prelude::*;
use vstd::string::*;

verus! {

/// The kind of a bracket.
#[derive(Clone, Copy, Debug, PartialEq, Eq, Structural)]
pub enum Bracket {
    Round,
    Square,
    Brace,
}

/// A word of a script.
#[derive(Debug)]
pub enum Token {
    /// A name or a keyword.
    Word(String),
    /// A name directly behind an at sign.
    AtWord(String),
    At,
    Int(i64),
    Open(Bracket),
    Close(Bracket),
    Comma,
    Semicolon,
    Star,
    Query,
    Colon,
    Define,
    /// What no rule knows, or a number out of range.
    Stray,
}

/// The model of a [`Token`].
pub enum Tok {
    Word(Seq<char>),
    AtWord(Seq<char>),
    At,
    Int(i64),
    Open(Bracket),
    Close(Bracket),
    Comma,
    Semicolon,
    Star,
    Query,
    Colon,
    Define,
    Stray,
}

impl DeepView for Token {
    type V = Tok;

    open spec fn deep_view(&self) -> Tok {
        match *self {
            Token::Word(s) => Tok::Word(s@),
            Token::AtWord(s) => Tok::AtWord(s@),
            Token::At => Tok::At,
            Token::Int(n) => Tok::Int(n),
            Token::Open(b) => Tok::Open(b),
            Token::Close(b) => Tok::Close(b),
            Token::Comma => Tok::Comma,
            Token::Semicolon => Tok::Semicolon,
            Token::Star => Tok::Star,
            Token::Query => Tok::Query,
            Token::Colon => Tok::Colon,
            Token::Define => Tok::Define,
            Token::Stray => Tok::Stray,
        }
    }
}

/// A character between words.
pub open spec fn is_space(c: char) -> bool {
    c == ' ' || c == '\n' || c == '\t' || c == '\r'
}

pub open spec fn is_digit(c: char) -> bool {
    '0' <= c && c <= '9'
}

/// A character a name can begin with.
pub open spec fn starts_word(c: char) -> bool {
    ('a' <= c && c <= 'z') || ('A' <= c && c <= 'Z') || c == '_' || c > '\u{7f}'
}

/// A character a name can go on with.
pub open spec fn continues_word(c: char) -> bool {
    starts_word(c) || is_digit(c)
}

/// Where the name that goes on at `i` ends.
pub open spec fn word_end(cs: Seq<char>, i: int) -> int
    decreases cs.len() - i,
{
    if 0 <= i < cs.len() && continues_word(cs[i]) {
        word_end(cs, i + 1)
    } else {
        i
    }
}

/// Where the digits that go on at `i` end.
pub open spec fn digits_end(cs: Seq<char>, i: int) -> int
    decreases cs.len() - i,
{
    if 0 <= i < cs.len() && is_digit(cs[i]) {
        digits_end(cs, i + 1)
    } else {
        i
    }
}

/// The number some digits stand for.
pub open spec fn digits_value(cs: Seq<char>) -> int
    decreases cs.len(),
{
    if cs.len() == 0 {
        0
    } else {
        10 * digits_value(cs.drop_last()) + (cs.last() as int - '0' as int)
    }
}

/// The word of a number, with its sign.
pub open spec fn number_word(digits: Seq<char>, negative: bool) -> Tok {
    let n = if negative {
        -digits_value(digits)
    } else {
        digits_value(digits)
    };
    if i64::MIN < n <= i64::MAX {
        Tok::Int(n as i64)
    } else {
        Tok::Stray
    }
}

/// The word at `i`, and where it ends.
pub open spec fn word_at(cs: Seq<char>, i: int) -> (Tok, int) {
    let c = cs[i];
    let next = if i + 1 < cs.len() {
        Some(cs[i + 1])
    } else {
        None
    };
    if starts_word(c) {
        (Tok::Word(cs.subrange(i, word_end(cs, i))), word_end(cs, i))
    } else if is_digit(c) {
        (number_word(cs.subrange(i, digits_end(cs, i)), false), digits_end(cs, i))
    } else if c == '-' && next is Some && is_digit(next->Some_0) {
        (number_word(cs.subrange(i + 1, digits_end(cs, i + 1)), true), digits_end(cs, i + 1))
    } else if c == '@' && next is Some && starts_word(next->Some_0) {
        (Tok::AtWord(cs.subrange(i + 1, word_end(cs, i + 1))), word_end(cs, i + 1))
    } else if c == ':' && next == Some('=') {
        (Tok::Define, i + 2)
    } else {
        (
            match c {
                '@' => Tok::At,
                ':' => Tok::Colon,
                '(' => Tok::Open(Bracket::Round),
                ')' => Tok::Close(Bracket::Round),
                '[' => Tok::Open(Bracket::Square),
                ']' => Tok::Close(Bracket::Square),
                '{' => Tok::Open(Bracket::Brace),
                '}' => Tok::Close(Bracket::Brace),
                ',' => Tok::Comma,
                ';' => Tok::Semicolon,
                '*' => Tok::Star,
                '?' => Tok::Query,
                _ => Tok::Stray,
            },
            i + 1,
        )
    }
}

pub proof fn lemma_word_end(cs: Seq<char>, i: int)
    requires
        0 <= i <= cs.len(),
    ensures
        i <= word_end(cs, i) <= cs.len(),
        i < cs.len() && continues_word(cs[i]) ==> i < word_end(cs, i),
    decreases cs.len() - i,
{
    if i < cs.len() && continues_word(cs[i]) {
        lemma_word_end(cs, i + 1);
    }
}

pub proof fn lemma_digits_end(cs: Seq<char>, i: int)
    requires
        0 <= i <= cs.len(),
    ensures
        i <= digits_end(cs, i) <= cs.len(),
        i < cs.len() && is_digit(cs[i]) ==> i < digits_end(cs, i),
    decreases cs.len() - i,
{
    if i < cs.len() && is_digit(cs[i]) {
        lemma_digits_end(cs, i + 1);
    }
}

pub proof fn lemma_word_at(cs: Seq<char>, i: int)
    requires
        0 <= i < cs.len(),
    ensures
        i < word_at(cs, i).1 <= cs.len(),
{
    lemma_word_end(cs, i);
    lemma_digits_end(cs, i);
    lemma_word_end(cs, i + 1);
    lemma_digits_end(cs, i + 1);
}

/// The words from `i` on.
pub open spec fn words_from(cs: Seq<char>, i: int) -> Seq<Tok>
    decreases cs.len() - i,
{
    if !(0 <= i < cs.len()) {
        Seq::empty()
    } else if is_space(cs[i]) {
        words_from(cs, i + 1)
    } else {
        proof {
            lemma_word_at(cs, i);
        }
        seq![word_at(cs, i).0] + words_from(cs, word_at(cs, i).1)
    }
}

/// The words of a text.
pub open spec fn words(cs: Seq<char>) -> Seq<Tok> {
    words_from(cs, 0)
}

fn space(c: char) -> (r: bool)
    ensures
        r == is_space(c),
{
    c == ' ' || c == '\n' || c == '\t' || c == '\r'
}

fn digit(c: char) -> (r: bool)
    ensures
        r == is_digit(c),
{
    '0' <= c && c <= '9'
}

fn opens_word(c: char) -> (r: bool)
    ensures
        r == starts_word(c),
{
    ('a' <= c && c <= 'z') || ('A' <= c && c <= 'Z') || c == '_' || c > '\u{7f}'
}

fn keeps_word(c: char) -> (r: bool)
    ensures
        r == continues_word(c),
{
    opens_word(c) || digit(c)
}

/// The name of a text that starts at `from`, and where it ends.
fn read_word(text: &str, n: usize, from: usize) -> (r: (String, usize))
    requires
        n == text@.len(),
        from <= n,
    ensures
        r.1 == word_end(text@, from as int),
        r.0@ == text@.subrange(from as int, r.1 as int),
        from <= r.1 <= n,
{
    let mut end: usize = from;
    while end < n && keeps_word(text.get_char(end))
        invariant
            from <= end <= n,
            n == text@.len(),
            word_end(text@, end as int) == word_end(text@, from as int),
        decreases n - end,
    {
        end = end + 1;
    }
    (text.substring_char(from, end).to_owned(), end)
}

/// The number at `from`, and where its digits end.
fn read_number(text: &str, n: usize, from: usize, negative: bool) -> (r: (Token, usize))
    requires
        n == text@.len(),
        from <= n,
    ensures
        r.1 == digits_end(text@, from as int),
        r.0.deep_view() == number_word(text@.subrange(from as int, r.1 as int), negative),
        from <= r.1 <= n,
{
    let mut end: usize = from;
    let mut value: i64 = 0;
    let mut fits = true;
    proof {
        assert(text@.subrange(from as int, from as int) =~= Seq::<char>::empty());
    }
    while end < n && digit(text.get_char(end))
        invariant
            from <= end <= n,
            n == text@.len(),
            digits_end(text@, end as int) == digits_end(text@, from as int),
            0 <= value,
            fits ==> value == digits_value(text@.subrange(from as int, end as int)),
            !fits ==> digits_value(text@.subrange(from as int, end as int)) > i64::MAX,
        decreases n - end,
    {
        let c = text.get_char(end);
        let d: i64 = c as i64 - '0' as i64;
        proof {
            let less = text@.subrange(from as int, end as int);
            let more = text@.subrange(from as int, end + 1);
            assert(more.drop_last() =~= less);
            assert(more.last() == c);
            assert(digits_value(more) == 10 * digits_value(less) + d);
        }
        if fits && value <= (i64::MAX - d) / 10 {
            value = value * 10 + d;
        } else {
            fits = false;
        }
        end = end + 1;
    }
    if fits {
        if negative {
            (Token::Int(-value), end)
        } else {
            (Token::Int(value), end)
        }
    } else {
        (Token::Stray, end)
    }
}

/// The word that starts at `i`, and where it ends.
fn read_token(text: &str, n: usize, i: usize) -> (r: (Token, usize))
    requires
        n == text@.len(),
        i < n,
    ensures
        r.0.deep_view() == word_at(text@, i as int).0,
        r.1 == word_at(text@, i as int).1,
        i < r.1 <= n,
{
    proof {
        lemma_word_at(text@, i as int);
    }
    let c = text.get_char(i);
    if opens_word(c) {
        let (w, end) = read_word(text, n, i);
        return (Token::Word(w), end);
    }
    if digit(c) {
        return read_number(text, n, i, false);
    }
    if i + 1 < n {
        let next = text.get_char(i + 1);
        if c == '-' && digit(next) {
            return read_number(text, n, i + 1, true);
        }
        if c == '@' && opens_word(next) {
            let (w, end) = read_word(text, n, i + 1);
            return (Token::AtWord(w), end);
        }
        if c == ':' && next == '=' {
            return (Token::Define, i + 2);
        }
    }
    let t = match c {
        '@' => Token::At,
        ':' => Token::Colon,
        '(' => Token::Open(Bracket::Round),
        ')' => Token::Close(Bracket::Round),
        '[' => Token::Open(Bracket::Square),
        ']' => Token::Close(Bracket::Square),
        '{' => Token::Open(Bracket::Brace),
        '}' => Token::Close(Bracket::Brace),
        ',' => Token::Comma,
        ';' => Token::Semicolon,
        '*' => Token::Star,
        '?' => Token::Query,
        _ => Token::Stray,
    };
    (t, i + 1)
}

/// Split a text into words.
pub fn split_words(text: &str) -> (r: Vec<Token>)
    ensures
        r.deep_view() == words(text@),
{
    let n: usize = text.unicode_len();
    let mut out: Vec<Token> = Vec::new();
    let mut i: usize = 0;
    proof {
        assert(out.deep_view() + words_from(text@, 0) =~= words_from(text@, 0));
    }
    while i < n
        invariant
            i <= n,
            n == text@.len(),
            out.deep_view() + words_from(text@, i as int) == words(text@),
        decreases n - i,
    {
        let c = text.get_char(i);
        if space(c) {
            i = i + 1;
        } else {
            let (t, end) = read_token(text, n, i);
            let ghost before = out.deep_view();
            let ghost m = t.deep_view();
            out.push(t);
            proof {
                assert(out.deep_view() =~= before.push(m));
                let rest = words_from(text@, end as int);
                assert(before + (seq![m] + rest) =~= before.push(m) + rest);
            }
            i = end;
        }
    }
    proof {
        assert(out.deep_view() + Seq::<Tok>::empty() =~= out.deep_view());
    }
    out
}

} // verus!
