//! Writing words out as text, and reading them back.

use vstd::prelude::*;
use crate::lex::{
    continues_word, digits_end, digits_value, is_digit, is_space, number_word, starts_word, word_at,
    word_end, words, words_from, Bracket, Tok,
};
use crate::names::Name;
use crate::script::{script, RuleModel, ScriptModel, WriteModel};
use crate::script_law::{
    are_writable, law_rules_read_back, law_write_reads_back, rules_out, write_out,
};
use crate::text::{decimal, digit, signed, val_text};
use crate::value::Val;

verus! {

proof fn lemma_digit(d: nat)
    requires
        d < 10,
    ensures
        is_digit(digit(d)),
        digit(d) as int - '0' as int == d,
{
}

/// A number in decimal digits is read as that number.
pub proof fn law_decimal_reads_back(n: nat)
    ensures
        decimal(n).len() > 0,
        forall|i: int| 0 <= i < decimal(n).len() ==> is_digit(#[trigger] decimal(n)[i]),
        digits_value(decimal(n)) == n,
    decreases n,
{
    reveal_with_fuel(digits_value, 2);
    let ds = decimal(n);
    lemma_digit(n % 10);
    if n < 10 {
        assert(ds.drop_last() =~= Seq::<char>::empty());
    } else {
        law_decimal_reads_back(n / 10);
        assert(ds.drop_last() =~= decimal(n / 10));
        assert(ds.last() == digit(n % 10));
        assert(n == 10 * (n / 10) + n % 10);
    }
}

/// A word as text.
pub open spec fn text_of(t: Tok) -> Seq<char> {
    match t {
        Tok::Word(w) => w,
        Tok::AtWord(w) => seq!['@'] + w,
        Tok::At => seq!['@'],
        Tok::Int(n) => signed(n as int),
        Tok::Open(Bracket::Round) => seq!['('],
        Tok::Open(Bracket::Square) => seq!['['],
        Tok::Open(Bracket::Brace) => seq!['{'],
        Tok::Close(Bracket::Round) => seq![')'],
        Tok::Close(Bracket::Square) => seq![']'],
        Tok::Close(Bracket::Brace) => seq!['}'],
        Tok::Comma => seq![','],
        Tok::Semicolon => seq![';'],
        Tok::Star => seq!['*'],
        Tok::Query => seq!['?'],
        Tok::Colon => seq![':'],
        Tok::Define => seq![':', '='],
        Tok::Stray => Seq::empty(),
    }
}

/// Whether some characters are a name.
pub open spec fn is_name(w: Name) -> bool {
    &&& w.len() > 0
    &&& starts_word(w[0])
    &&& forall|i: int| 0 <= i < w.len() ==> continues_word(#[trigger] w[i])
}

/// Whether a word can be written: a name is one, and a number is in the range
/// of numbers.
pub open spec fn has_text(t: Tok) -> bool {
    match t {
        Tok::Word(w) => is_name(w),
        Tok::AtWord(w) => is_name(w),
        Tok::Int(n) => n > i64::MIN,
        Tok::Stray => false,
        _ => true,
    }
}

/// Whether two words need space between them.
pub open spec fn glue(a: Tok, b: Tok) -> bool {
    ||| (a is Word || a is AtWord) && (b is Word || b is Int && b->Int_0 >= 0)
    ||| a is Int && b is Int && b->Int_0 >= 0
    ||| a is At && b is Word
}

/// Words as text, each with space behind it.
pub open spec fn spaced(ts: Seq<Tok>, gaps: Seq<Seq<char>>) -> Seq<char>
    decreases ts.len(),
{
    if ts.len() == 0 {
        Seq::empty()
    } else {
        text_of(ts[0]) + gaps[0] + spaced(ts.drop_first(), gaps.drop_first())
    }
}

/// Whether all characters are space.
pub open spec fn all_space(cs: Seq<char>) -> bool {
    forall|i: int| 0 <= i < cs.len() ==> is_space(#[trigger] cs[i])
}

/// Whether words can be written with some space between them: any, or none
/// where they do not need it.
pub open spec fn well_spaced(ts: Seq<Tok>, gaps: Seq<Seq<char>>) -> bool {
    &&& gaps.len() == ts.len()
    &&& forall|i: int| 0 <= i < gaps.len() ==> all_space(#[trigger] gaps[i])
    &&& forall|i: int| 0 <= i < ts.len() ==> has_text(#[trigger] ts[i])
    &&& forall|i: int|
        0 <= i < ts.len() - 1 && #[trigger] gaps[i].len() == 0 ==> !glue(ts[i], ts[i + 1])
}

/// Whether a character ends a word.
spec fn ends(t: Tok, c: char) -> bool {
    match t {
        Tok::Word(_) => !continues_word(c),
        Tok::AtWord(_) => !continues_word(c),
        Tok::Int(_) => !is_digit(c),
        Tok::At => !starts_word(c),
        Tok::Colon => c != '=',
        _ => true,
    }
}

proof fn lemma_word_ends(cs: Seq<char>, i: int, e: int)
    requires
        0 <= i <= e <= cs.len(),
        forall|j: int| i <= j < e ==> continues_word(#[trigger] cs[j]),
        e < cs.len() ==> !continues_word(cs[e]),
    ensures
        word_end(cs, i) == e,
    decreases e - i,
{
    if i < e {
        assert(continues_word(cs[i]));
        lemma_word_ends(cs, i + 1, e);
    }
}

proof fn lemma_digits_ends(cs: Seq<char>, i: int, e: int)
    requires
        0 <= i <= e <= cs.len(),
        forall|j: int| i <= j < e ==> is_digit(#[trigger] cs[j]),
        e < cs.len() ==> !is_digit(cs[e]),
    ensures
        digits_end(cs, i) == e,
    decreases e - i,
{
    if i < e {
        assert(is_digit(cs[i]));
        lemma_digits_ends(cs, i + 1, e);
    }
}

/// A name at a place is read as such.
proof fn lemma_name_at(cs: Seq<char>, i: int, w: Name)
    requires
        is_name(w),
        0 <= i,
        i + w.len() <= cs.len(),
        cs.subrange(i, i + w.len()) == w,
        i + w.len() < cs.len() ==> !continues_word(cs[i + w.len()]),
    ensures
        word_end(cs, i) == i + w.len(),
        starts_word(cs[i]),
{
    let e = i + w.len();
    assert forall|j: int| i <= j < e implies continues_word(#[trigger] cs[j]) by {
        assert(cs.subrange(i, e)[j - i] == w[j - i]);
        assert(continues_word(w[j - i]));
    }
    assert(cs.subrange(i, e)[0] == w[0]);
    lemma_word_ends(cs, i, e);
}

/// Digits at a place are read as such.
proof fn lemma_digits_at(cs: Seq<char>, i: int, n: nat)
    requires
        0 <= i,
        i + decimal(n).len() <= cs.len(),
        cs.subrange(i, i + decimal(n).len()) == decimal(n),
        i + decimal(n).len() < cs.len() ==> !is_digit(cs[i + decimal(n).len()]),
    ensures
        decimal(n).len() > 0,
        digits_end(cs, i) == i + decimal(n).len(),
        is_digit(cs[i]),
        digits_value(cs.subrange(i, i + decimal(n).len())) == n,
{
    let ds = decimal(n);
    law_decimal_reads_back(n);
    let e = i + ds.len();
    assert forall|j: int| i <= j < e implies is_digit(#[trigger] cs[j]) by {
        assert(cs.subrange(i, e)[j - i] == ds[j - i]);
        assert(is_digit(ds[j - i]));
    }
    lemma_digits_ends(cs, i, e);
    assert(is_digit(cs[i]));
}

/// A word that stands as text at a place is read there.
proof fn lemma_word_reads(cs: Seq<char>, i: int, t: Tok)
    requires
        has_text(t),
        0 <= i,
        i + text_of(t).len() <= cs.len(),
        cs.subrange(i, i + text_of(t).len()) == text_of(t),
        i + text_of(t).len() < cs.len() ==> ends(t, cs[i + text_of(t).len()]),
    ensures
        text_of(t).len() > 0,
        !is_space(cs[i]),
        word_at(cs, i) == (t, i + text_of(t).len()),
{
    let text = text_of(t);
    let e = i + text.len();
    assert forall|j: int| i <= j < e implies #[trigger] cs[j] == text[j - i] by {
        assert(cs.subrange(i, e)[j - i] == text[j - i]);
    }
    match t {
        Tok::Word(w) => {
            lemma_name_at(cs, i, w);
        },
        Tok::AtWord(w) => {
            assert(cs.subrange(i + 1, e) =~= w) by {
                assert forall|k: int| 0 <= k < w.len() implies cs.subrange(i + 1, e)[k] == w[k] by {
                    assert(cs[i + 1 + k] == text[k + 1]);
                }
            }
            lemma_name_at(cs, i + 1, w);
            assert(cs[i] == text[0]);
        },
        Tok::Int(n) => {
            if n < 0 {
                reveal_strlit("-");
                let ds = decimal((-n) as nat);
                assert(text =~= seq!['-'] + ds);
                assert(cs.subrange(i + 1, e) =~= ds) by {
                    assert forall|k: int| 0 <= k < ds.len() implies cs.subrange(i + 1, e)[k]
                        == ds[k] by {
                        assert(cs[i + 1 + k] == text[k + 1]);
                    }
                }
                lemma_digits_at(cs, i + 1, (-n) as nat);
                assert(cs[i] == text[0]);
                assert(number_word(ds, true) == t);
            } else {
                lemma_digits_at(cs, i, n as nat);
                assert(number_word(decimal(n as nat), false) == t);
            }
        },
        Tok::Define => {
            assert(cs[i] == text[0]);
            assert(cs[i + 1] == text[1]);
        },
        _ => {
            assert(cs[i] == text[0]);
        },
    }
}

/// The text of a word begins with what does not end a word that it does not
/// glue to.
proof fn lemma_apart(a: Tok, b: Tok)
    requires
        has_text(a),
        has_text(b),
        !glue(a, b),
    ensures
        text_of(b).len() > 0,
        ends(a, text_of(b)[0]),
{
    match b {
        Tok::Int(n) => {
            if n < 0 {
                reveal_strlit("-");
                assert(text_of(b)[0] == '-');
            } else {
                law_decimal_reads_back(n as nat);
                assert(is_digit(decimal(n as nat)[0]));
            }
        },
        _ => {},
    }
}

proof fn lemma_space_ends(t: Tok, c: char)
    requires
        is_space(c),
    ensures
        ends(t, c),
{
}

proof fn lemma_skip_space(cs: Seq<char>, i: int, k: int)
    requires
        0 <= i <= k <= cs.len(),
        forall|j: int| i <= j < k ==> is_space(#[trigger] cs[j]),
    ensures
        words_from(cs, i) == words_from(cs, k),
    decreases k - i,
{
    if i < k {
        assert(is_space(cs[i]));
        lemma_skip_space(cs, i + 1, k);
    }
}

proof fn lemma_words_from(cs: Seq<char>, i: int, ts: Seq<Tok>, gaps: Seq<Seq<char>>)
    requires
        0 <= i <= cs.len(),
        well_spaced(ts, gaps),
        cs.skip(i) == spaced(ts, gaps),
    ensures
        words_from(cs, i) == ts,
    decreases ts.len(),
{
    let rest = cs.skip(i);
    if ts.len() == 0 {
        assert(cs.len() == i);
        assert(ts =~= Seq::<Tok>::empty());
    } else {
        let t = ts[0];
        let gap = gaps[0];
        let more = ts.drop_first();
        let between = gaps.drop_first();
        let text = text_of(t);
        let tail = spaced(more, between);
        let e = i + text.len();
        let k = e + gap.len();
        assert(rest == text + gap + tail);
        assert(cs.len() == i + rest.len());
        assert forall|j: int| 0 <= j < rest.len() implies #[trigger] rest[j] == cs[i + j] by {}
        assert(cs.subrange(i, e) =~= text) by {
            assert forall|j: int| 0 <= j < text.len() implies cs.subrange(i, e)[j] == text[j] by {
                assert(rest[j] == text[j]);
            }
        }
        assert forall|j: int| e <= j < k implies is_space(#[trigger] cs[j]) by {
            assert(rest[j - i] == gap[j - e]);
            assert(all_space(gaps[0]));
        }
        assert(cs.skip(k) =~= tail) by {
            assert forall|j: int| 0 <= j < tail.len() implies cs.skip(k)[j] == tail[j] by {
                assert(rest[j + k - i] == tail[j]);
            }
        }
        assert(has_text(ts[0]));
        if e < cs.len() {
            if gap.len() > 0 {
                lemma_space_ends(t, cs[e]);
            } else {
                assert(tail.len() > 0);
                assert(more.len() > 0);
                assert(gaps[0].len() == 0);
                assert(!glue(ts[0], ts[1]));
                assert(has_text(ts[1]));
                lemma_apart(t, ts[1]);
                assert(more[0] == ts[1]);
                assert(cs.skip(k)[0] == tail[0]);
                assert(tail[0] == text_of(ts[1])[0]);
            }
        }
        lemma_word_reads(cs, i, t);
        assert forall|j: int| 0 <= j < between.len() implies all_space(#[trigger] between[j]) by {
            assert(between[j] == gaps[j + 1]);
        }
        assert forall|j: int| 0 <= j < more.len() implies has_text(#[trigger] more[j]) by {
            assert(more[j] == ts[j + 1]);
        }
        assert forall|j: int|
            0 <= j < more.len() - 1 && #[trigger] between[j].len() == 0 implies !glue(
            more[j],
            more[j + 1],
        ) by {
            assert(between[j] == gaps[j + 1]);
            assert(more[j] == ts[j + 1] && more[j + 1] == ts[j + 2]);
        }
        lemma_words_from(cs, k, more, between);
        lemma_skip_space(cs, e, k);
        assert(words_from(cs, i) == seq![t] + words_from(cs, e));
        assert(seq![t] + more =~= ts);
    }
}

/// Words that are written out as text, with any space around them, read as
/// they were.
pub proof fn law_words_read_back(lead: Seq<char>, ts: Seq<Tok>, gaps: Seq<Seq<char>>)
    requires
        all_space(lead),
        well_spaced(ts, gaps),
    ensures
        words(lead + spaced(ts, gaps)) == ts,
{
    let cs = lead + spaced(ts, gaps);
    let n = lead.len() as int;
    assert forall|j: int| 0 <= j < n implies is_space(#[trigger] cs[j]) by {
        assert(cs[j] == lead[j]);
    }
    lemma_skip_space(cs, 0, n);
    assert(cs.skip(n) =~= spaced(ts, gaps));
    lemma_words_from(cs, n, ts, gaps);
}

/// Rules that are written out as text read as they were.
pub proof fn law_rules_text_reads_back(
    rs: Seq<RuleModel>,
    bs: Seq<Seq<Bracket>>,
    lead: Seq<char>,
    gaps: Seq<Seq<char>>,
)
    requires
        are_writable(rs, bs),
        all_space(lead),
        well_spaced(rules_out(rs, bs), gaps),
    ensures
        script(lead + spaced(rules_out(rs, bs), gaps)) == Some(ScriptModel::Rules(rs)),
{
    law_rules_read_back(rs, bs);
    law_words_read_back(lead, rules_out(rs, bs), gaps);
}

/// A write that is written out as text reads as it was.
pub proof fn law_write_text_reads_back(
    w: WriteModel,
    types: Seq<Option<Name>>,
    lead: Seq<char>,
    gaps: Seq<Seq<char>>,
)
    requires
        w.columns.len() > 0,
        types.len() == w.columns.len(),
        all_space(lead),
        well_spaced(write_out(w, types), gaps),
    ensures
        script(lead + spaced(write_out(w, types), gaps)) == Some(ScriptModel::Write(w)),
{
    law_write_reads_back(w, types);
    law_words_read_back(lead, write_out(w, types), gaps);
    assert(write_out(w, types)[0] == Tok::Colon);
}

/// A number shown in a message reads, as a script, as the word of that
/// number.
pub proof fn law_shown_number_reads_back(n: i64)
    requires
        n > i64::MIN,
    ensures
        words(val_text(Val::Num(n))) == seq![Tok::Int(n)],
{
    let ts = seq![Tok::Int(n)];
    let gaps = seq![Seq::<char>::empty()];
    law_words_read_back(Seq::empty(), ts, gaps);
    reveal_with_fuel(spaced, 2);
    assert(Seq::<char>::empty() + spaced(ts, gaps) =~= signed(n as int));
}

} // verus!
