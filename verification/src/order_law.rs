//! The order of values and rows, in terms of what they hold.

use vstd::prelude::*;
use vstd::utf8::encode_utf8;
use crate::epoch::{in_range, starts_with};
use crate::value::{
    bytes_before, lemma_row_irreflexive, lemma_row_total, lemma_row_transitive,
    lemma_val_irreflexive, row_before, val_before, Interval, Row, Val, ValiditySlot,
};

verus! {

/// Values of different types: null, truth values, numbers, texts, lists,
/// sets, times, spans and the greatest value come in this order.
pub proof fn law_types_in_order(a: Val, b: Val)
    ensures
        a is Null && !(b is Null) ==> val_before(a, b),
        a is Bool && !(b is Null) && !(b is Bool) ==> val_before(a, b),
        a is Num && (b is Str || b is List || b is Members || b is Validity || b is Interval
            || b is Bot) ==> val_before(a, b),
        a is Str && (b is List || b is Members || b is Validity || b is Interval || b is Bot)
            ==> val_before(a, b),
        a is List && (b is Members || b is Validity || b is Interval || b is Bot) ==> val_before(
            a,
            b,
        ),
        a is Members && (b is Validity || b is Interval || b is Bot) ==> val_before(a, b),
        a is Validity && (b is Interval || b is Bot) ==> val_before(a, b),
        a is Interval && b is Bot ==> val_before(a, b),
{
}

/// False comes before true, numbers by size, the later time before the
/// earlier and at one instant the assertion before the retraction, and spans
/// by their start and then by their end.
pub proof fn law_within_types(
    p: bool,
    q: bool,
    i: i64,
    j: i64,
    s: ValiditySlot,
    t: ValiditySlot,
    x: Interval,
    y: Interval,
)
    ensures
        val_before(Val::Bool(p), Val::Bool(q)) <==> p == false && q == true,
        val_before(Val::Num(i), Val::Num(j)) <==> i < j,
        s.ts > t.ts ==> val_before(Val::Validity(s), Val::Validity(t)),
        s.ts < t.ts ==> !val_before(Val::Validity(s), Val::Validity(t)),
        s.ts == t.ts ==> (val_before(Val::Validity(s), Val::Validity(t)) <==> s.is_assert
            && !t.is_assert),
        x.start < y.start ==> val_before(Val::Interval(x), Val::Interval(y)),
        x.start > y.start ==> !val_before(Val::Interval(x), Val::Interval(y)),
        x.start == y.start ==> (val_before(Val::Interval(x), Val::Interval(y)) <==> x.end < y.end),
{
}

/// Whether a sequence is a proper prefix of another, or has something less at
/// the first place where they differ.
pub open spec fn first_difference(a: Row, b: Row, k: int) -> bool {
    &&& 0 <= k <= a.len()
    &&& k < b.len()
    &&& a.take(k) == b.take(k)
    &&& k == a.len() || val_before(a[k], b[k])
}

/// A row comes before another exactly where it is a proper prefix of it, or
/// has a lesser value at the first place where they differ.
pub proof fn law_rows_by_first_difference(a: Row, b: Row)
    ensures
        row_before(a, b) <==> exists|k: int| #[trigger] first_difference(a, b, k),
    decreases a.len(),
{
    if b.len() == 0 {
    } else if a.len() == 0 {
        assert(a.take(0) =~= b.take(0));
        assert(first_difference(a, b, 0));
    } else if a[0] == b[0] {
        let x = a.drop_first();
        let y = b.drop_first();
        law_rows_by_first_difference(x, y);
        if row_before(x, y) {
            let k = choose|k: int| #[trigger] first_difference(x, y, k);
            assert(a.take(k + 1) =~= seq![a[0]] + x.take(k));
            assert(b.take(k + 1) =~= seq![b[0]] + y.take(k));
            assert(first_difference(a, b, k + 1));
        }
        if exists|k: int| #[trigger] first_difference(a, b, k) {
            let k = choose|k: int| #[trigger] first_difference(a, b, k);
            lemma_val_irreflexive(a[0]);
            assert(k > 0);
            assert(x.take(k - 1) =~= a.take(k).drop_first());
            assert(y.take(k - 1) =~= b.take(k).drop_first());
            assert(first_difference(x, y, k - 1));
        }
    } else {
        if row_before(a, b) {
            assert(a.take(0) =~= b.take(0));
            assert(first_difference(a, b, 0));
        }
        if exists|k: int| #[trigger] first_difference(a, b, k) {
            let k = choose|k: int| #[trigger] first_difference(a, b, k);
            if k > 0 {
                assert(a.take(k)[0] == b.take(k)[0]);
            }
        }
    }
}

/// Lists, and sets by their members in order, are ordered as rows.
pub proof fn law_lists_are_ordered_as_rows(a: Row, b: Row)
    ensures
        val_before(Val::List(a), Val::List(b)) <==> row_before(a, b),
        val_before(Val::Members(a), Val::Members(b)) <==> row_before(a, b),
{
}

/// Whether bytes are a proper prefix of others, or have a lesser one at the
/// first place where they differ.
pub open spec fn first_byte_difference(a: Seq<u8>, b: Seq<u8>, k: int) -> bool {
    &&& 0 <= k <= a.len()
    &&& k < b.len()
    &&& a.take(k) == b.take(k)
    &&& k == a.len() || a[k] < b[k]
}

proof fn lemma_bytes_by_first_difference(a: Seq<u8>, b: Seq<u8>)
    ensures
        bytes_before(a, b) <==> exists|k: int| #[trigger] first_byte_difference(a, b, k),
    decreases a.len(),
{
    if b.len() == 0 {
    } else if a.len() == 0 {
        assert(a.take(0) =~= b.take(0));
        assert(first_byte_difference(a, b, 0));
    } else if a[0] == b[0] {
        let x = a.drop_first();
        let y = b.drop_first();
        lemma_bytes_by_first_difference(x, y);
        if bytes_before(x, y) {
            let k = choose|k: int| #[trigger] first_byte_difference(x, y, k);
            assert(a.take(k + 1) =~= seq![a[0]] + x.take(k));
            assert(b.take(k + 1) =~= seq![b[0]] + y.take(k));
            assert(first_byte_difference(a, b, k + 1));
        }
        if exists|k: int| #[trigger] first_byte_difference(a, b, k) {
            let k = choose|k: int| #[trigger] first_byte_difference(a, b, k);
            assert(k > 0);
            assert(x.take(k - 1) =~= a.take(k).drop_first());
            assert(y.take(k - 1) =~= b.take(k).drop_first());
            assert(first_byte_difference(x, y, k - 1));
        }
    } else {
        if bytes_before(a, b) {
            assert(a.take(0) =~= b.take(0));
            assert(first_byte_difference(a, b, 0));
        }
        if exists|k: int| #[trigger] first_byte_difference(a, b, k) {
            let k = choose|k: int| #[trigger] first_byte_difference(a, b, k);
            if k > 0 {
                assert(a.take(k)[0] == b.take(k)[0]);
            }
        }
    }
}

/// A text comes before another exactly where its bytes are a proper prefix of
/// the other's, or have a lesser one at the first place where they differ.
pub proof fn law_texts_by_first_difference(a: Seq<char>, b: Seq<char>)
    ensures
        val_before(Val::Str(a), Val::Str(b)) <==> exists|k: int| #[trigger]
            first_byte_difference(encode_utf8(a), encode_utf8(b), k),
{
    lemma_bytes_by_first_difference(encode_utf8(a), encode_utf8(b));
}

/// A row is in a range exactly where it is the lower bound or comes after it,
/// and comes before the upper bound or, if that is in the range, is it.
pub proof fn law_ranges_lie_between(row: Row, lower: Row, upper: Row)
    ensures
        in_range(row, lower, upper, true) <==> (row == lower || row_before(lower, row)) && (row
            == upper || row_before(row, upper)),
        in_range(row, lower, upper, false) <==> (row == lower || row_before(lower, row)) && row
            != upper && row_before(row, upper),
{
    lemma_row_total(row, lower);
    lemma_row_irreflexive(row);
    if row_before(row, lower) && row_before(lower, row) {
        lemma_row_transitive(row, lower, row);
    }
}

/// A row begins with another exactly where it is that row and more behind it.
pub proof fn law_prefixes_go_on(row: Row, prefix: Row)
    ensures
        starts_with(row, prefix) <==> exists|rest: Row| row == #[trigger] (prefix + rest),
{
    if starts_with(row, prefix) {
        let rest = row.skip(prefix.len() as int);
        assert(row =~= prefix + rest);
    }
    if exists|rest: Row| row == #[trigger] (prefix + rest) {
        let rest = choose|rest: Row| row == #[trigger] (prefix + rest);
        assert(row.take(prefix.len() as int) =~= prefix);
    }
}

} // verus!
