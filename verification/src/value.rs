//! Data values, tuples of them, and the order both are kept in.

use vstd::prelude::*;
use vstd::utf8::encode_utf8;
use crate::order::{strictly_sorted, Rank, Total};

verus! {

/// A half-open span of instants.
#[derive(Clone, Copy, Debug, PartialEq, Eq, Structural)]
pub struct Interval {
    pub start: i64,
    pub end: i64,
}

/// A time coordinate as it is stored in a key: newest first, and at one
/// instant the assertion before the retraction.
#[derive(Clone, Copy, Debug, PartialEq, Eq, Structural)]
pub struct ValiditySlot {
    pub ts: i64,
    pub is_assert: bool,
}

/// A value of the engine's data model.
///
/// The variants are declared in value order: a value of an earlier variant is
/// smaller than every value of a later one.
#[derive(Debug, PartialEq, Eq)]
pub enum DataValue {
    Null,
    Bool(bool),
    Num(i64),
    Str(String),
    List(Vec<DataValue>),
    /// A set of values, held as its members in strictly increasing order.
    Members(Vec<DataValue>),
    Validity(ValiditySlot),
    Interval(Interval),
    /// Greater than every other value.
    Bot,
}

/// A row of values.
pub type Tuple = Vec<DataValue>;

/// The mathematical model of a [`DataValue`].
pub enum Val {
    Null,
    Bool(bool),
    Num(i64),
    Str(Seq<char>),
    List(Seq<Val>),
    Members(Seq<Val>),
    Validity(ValiditySlot),
    Interval(Interval),
    Bot,
}

/// The model of a row.
pub type Row = Seq<Val>;

impl DeepView for DataValue {
    type V = Val;

    open spec fn deep_view(&self) -> Val {
        value_model(*self)
    }
}

pub open spec fn value_model(v: DataValue) -> Val
    decreases v,
{
    match v {
        DataValue::Null => Val::Null,
        DataValue::Bool(b) => Val::Bool(b),
        DataValue::Num(i) => Val::Num(i),
        DataValue::Str(s) => Val::Str(s@),
        DataValue::List(xs) => Val::List(
            Seq::new(
                xs@.len(),
                |i: int|
                    if 0 <= i < xs@.len() {
                        value_model(xs@[i])
                    } else {
                        Val::Null
                    },
            ),
        ),
        DataValue::Members(xs) => Val::Members(
            Seq::new(
                xs@.len(),
                |i: int|
                    if 0 <= i < xs@.len() {
                        value_model(xs@[i])
                    } else {
                        Val::Null
                    },
            ),
        ),
        DataValue::Validity(s) => Val::Validity(s),
        DataValue::Interval(iv) => Val::Interval(iv),
        DataValue::Bot => Val::Bot,
    }
}

/// The model of a list value is the list of its elements' models.
pub broadcast proof fn lemma_list_model(xs: Vec<DataValue>)
    ensures
        #[trigger] value_model(DataValue::List(xs)) == Val::List(xs.deep_view()),
{
    assert(value_model(DataValue::List(xs))->List_0 =~= xs.deep_view());
}

/// The model of a set value is the list of its members' models.
pub broadcast proof fn lemma_members_model(xs: Vec<DataValue>)
    ensures
        #[trigger] value_model(DataValue::Members(xs)) == Val::Members(xs.deep_view()),
{
    assert(value_model(DataValue::Members(xs))->Members_0 =~= xs.deep_view());
}

/// The position of a value's variant in the value order.
pub open spec fn variant_position(v: Val) -> int {
    match v {
        Val::Null => 0,
        Val::Bool(_) => 1,
        Val::Num(_) => 2,
        Val::Str(_) => 3,
        Val::List(_) => 4,
        Val::Members(_) => 5,
        Val::Validity(_) => 6,
        Val::Interval(_) => 7,
        Val::Bot => 8,
    }
}

/// Lexicographic order on byte strings, a proper prefix first.
pub open spec fn bytes_before(a: Seq<u8>, b: Seq<u8>) -> bool
    decreases a.len(),
{
    if b.len() == 0 {
        false
    } else if a.len() == 0 {
        true
    } else if a[0] == b[0] {
        bytes_before(a.drop_first(), b.drop_first())
    } else {
        a[0] < b[0]
    }
}

/// The value order: by variant, then by content.
pub open spec fn val_before(a: Val, b: Val) -> bool
    decreases a,
{
    match (a, b) {
        (Val::Bool(x), Val::Bool(y)) => !x && y,
        (Val::Num(x), Val::Num(y)) => x < y,
        (Val::Str(x), Val::Str(y)) => bytes_before(encode_utf8(x), encode_utf8(y)),
        (Val::List(x), Val::List(y)) => row_before(x, y),
        (Val::Members(x), Val::Members(y)) => row_before(x, y),
        (Val::Validity(x), Val::Validity(y)) => x.ts > y.ts || (x.ts == y.ts && x.is_assert
            && !y.is_assert),
        (Val::Interval(x), Val::Interval(y)) => x.start < y.start || (x.start == y.start && x.end
            < y.end),
        _ => variant_position(a) < variant_position(b),
    }
}

/// The tuple order: lexicographic, a proper prefix first.
pub open spec fn row_before(a: Row, b: Row) -> bool
    decreases a,
{
    if b.len() == 0 {
        false
    } else if a.len() == 0 {
        true
    } else if a[0] == b[0] {
        row_before(a.drop_first(), b.drop_first())
    } else {
        val_before(a[0], b[0])
    }
}

proof fn lemma_bytes_irreflexive(a: Seq<u8>)
    ensures
        !bytes_before(a, a),
    decreases a.len(),
{
    if a.len() > 0 {
        lemma_bytes_irreflexive(a.drop_first());
    }
}

proof fn lemma_bytes_transitive(a: Seq<u8>, b: Seq<u8>, c: Seq<u8>)
    requires
        bytes_before(a, b),
        bytes_before(b, c),
    ensures
        bytes_before(a, c),
    decreases a.len(),
{
    if a.len() > 0 && a[0] == b[0] && b[0] == c[0] {
        lemma_bytes_transitive(a.drop_first(), b.drop_first(), c.drop_first());
    }
}

proof fn lemma_bytes_total(a: Seq<u8>, b: Seq<u8>)
    ensures
        a == b || bytes_before(a, b) || bytes_before(b, a),
    decreases a.len(),
{
    if a.len() > 0 && b.len() > 0 && a[0] == b[0] {
        lemma_bytes_total(a.drop_first(), b.drop_first());
        if a.drop_first() == b.drop_first() {
            assert(a =~= seq![a[0]] + a.drop_first());
            assert(b =~= seq![b[0]] + b.drop_first());
        }
    } else if a.len() == 0 && b.len() == 0 {
        assert(a =~= b);
    }
}

proof fn lemma_text_total(a: Seq<char>, b: Seq<char>)
    ensures
        a == b || bytes_before(encode_utf8(a), encode_utf8(b)) || bytes_before(
            encode_utf8(b),
            encode_utf8(a),
        ),
{
    lemma_bytes_total(encode_utf8(a), encode_utf8(b));
    vstd::utf8::encode_utf8_decode_utf8(a);
    vstd::utf8::encode_utf8_decode_utf8(b);
}

/// No value comes before itself.
pub proof fn lemma_val_irreflexive(a: Val)
    ensures
        !val_before(a, a),
    decreases a,
{
    match a {
        Val::Str(x) => lemma_bytes_irreflexive(encode_utf8(x)),
        Val::List(x) => lemma_row_irreflexive(x),
        Val::Members(x) => lemma_row_irreflexive(x),
        _ => {},
    }
}

/// No row comes before itself.
pub proof fn lemma_row_irreflexive(a: Row)
    ensures
        !row_before(a, a),
    decreases a,
{
    if a.len() > 0 {
        lemma_val_irreflexive(a[0]);
        lemma_row_irreflexive(a.drop_first());
    }
}

/// The value order is transitive.
pub proof fn lemma_val_transitive(a: Val, b: Val, c: Val)
    requires
        val_before(a, b),
        val_before(b, c),
    ensures
        val_before(a, c),
    decreases a,
{
    match (a, b, c) {
        (Val::Str(x), Val::Str(y), Val::Str(z)) => lemma_bytes_transitive(
            encode_utf8(x),
            encode_utf8(y),
            encode_utf8(z),
        ),
        (Val::List(x), Val::List(y), Val::List(z)) => lemma_row_transitive(x, y, z),
        (Val::Members(x), Val::Members(y), Val::Members(z)) => lemma_row_transitive(x, y, z),
        _ => {},
    }
}

/// The tuple order is transitive.
pub proof fn lemma_row_transitive(a: Row, b: Row, c: Row)
    requires
        row_before(a, b),
        row_before(b, c),
    ensures
        row_before(a, c),
    decreases a,
{
    if a.len() > 0 {
        if a[0] == b[0] && b[0] == c[0] {
            lemma_row_transitive(a.drop_first(), b.drop_first(), c.drop_first());
        } else if a[0] != b[0] && b[0] != c[0] {
            lemma_val_transitive(a[0], b[0], c[0]);
            if a[0] == c[0] {
                lemma_val_irreflexive(a[0]);
            }
        }
    }
}

/// Of two different values one comes before the other.
pub proof fn lemma_val_total(a: Val, b: Val)
    ensures
        a == b || val_before(a, b) || val_before(b, a),
    decreases a,
{
    match (a, b) {
        (Val::Str(x), Val::Str(y)) => lemma_text_total(x, y),
        (Val::List(x), Val::List(y)) => lemma_row_total(x, y),
        (Val::Members(x), Val::Members(y)) => lemma_row_total(x, y),
        _ => {},
    }
}

/// Of two different rows one comes before the other.
pub proof fn lemma_row_total(a: Row, b: Row)
    ensures
        a == b || row_before(a, b) || row_before(b, a),
    decreases a,
{
    if a.len() > 0 && b.len() > 0 {
        if a[0] == b[0] {
            lemma_row_total(a.drop_first(), b.drop_first());
            if a.drop_first() == b.drop_first() {
                assert(a =~= seq![a[0]] + a.drop_first());
                assert(b =~= seq![b[0]] + b.drop_first());
            }
        } else {
            lemma_val_total(a[0], b[0]);
        }
    } else if a.len() == 0 && b.len() == 0 {
        assert(a =~= b);
    }
}

/// Rows that agree on a prefix compare as what follows it.
pub proof fn lemma_row_skip(a: Row, b: Row, n: int)
    requires
        0 <= n <= a.len(),
        n <= b.len(),
        forall|i: int| 0 <= i < n ==> a[i] == b[i],
    ensures
        row_before(a, b) == row_before(a.skip(n), b.skip(n)),
    decreases n,
{
    if n > 0 {
        lemma_row_skip(a.drop_first(), b.drop_first(), n - 1);
        assert(a.drop_first().skip(n - 1) =~= a.skip(n));
        assert(b.drop_first().skip(n - 1) =~= b.skip(n));
    } else {
        assert(a.skip(0) =~= a);
        assert(b.skip(0) =~= b);
    }
}

proof fn lemma_bytes_skip(a: Seq<u8>, b: Seq<u8>, n: int)
    requires
        0 <= n <= a.len(),
        n <= b.len(),
        forall|i: int| 0 <= i < n ==> a[i] == b[i],
    ensures
        bytes_before(a, b) == bytes_before(a.skip(n), b.skip(n)),
    decreases n,
{
    if n > 0 {
        lemma_bytes_skip(a.drop_first(), b.drop_first(), n - 1);
        assert(a.drop_first().skip(n - 1) =~= a.skip(n));
        assert(b.drop_first().skip(n - 1) =~= b.skip(n));
    } else {
        assert(a.skip(0) =~= a);
        assert(b.skip(0) =~= b);
    }
}

fn rank_ints(a: i64, b: i64) -> (r: Rank)
    ensures
        r == (if a == b {
            Rank::Same
        } else if a < b {
            Rank::Before
        } else {
            Rank::After
        }),
{
    if a == b {
        Rank::Same
    } else if a < b {
        Rank::Before
    } else {
        Rank::After
    }
}

/// Compare two texts in the order of their UTF-8 bytes.
pub fn rank_texts(a: &str, b: &str) -> (r: Rank)
    ensures
        r == (if a@ == b@ {
            Rank::Same
        } else if bytes_before(encode_utf8(a@), encode_utf8(b@)) {
            Rank::Before
        } else {
            Rank::After
        }),
{
    let xs = a.as_bytes();
    let ys = b.as_bytes();
    let mut i: usize = 0;
    while i < xs.len() && i < ys.len() && xs[i] == ys[i]
        invariant
            i <= xs.len(),
            i <= ys.len(),
            forall|j: int| 0 <= j < i ==> xs@[j] == ys@[j],
        decreases xs.len() - i,
    {
        i = i + 1;
    }
    proof {
        lemma_bytes_skip(xs@, ys@, i as int);
        vstd::utf8::encode_utf8_decode_utf8(a@);
        vstd::utf8::encode_utf8_decode_utf8(b@);
        if i == xs.len() && i == ys.len() {
            assert(xs@ =~= ys@);
        }
        if xs@ == ys@ {
            assert(a@ == b@);
            if i < xs.len() {
                assert(xs@[i as int] == ys@[i as int]);
            }
        }
        if xs@.skip(i as int).len() > 0 {
            assert(xs@.skip(i as int)[0] == xs@[i as int]);
        }
        if ys@.skip(i as int).len() > 0 {
            assert(ys@.skip(i as int)[0] == ys@[i as int]);
        }
    }
    if i == xs.len() && i == ys.len() {
        Rank::Same
    } else if i == xs.len() {
        Rank::Before
    } else if i == ys.len() {
        Rank::After
    } else if xs[i] < ys[i] {
        Rank::Before
    } else {
        Rank::After
    }
}

fn variant_of(v: &DataValue) -> (r: u8)
    ensures
        r == variant_position(v.deep_view()),
{
    match v {
        DataValue::Null => 0,
        DataValue::Bool(_) => 1,
        DataValue::Num(_) => 2,
        DataValue::Str(_) => 3,
        DataValue::List(_) => 4,
        DataValue::Members(_) => 5,
        DataValue::Validity(_) => 6,
        DataValue::Interval(_) => 7,
        DataValue::Bot => 8,
    }
}

/// The verdict of the value order on two models.
pub open spec fn val_rank(a: Val, b: Val) -> Rank {
    if a == b {
        Rank::Same
    } else if val_before(a, b) {
        Rank::Before
    } else {
        Rank::After
    }
}

/// The verdict of the tuple order on two models.
pub open spec fn row_rank(a: Row, b: Row) -> Rank {
    if a == b {
        Rank::Same
    } else if row_before(a, b) {
        Rank::Before
    } else {
        Rank::After
    }
}

/// Compare two values.
pub fn rank_values(a: &DataValue, b: &DataValue) -> (r: Rank)
    ensures
        r == val_rank(a.deep_view(), b.deep_view()),
    decreases a,
{
    proof {
        broadcast use {lemma_list_model, lemma_members_model};
    }
    match (a, b) {
        (DataValue::Bool(x), DataValue::Bool(y)) => if *x == *y {
            Rank::Same
        } else if *y {
            Rank::Before
        } else {
            Rank::After
        },
        (DataValue::Num(x), DataValue::Num(y)) => rank_ints(*x, *y),
        (DataValue::Str(x), DataValue::Str(y)) => rank_texts(x.as_str(), y.as_str()),
        (DataValue::List(x), DataValue::List(y)) => rank_rows(x, y),
        (DataValue::Members(x), DataValue::Members(y)) => rank_rows(x, y),
        (DataValue::Validity(x), DataValue::Validity(y)) => match rank_ints(y.ts, x.ts) {
            Rank::Same => if x.is_assert == y.is_assert {
                Rank::Same
            } else if x.is_assert {
                Rank::Before
            } else {
                Rank::After
            },
            other => other,
        },
        (DataValue::Interval(x), DataValue::Interval(y)) => match rank_ints(x.start, y.start) {
            Rank::Same => rank_ints(x.end, y.end),
            other => other,
        },
        _ => {
            let p: u8 = variant_of(a);
            let q: u8 = variant_of(b);
            if p == q {
                Rank::Same
            } else if p < q {
                Rank::Before
            } else {
                Rank::After
            }
        },
    }
}

/// Compare two rows.
pub fn rank_rows(a: &Vec<DataValue>, b: &Vec<DataValue>) -> (r: Rank)
    ensures
        r == row_rank(a.deep_view(), b.deep_view()),
    decreases a,
{
    let ghost x = a.deep_view();
    let ghost y = b.deep_view();
    let mut i: usize = 0;
    while i < a.len() && i < b.len()
        invariant
            i <= a.len(),
            i <= b.len(),
            x == a.deep_view(),
            y == b.deep_view(),
            forall|j: int| 0 <= j < i ==> x[j] == y[j],
        decreases a.len() - i,
    {
        proof {
            lemma_row_skip(x, y, i as int);
            assert(x.skip(i as int)[0] == x[i as int]);
            assert(y.skip(i as int)[0] == y[i as int]);
        }
        match rank_values(&a[i], &b[i]) {
            Rank::Same => {
                i = i + 1;
            },
            other => {
                return other;
            },
        }
    }
    proof {
        lemma_row_skip(x, y, i as int);
    }
    if i < b.len() {
        Rank::Before
    } else if i < a.len() {
        Rank::After
    } else {
        assert(x =~= y);
        Rank::Same
    }
}

impl Total for DataValue {
    open spec fn before(a: Val, b: Val) -> bool {
        val_before(a, b)
    }

    proof fn before_irreflexive(a: Val) {
        lemma_val_irreflexive(a);
    }

    proof fn before_transitive(a: Val, b: Val, c: Val) {
        lemma_val_transitive(a, b, c);
    }

    proof fn before_total(a: Val, b: Val) {
        lemma_val_total(a, b);
    }

    fn rank(&self, other: &Self) -> Rank {
        rank_values(self, other)
    }
}

impl Total for Vec<DataValue> {
    open spec fn before(a: Row, b: Row) -> bool {
        row_before(a, b)
    }

    proof fn before_irreflexive(a: Row) {
        lemma_row_irreflexive(a);
    }

    proof fn before_transitive(a: Row, b: Row, c: Row) {
        lemma_row_transitive(a, b, c);
    }

    proof fn before_total(a: Row, b: Row) {
        lemma_row_total(a, b);
    }

    fn rank(&self, other: &Self) -> Rank {
        rank_rows(self, other)
    }
}

/// Texts are ordered as the values that hold them.
impl Total for String {
    open spec fn before(a: Seq<char>, b: Seq<char>) -> bool {
        val_before(Val::Str(a), Val::Str(b))
    }

    proof fn before_irreflexive(a: Seq<char>) {
        lemma_val_irreflexive(Val::Str(a));
    }

    proof fn before_transitive(a: Seq<char>, b: Seq<char>, c: Seq<char>) {
        lemma_val_transitive(Val::Str(a), Val::Str(b), Val::Str(c));
    }

    proof fn before_total(a: Seq<char>, b: Seq<char>) {
        lemma_val_total(Val::Str(a), Val::Str(b));
    }

    fn rank(&self, other: &Self) -> Rank {
        rank_texts(self.as_str(), other.as_str())
    }
}

/// Rows are strictly sorted exactly when they increase in the tuple order.
pub proof fn lemma_rows_sorted(s: Seq<Row>)
    ensures
        strictly_sorted::<Tuple>(s) == (forall|i: int, j: int|
            0 <= i < j < s.len() ==> row_before(#[trigger] s[i], #[trigger] s[j])),
{
    if strictly_sorted::<Tuple>(s) {
        assert forall|i: int, j: int| 0 <= i < j < s.len() implies row_before(
            #[trigger] s[i],
            #[trigger] s[j],
        ) by {
            assert(<Tuple as Total>::before(s[i], s[j]));
        }
    }
}

/// Whether two values are the same value.
pub fn same_value(a: &DataValue, b: &DataValue) -> (r: bool)
    ensures
        r == (a.deep_view() == b.deep_view()),
{
    match rank_values(a, b) {
        Rank::Same => true,
        _ => false,
    }
}

/// Whether two rows hold the same values.
pub fn same_row(a: &Tuple, b: &Tuple) -> (r: bool)
    ensures
        r == (a.deep_view() == b.deep_view()),
{
    match rank_rows(a, b) {
        Rank::Same => true,
        _ => false,
    }
}

impl Clone for DataValue {
    fn clone(&self) -> (r: Self)
        ensures
            r.deep_view() == self.deep_view(),
        decreases self,
    {
        proof {
            broadcast use {lemma_list_model, lemma_members_model};
        }
        match self {
            DataValue::Null => DataValue::Null,
            DataValue::Bool(b) => DataValue::Bool(*b),
            DataValue::Num(i) => DataValue::Num(*i),
            DataValue::Str(s) => DataValue::Str(s.clone()),
            DataValue::List(xs) => DataValue::List(copy_row(xs)),
            DataValue::Members(xs) => DataValue::Members(copy_row(xs)),
            DataValue::Validity(s) => DataValue::Validity(*s),
            DataValue::Interval(iv) => DataValue::Interval(*iv),
            DataValue::Bot => DataValue::Bot,
        }
    }
}

/// A copy of a row.
pub fn copy_row(row: &Vec<DataValue>) -> (r: Vec<DataValue>)
    ensures
        r.deep_view() == row.deep_view(),
    decreases row,
{
    let mut out: Vec<DataValue> = Vec::new();
    let mut i: usize = 0;
    while i < row.len()
        invariant
            i <= row.len(),
            out.deep_view() == row.deep_view().take(i as int),
        decreases row.len() - i,
    {
        let ghost prev = out.deep_view();
        let copy = row[i].clone();
        out.push(copy);
        assert(out.deep_view() =~= prev.push(row@[i as int].deep_view()));
        assert(row.deep_view().take(i + 1) =~= prev.push(row@[i as int].deep_view()));
        i = i + 1;
    }
    assert(row.deep_view().take(i as int) =~= row.deep_view());
    out
}

/// A copy of rows.
pub fn copy_rows(rows: &Vec<Tuple>) -> (r: Vec<Tuple>)
    ensures
        r.deep_view() == rows.deep_view(),
{
    let mut out: Vec<Tuple> = Vec::new();
    let mut i: usize = 0;
    proof {
        assert(rows.deep_view().len() == rows@.len());
        assert(out.deep_view() =~= rows.deep_view().take(0));
    }
    while i < rows.len()
        invariant
            i <= rows@.len(),
            rows.deep_view().len() == rows@.len(),
            out.deep_view() == rows.deep_view().take(i as int),
        decreases rows.len() - i,
    {
        let ghost prev = out.deep_view();
        let row = copy_row(&rows[i]);
        let ghost m = row.deep_view();
        out.push(row);
        proof {
            assert(out.deep_view() =~= prev.push(m));
            assert(rows.deep_view().take(i + 1) =~= prev.push(m));
        }
        i = i + 1;
    }
    proof {
        assert(rows.deep_view().take(i as int) =~= rows.deep_view());
    }
    out
}

} // verus!
