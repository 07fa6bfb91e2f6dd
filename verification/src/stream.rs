//! Streams of rows: what an operator yields. A stream is a sequence of items,
//! each a row or a failure. A failure stands in the place of what failed, and
//! what comes after it is still there.

use vstd::prelude::*;
use crate::expr::{EvalError, EvalFault, SourceSpan};
use crate::spans::InvalidInterval;
use crate::text::{decimal, join_text, signed, val_text, write_decimal, write_signed, write_value};
use crate::value::{copy_row, DataValue, Row, Tuple, Val};

verus! {

/// A promise between planning and running that was not kept.
#[derive(Clone, Copy, Debug, PartialEq, Eq, Structural)]
pub enum PlanInvariant {
    NoStore,
    ReorderOnTheRight,
    NegationOnTheRight,
    NegatedRight,
    RefusedRight,
    ReorderColumns,
    LeftKey,
    RightKey,
}

impl PlanInvariant {
    pub open spec fn text(self) -> Seq<char> {
        match self {
            PlanInvariant::NoStore => "a compiled scan references a rule with no store"@,
            PlanInvariant::ReorderOnTheRight => "a Reorder cannot be the right side of a join"@,
            PlanInvariant::NegationOnTheRight => "a NegJoin cannot be the right side of a join"@,
            PlanInvariant::NegatedRight =>
                "the right side of a negation must be a rule or stored-relation scan"@,
            PlanInvariant::RefusedRight =>
                "join right side is a Reorder or NegJoin: refused at construction"@,
            PlanInvariant::ReorderColumns =>
                "reorder columns are not a permutation of the parent's"@,
            PlanInvariant::LeftKey => "a left join key is not in the left frame"@,
            PlanInvariant::RightKey => "a right join key is not in the right frame"@,
        }
    }

    /// What was promised.
    pub fn message(&self) -> (r: &'static str)
        ensures
            r@ == self.text(),
    {
        match self {
            PlanInvariant::NoStore => "a compiled scan references a rule with no store",
            PlanInvariant::ReorderOnTheRight => "a Reorder cannot be the right side of a join",
            PlanInvariant::NegationOnTheRight => "a NegJoin cannot be the right side of a join",
            PlanInvariant::NegatedRight =>
                "the right side of a negation must be a rule or stored-relation scan",
            PlanInvariant::RefusedRight =>
                "join right side is a Reorder or NegJoin: refused at construction",
            PlanInvariant::ReorderColumns =>
                "reorder columns are not a permutation of the parent's",
            PlanInvariant::LeftKey => "a left join key is not in the left frame",
            PlanInvariant::RightKey => "a right join key is not in the right frame",
        }
    }
}

/// Why a plan could not be built or run.
#[derive(Debug, PartialEq, Eq)]
pub enum QueryError {
    Plan(PlanInvariant),
    Eval(EvalError),
    /// A stored row ends before a column that the plan reads.
    RowTooShort { relation: String, index: usize, len: usize, span: SourceSpan },
    /// A spread over something that is no list.
    BadSpread(SourceSpan),
    /// A search for something the index does not hold.
    SearchQueryType { value: DataValue, span: SourceSpan },
    /// A derived interval would be empty.
    Interval(InvalidInterval),
}

/// The mathematical form of a [`QueryError`].
pub enum QueryFault {
    Plan(PlanInvariant),
    Eval(EvalFault),
    RowTooShort { relation: Seq<char>, index: usize, len: usize, span: SourceSpan },
    BadSpread(SourceSpan),
    SearchQueryType { value: Val, span: SourceSpan },
    Interval(InvalidInterval),
}

impl DeepView for QueryError {
    type V = QueryFault;

    open spec fn deep_view(&self) -> QueryFault {
        match *self {
            QueryError::Plan(p) => QueryFault::Plan(p),
            QueryError::Eval(e) => QueryFault::Eval(e.deep_view()),
            QueryError::RowTooShort { relation, index, len, span } => QueryFault::RowTooShort {
                relation: relation@,
                index,
                len,
                span,
            },
            QueryError::BadSpread(span) => QueryFault::BadSpread(span),
            QueryError::SearchQueryType { value, span } => QueryFault::SearchQueryType {
                value: value.deep_view(),
                span,
            },
            QueryError::Interval(i) => QueryFault::Interval(i),
        }
    }
}

impl Clone for QueryError {
    fn clone(&self) -> (r: Self)
        ensures
            r.deep_view() == self.deep_view(),
    {
        match self {
            QueryError::Plan(p) => QueryError::Plan(*p),
            QueryError::Eval(e) => QueryError::Eval(e.clone()),
            QueryError::RowTooShort { relation, index, len, span } => QueryError::RowTooShort {
                relation: relation.clone(),
                index: *index,
                len: *len,
                span: *span,
            },
            QueryError::BadSpread(span) => QueryError::BadSpread(*span),
            QueryError::SearchQueryType { value, span } => QueryError::SearchQueryType {
                value: value.clone(),
                span: *span,
            },
            QueryError::Interval(i) => QueryError::Interval(*i),
        }
    }
}

impl QueryFault {
    pub open spec fn text(self) -> Seq<char> {
        match self {
            QueryFault::Plan(p) => "query plan invariant violated: "@ + p.text(),
            QueryFault::Eval(e) => e.text(),
            QueryFault::RowTooShort { relation, index, len, .. } =>
                "a stored row of relation '"@ + relation + "' is too short: index is "@ + decimal(
                    index as nat,
                ) + ", length is "@ + decimal(len as nat),
            QueryFault::BadSpread(_) => "Invalid spread unification"@,
            QueryFault::SearchQueryType { value, .. } => "the search query evaluated to "@
                + val_text(value) + ", which this index cannot search for"@,
            QueryFault::Interval(i) => "temporal derivation produced an invalid interval ["@
                + signed(i.start as int) + ", "@ + signed(i.end as int) + ")"@,
        }
    }
}

impl QueryError {
    /// What went wrong.
    pub fn message(&self) -> (r: String)
        ensures
            r@ == self.deep_view().text(),
    {
        match self {
            QueryError::Plan(p) => join_text("query plan invariant violated: ", p.message()),
            QueryError::Eval(e) => e.message(),
            QueryError::RowTooShort { relation, index, len, .. } => {
                let mut out = join_text("a stored row of relation '", relation.as_str());
                out.append("' is too short: index is ");
                write_decimal(&mut out, *index as u64);
                out.append(", length is ");
                write_decimal(&mut out, *len as u64);
                out
            },
            QueryError::BadSpread(_) => "Invalid spread unification".to_string(),
            QueryError::SearchQueryType { value, .. } => {
                let mut out = "the search query evaluated to ".to_string();
                write_value(&mut out, value);
                out.append(", which this index cannot search for");
                out
            },
            QueryError::Interval(i) => {
                let mut out = "temporal derivation produced an invalid interval [".to_string();
                write_signed(&mut out, i.start);
                out.append(", ");
                write_signed(&mut out, i.end);
                out.append(")");
                out
            },
        }
    }
}

/// What an operator yields: rows and failures, in the order they come.
#[derive(Debug)]
pub struct TupleStream {
    pub items: Vec<Result<Tuple, QueryError>>,
}

/// One place of a stream.
pub type Item = Result<Row, QueryFault>;

/// The mathematical form of a stream.
#[verifier::ext_equal]
pub struct Stream {
    pub items: Seq<Item>,
}

/// The mathematical form of one place of a stream.
pub open spec fn item_model(item: Result<Tuple, QueryError>) -> Item {
    match item {
        Ok(row) => Ok(row.deep_view()),
        Err(e) => Err(e.deep_view()),
    }
}

impl DeepView for TupleStream {
    type V = Stream;

    open spec fn deep_view(&self) -> Stream {
        Stream { items: Seq::new(self.items@.len(), |i: int| item_model(self.items@[i])) }
    }
}

impl Stream {
    /// Nothing.
    pub open spec fn nothing() -> Stream {
        Stream { items: Seq::empty() }
    }

    /// One row.
    pub open spec fn one(row: Row) -> Stream {
        Stream { items: seq![Ok(row)] }
    }

    /// The given rows.
    pub open spec fn of(rows: Seq<Row>) -> Stream {
        Stream { items: Seq::new(rows.len(), |i: int| Ok(rows[i])) }
    }

    /// One failure.
    pub open spec fn failed(e: QueryFault) -> Stream {
        Stream { items: seq![Err(e)] }
    }

    /// A stream and another one after it.
    pub open spec fn followed_by(self, next: Stream) -> Stream {
        Stream { items: self.items + next.items }
    }

    /// Nothing fails.
    pub open spec fn sound(self) -> bool {
        forall|i: int| 0 <= i < self.items.len() ==> (#[trigger] self.items[i]) is Ok
    }

    /// The rows of a stream in which nothing fails.
    pub open spec fn rows(self) -> Seq<Row> {
        Seq::new(self.items.len(), |i: int| self.items[i]->Ok_0)
    }

    /// The set of the rows, whatever else fails.
    pub open spec fn row_set(self) -> Set<Row> {
        Set::new(
            |row: Row|
                exists|i: int|
                    0 <= i < self.items.len() && (#[trigger] self.items[i]) == Ok::<
                        Row,
                        QueryFault,
                    >(row),
        )
    }

    /// Every row of the stream satisfies a predicate.
    pub open spec fn every(self, p: spec_fn(Row) -> bool) -> bool {
        forall|i: int|
            0 <= i < self.items.len() && (#[trigger] self.items[i]) is Ok ==> p(
                self.items[i]->Ok_0,
            )
    }

    /// The first failure.
    pub open spec fn failure(self) -> Option<QueryFault>
        decreases self.items.len(),
    {
        if self.items.len() == 0 {
            None
        } else {
            match (Stream { items: self.items.drop_last() }).failure() {
                Some(e) => Some(e),
                None => match self.items.last() {
                    Ok(_) => None,
                    Err(e) => Some(e),
                },
            }
        }
    }
}

/// Rows that satisfy a predicate satisfy a weaker one.
pub proof fn lemma_every(s: Stream, p: spec_fn(Row) -> bool, q: spec_fn(Row) -> bool)
    requires
        s.every(p),
        forall|row: Row| #[trigger] p(row) ==> q(row),
    ensures
        s.every(q),
{
    assert forall|i: int| 0 <= i < s.items.len() && (#[trigger] s.items[i]) is Ok implies q(
        s.items[i]->Ok_0,
    ) by {
        assert(p(s.items[i]->Ok_0));
    }
}

/// A stream has a failure unless nothing in it fails.
pub proof fn lemma_failure(s: Stream)
    ensures
        s.sound() <==> s.failure() is None,
    decreases s.items.len(),
{
    if s.items.len() > 0 {
        let front = Stream { items: s.items.drop_last() };
        lemma_failure(front);
        if s.sound() {
            assert forall|i: int| 0 <= i < front.items.len() implies (
            #[trigger] front.items[i]) is Ok by {
                assert(s.items[i] is Ok);
            }
            assert(s.items[s.items.len() - 1] is Ok);
        }
        if s.failure() is None {
            assert forall|i: int| 0 <= i < s.items.len() implies (#[trigger] s.items[i]) is Ok by {
                if i < front.items.len() {
                    assert(front.items[i] is Ok);
                }
            }
        }
    }
}

/// The first failure of a stream is at the first place that is no row.
pub proof fn lemma_failure_at(s: Stream, k: int)
    requires
        0 <= k < s.items.len(),
        s.items[k] is Err,
        forall|i: int| 0 <= i < k ==> (#[trigger] s.items[i]) is Ok,
    ensures
        s.failure() == Some(s.items[k]->Err_0),
    decreases s.items.len(),
{
    let front = Stream { items: s.items.drop_last() };
    if k < front.items.len() {
        assert(front.items[k] == s.items[k]);
        assert forall|i: int| 0 <= i < k implies (#[trigger] front.items[i]) is Ok by {
            assert(s.items[i] is Ok);
        }
        lemma_failure_at(front, k);
    } else {
        assert(front.sound()) by {
            assert forall|i: int| 0 <= i < front.items.len() implies (
            #[trigger] front.items[i]) is Ok by {
                assert(s.items[i] is Ok);
            }
        }
        lemma_failure(front);
    }
}

/// Two streams one after the other: nothing fails unless something fails in
/// one of them, and the rows of one come after those of the other.
pub proof fn lemma_followed(a: Stream, b: Stream)
    ensures
        a.followed_by(b).sound() <==> a.sound() && b.sound(),
        a.followed_by(b).rows() == a.rows() + b.rows(),
{
    let c = a.followed_by(b);
    if c.sound() {
        assert forall|i: int| 0 <= i < a.items.len() implies (#[trigger] a.items[i]) is Ok by {
            assert(c.items[i] is Ok);
        }
        assert forall|i: int| 0 <= i < b.items.len() implies (#[trigger] b.items[i]) is Ok by {
            assert(c.items[a.items.len() + i] is Ok);
        }
    }
    if a.sound() && b.sound() {
        assert forall|i: int| 0 <= i < c.items.len() implies (#[trigger] c.items[i]) is Ok by {
            if i < a.items.len() {
                assert(a.items[i] is Ok);
            } else {
                assert(b.items[i - a.items.len()] is Ok);
            }
        }
    }
    assert(c.rows() =~= a.rows() + b.rows());
}

/// A stream of rows has those rows.
pub proof fn lemma_of_rows(rows: Seq<Row>)
    ensures
        Stream::of(rows).sound(),
        Stream::of(rows).rows() == rows,
{
    assert(Stream::of(rows).rows() =~= rows);
}

/// A stream in which nothing fails is the stream of its rows.
pub proof fn lemma_sound_rows(s: Stream)
    requires
        s.sound(),
    ensures
        Stream::of(s.rows()) == s,
{
    let o = Stream::of(s.rows());
    assert forall|i: int| 0 <= i < s.items.len() implies #[trigger] o.items[i] == s.items[i] by {
        assert(s.items[i] is Ok);
    }
    assert(o.items =~= s.items);
}

pub proof fn lemma_row_set(s: Stream)
    requires
        s.sound(),
    ensures
        s.row_set() == s.rows().to_set(),
{
    assert forall|x: Row| s.row_set().contains(x) == s.rows().to_set().contains(x) by {
        if s.row_set().contains(x) {
            let i = choose|i: int|
                0 <= i < s.items.len() && (#[trigger] s.items[i]) == Ok::<Row, QueryFault>(x);
            assert(s.rows()[i] == x);
        }
        if s.rows().contains(x) {
            let i = s.rows().index_of(x);
            assert(s.items[i] is Ok);
            assert(s.items[i] == Ok::<Row, QueryFault>(x));
        }
    }
    assert(s.row_set() =~= s.rows().to_set());
}

pub proof fn lemma_one_row(row: Row)
    ensures
        Stream::one(row).sound(),
        Stream::one(row).rows() == seq![row],
        Stream::one(row) == Stream::of(seq![row]),
        Stream::nothing().sound(),
        Stream::nothing().rows() == Seq::<Row>::empty(),
{
    assert(Stream::one(row).rows() =~= seq![row]);
    assert(Stream::one(row).items =~= Stream::of(seq![row]).items);
    assert(Stream::nothing().rows() =~= Seq::<Row>::empty());
}

pub proof fn lemma_failed(e: QueryFault)
    ensures
        !Stream::failed(e).sound(),
        Stream::failed(e).failure() == Some(e),
{
    let s = Stream::failed(e);
    assert(s.items[0] is Err);
    lemma_failure_at(s, 0);
}

impl TupleStream {
    pub fn nothing() -> (r: Self)
        ensures
            r.deep_view() == Stream::nothing(),
    {
        let r = TupleStream { items: Vec::new() };
        assert(r.deep_view() =~= Stream::nothing());
        r
    }

    pub fn of(rows: Vec<Tuple>) -> (r: Self)
        ensures
            r.deep_view() == Stream::of(rows.deep_view()),
    {
        let mut items: Vec<Result<Tuple, QueryError>> = Vec::new();
        let mut i: usize = 0;
        while i < rows.len()
            invariant
                i <= rows@.len(),
                items@.len() == i,
                forall|j: int|
                    0 <= j < i ==> item_model(#[trigger] items@[j]) == Ok::<Row, QueryFault>(
                        rows@[j].deep_view(),
                    ),
            decreases rows.len() - i,
        {
            items.push(Ok(copy_row(&rows[i])));
            i = i + 1;
        }
        let r = TupleStream { items };
        assert(r.deep_view().items =~= Stream::of(rows.deep_view()).items);
        r
    }

    pub fn one(row: Tuple) -> (r: Self)
        ensures
            r.deep_view() == Stream::one(row.deep_view()),
    {
        let mut r = TupleStream::nothing();
        let ghost m = row.deep_view();
        r.items.push(Ok(row));
        assert(r.deep_view().items =~= Stream::one(m).items);
        r
    }

    pub fn failed(e: QueryError) -> (r: Self)
        ensures
            r.deep_view() == Stream::failed(e.deep_view()),
    {
        let mut r = TupleStream::nothing();
        let ghost m = e.deep_view();
        r.items.push(Err(e));
        assert(r.deep_view().items =~= Stream::failed(m).items);
        r
    }

    /// Put another stream after one.
    pub fn append(&mut self, next: TupleStream)
        ensures
            final(self).deep_view() == old(self).deep_view().followed_by(next.deep_view()),
    {
        let ghost a = self.deep_view();
        let ghost b = next.deep_view();
        let mut rest = next.items;
        self.items.append(&mut rest);
        assert(self.deep_view().items =~= a.items + b.items);
    }

    /// The rows, or the first failure.
    pub fn collect(self) -> (r: Result<Vec<Tuple>, QueryError>)
        ensures
            match r {
                Ok(rows) => self.deep_view().sound() && rows.deep_view() == self.deep_view().rows(),
                Err(e) => self.deep_view().failure() == Some(e.deep_view()),
            },
    {
        let ghost whole = self.deep_view();
        let mut rows: Vec<Tuple> = Vec::new();
        let mut i: usize = 0;
        while i < self.items.len()
            invariant
                i <= self.items@.len(),
                whole == self.deep_view(),
                rows@.len() == i,
                forall|j: int|
                    0 <= j < i ==> (#[trigger] whole.items[j]) == Ok::<Row, QueryFault>(
                        rows@[j].deep_view(),
                    ),
            decreases self.items.len() - i,
        {
            proof {
                assert(whole.items[i as int] == item_model(self.items@[i as int]));
            }
            match &self.items[i] {
                Ok(row) => {
                    rows.push(copy_row(row));
                },
                Err(e) => {
                    proof {
                        lemma_failure_at(whole, i as int);
                    }
                    return Err(e.clone());
                },
            }
            i = i + 1;
        }
        proof {
            assert(rows.deep_view() =~= whole.rows());
        }
        Ok(rows)
    }
}

/// What comes of items one after the other: what comes of each in turn.
pub open spec fn flow<A>(items: Seq<A>, f: spec_fn(A) -> Stream) -> Stream
    decreases items.len(),
{
    if items.len() == 0 {
        Stream::nothing()
    } else {
        flow(items.drop_last(), f).followed_by(f(items.last()))
    }
}

/// A function on rows as one on the places of a stream: a failure stays what
/// it is.
pub open spec fn on_items(f: spec_fn(Row) -> Stream) -> spec_fn(Item) -> Stream {
    |item: Item|
        match item {
            Ok(row) => f(row),
            Err(e) => Stream::failed(e),
        }
}

/// What comes of a stream whose rows are each turned into a stream. A failure
/// of the stream itself keeps its place.
pub open spec fn through(s: Stream, f: spec_fn(Row) -> Stream) -> Stream {
    flow(s.items, on_items(f))
}

pub proof fn lemma_flow_step<A>(items: Seq<A>, f: spec_fn(A) -> Stream, i: int)
    requires
        0 <= i < items.len(),
    ensures
        flow(items.take(i + 1), f) == flow(items.take(i), f).followed_by(f(items[i])),
{
    assert(items.take(i + 1).drop_last() =~= items.take(i));
}

/// Only the streams of the items themselves count.
pub proof fn lemma_flow_ext<A>(items: Seq<A>, f: spec_fn(A) -> Stream, g: spec_fn(A) -> Stream)
    requires
        forall|i: int| 0 <= i < items.len() ==> #[trigger] f(items[i]) == g(items[i]),
    ensures
        flow(items, f) == flow(items, g),
    decreases items.len(),
{
    if items.len() > 0 {
        let rest = items.drop_last();
        assert forall|i: int| 0 <= i < rest.len() implies #[trigger] f(rest[i]) == g(rest[i]) by {
            assert(rest[i] == items[i]);
            assert(f(items[i]) == g(items[i]));
        }
        lemma_flow_ext(rest, f, g);
        assert(f(items[items.len() - 1]) == g(items[items.len() - 1]));
    }
}

/// Only the streams of the rows themselves count.
pub proof fn lemma_through_ext(s: Stream, f: spec_fn(Row) -> Stream, g: spec_fn(Row) -> Stream)
    requires
        forall|i: int|
            0 <= i < s.items.len() && (#[trigger] s.items[i]) is Ok ==> f(s.items[i]->Ok_0) == g(
                s.items[i]->Ok_0,
            ),
    ensures
        through(s, f) == through(s, g),
{
    let a = on_items(f);
    let b = on_items(g);
    assert forall|i: int| 0 <= i < s.items.len() implies #[trigger] a(s.items[i]) == b(
        s.items[i],
    ) by {
        let item = s.items[i];
        assert(item is Ok || item is Err);
    }
    lemma_flow_ext(s.items, a, b);
}

pub proof fn lemma_followed_assoc(a: Stream, b: Stream, c: Stream)
    ensures
        a.followed_by(b).followed_by(c) == a.followed_by(b.followed_by(c)),
{
    assert(a.followed_by(b).followed_by(c).items =~= a.followed_by(b.followed_by(c)).items);
}

pub proof fn lemma_flow_concat<A>(x: Seq<A>, y: Seq<A>, f: spec_fn(A) -> Stream)
    ensures
        flow(x + y, f) == flow(x, f).followed_by(flow(y, f)),
    decreases y.len(),
{
    if y.len() == 0 {
        assert(x + y =~= x);
        assert(flow(x, f).followed_by(Stream::nothing()) =~= flow(x, f));
    } else {
        assert((x + y).drop_last() =~= x + y.drop_last());
        assert((x + y).last() == y.last());
        lemma_flow_concat(x, y.drop_last(), f);
        lemma_followed_assoc(flow(x, f), flow(y.drop_last(), f), f(y.last()));
    }
}

pub proof fn lemma_through_followed(a: Stream, b: Stream, g: spec_fn(Row) -> Stream)
    ensures
        through(a.followed_by(b), g) == through(a, g).followed_by(through(b, g)),
{
    lemma_flow_concat(a.items, b.items, on_items(g));
}

/// What comes of a stream of rows is what comes of the rows.
pub proof fn lemma_through_of(rows: Seq<Row>, g: spec_fn(Row) -> Stream)
    ensures
        through(Stream::of(rows), g) == flow(rows, g),
    decreases rows.len(),
{
    let s = Stream::of(rows);
    if rows.len() > 0 {
        lemma_through_of(rows.drop_last(), g);
        assert(s.items.drop_last() =~= Stream::of(rows.drop_last()).items);
        assert(s.items.last() == Ok::<Row, QueryFault>(rows.last()));
    } else {
        assert(s.items =~= Seq::<Item>::empty());
    }
}

/// What comes of one item.
pub proof fn lemma_flow_one<A>(x: A, f: spec_fn(A) -> Stream)
    ensures
        flow(seq![x], f) == f(x),
{
    reveal_with_fuel(flow, 2);
    assert(seq![x].drop_last() =~= Seq::<A>::empty());
    assert(flow(seq![x], f).items =~= f(x).items);
}

/// Leaving items out is letting nothing come of them.
pub proof fn lemma_flow_filter<A>(items: Seq<A>, p: spec_fn(A) -> bool, f: spec_fn(A) -> Stream)
    ensures
        flow(items.filter(p), f) == flow(
            items,
            |x: A|
                if p(x) {
                    f(x)
                } else {
                    Stream::nothing()
                },
        ),
    decreases items.len(),
{
    reveal(Seq::filter);
    let h = |x: A|
        if p(x) {
            f(x)
        } else {
            Stream::nothing()
        };
    if items.len() > 0 {
        lemma_flow_filter(items.drop_last(), p, f);
        let front = items.drop_last().filter(p);
        if p(items.last()) {
            assert(items.filter(p) == front.push(items.last()));
            assert(front.push(items.last()).drop_last() =~= front);
        } else {
            assert(items.filter(p) == front);
            assert(flow(front, f).followed_by(Stream::nothing()) =~= flow(front, f));
        }
    }
}

/// What an operator makes of one row.
pub trait RowStep {
    /// Whether the operator can take a row.
    spec fn takes(&self, row: Row) -> bool;

    /// The stream that comes of a row.
    spec fn gives(&self, row: Row) -> Stream;

    fn step(&self, row: &Tuple) -> (r: TupleStream)
        requires
            self.takes(row.deep_view()),
        ensures
            r.deep_view() == self.gives(row.deep_view()),
    ;
}

/// Turn each row of a stream into a stream.
pub fn pipe<S: RowStep>(s: TupleStream, op: &S) -> (r: TupleStream)
    requires
        s.deep_view().every(|row: Row| op.takes(row)),
    ensures
        r.deep_view() == through(s.deep_view(), |row: Row| op.gives(row)),
{
    let ghost items = s.deep_view().items;
    let ghost f = |row: Row| op.gives(row);
    let ghost g = on_items(f);
    let ghost p = |row: Row| op.takes(row);
    let mut out = TupleStream::nothing();
    let mut i: usize = 0;
    proof {
        assert(items.take(0) =~= Seq::<Item>::empty());
    }
    while i < s.items.len()
        invariant
            i <= s.items@.len(),
            items == s.deep_view().items,
            f == (|row: Row| op.gives(row)),
            g == on_items(f),
            p == (|row: Row| op.takes(row)),
            out.deep_view() == flow(items.take(i as int), g),
            s.deep_view().every(p),
        decreases s.items.len() - i,
    {
        proof {
            assert(items[i as int] == item_model(s.items@[i as int]));
            lemma_flow_step(items, g, i as int);
        }
        let next = match &s.items[i] {
            Ok(row) => {
                proof {
                    assert(p(row.deep_view()));
                }
                op.step(row)
            },
            Err(e) => TupleStream::failed(e.clone()),
        };
        out.append(next);
        i = i + 1;
    }
    proof {
        assert(items.take(i as int) =~= items);
    }
    out
}

} // verus!
