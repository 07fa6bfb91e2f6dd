//! What a plan means: the stream of rows it stands for, over the stores and
//! relations it reads.

use vstd::prelude::*;
use crate::bounds::{lower_ends, upper_ends};
use crate::delta::{diff, signed_row, Signed};
use crate::epoch::{in_range, ordered, starts_with, EpochStore};
use crate::expr::{EvalFault, Expr, SourceSpan};
use crate::history::{snapshot, AsOf, FactModel, FactTable};
use crate::names::{first_index, gone_at, last_place, name_set, names, shed, without, Name};
use crate::plan::{
    is_prefix, InlineFixedRA, InnerJoin, NegRight, RelAlgebra, SearchKind, SearchRA, TempStoreRA,
};
use crate::probe::in_reach;
use crate::resolve::eval_named;
use crate::spans::{derivation, run_at_end, InvalidInterval};
use crate::stream::{flow, through, PlanInvariant, QueryFault, Stream};
use crate::temp_store::project;
use crate::value::{DataValue, Row, Tuple, Val};

verus! {

/// The stores of the rules, by name.
#[derive(Debug)]
pub struct Stores {
    pub keys: Vec<String>,
    pub stores: Vec<EpochStore>,
}

impl View for Stores {
    type V = Map<Name, EpochStore>;

    open spec fn view(&self) -> Map<Name, EpochStore> {
        Map::new(
            |n: Name| names(self.keys@).contains(n),
            |n: Name| self.stores@[names(self.keys@).index_of(n)],
        )
    }
}

impl Stores {
    pub open spec fn wf(&self) -> bool {
        &&& self.keys@.len() == self.stores@.len()
        &&& names(self.keys@).no_duplicates()
        &&& forall|i: int| 0 <= i < self.stores@.len() ==> (#[trigger] self.stores@[i]).wf()
    }

    /// No stores.
    pub fn new() -> (r: Self)
        ensures
            r.wf(),
            r@ == Map::<Name, EpochStore>::empty(),
    {
        let r = Stores { keys: Vec::new(), stores: Vec::new() };
        assert(r@ =~= Map::<Name, EpochStore>::empty());
        r
    }

    /// Put a store under a name, in place of the one it had.
    pub fn insert(&mut self, key: String, store: EpochStore)
        requires
            old(self).wf(),
            store.wf(),
        ensures
            final(self).wf(),
            final(self)@ == old(self)@.insert(key@, store),
    {
        let ghost before = self@;
        let ghost ks = names(self.keys@);
        let mut i: usize = 0;
        while i < self.keys.len()
            invariant
                i <= self.keys@.len(),
                *self == *old(self),
                self.wf(),
                store.wf(),
                before == self@,
                ks == names(self.keys@),
                forall|j: int| 0 <= j < i ==> ks[j] != key@,
            decreases self.keys.len() - i,
        {
            if self.keys[i] == key {
                self.stores.set(i, store);
                proof {
                    assert(ks[i as int] == key@);
                    assert forall|n: Name| ks.contains(n) implies self@[n] == before.insert(
                        key@,
                        store,
                    )[n] by {
                        let p = ks.index_of(n);
                        if n == key@ {
                            assert(p == i);
                        }
                    }
                    assert(self@ =~= before.insert(key@, store));
                }
                return ;
            }
            i = i + 1;
        }
        let ghost old_stores = self.stores@;
        let ghost name = key@;
        self.keys.push(key);
        self.stores.push(store);
        proof {
            let now = names(self.keys@);
            assert(now =~= ks.push(name));
            assert(!ks.contains(name));
            assert forall|n: Name| now.contains(n) implies self@[n] == before.insert(
                name,
                store,
            )[n] by {
                let p = now.index_of(n);
                if n == name {
                    assert(now[ks.len() as int] == name);
                    if p < ks.len() {
                        assert(ks[p] == name);
                    }
                } else {
                    assert(ks[p] == n);
                    assert(ks.contains(n));
                    assert(ks.index_of(n) == p);
                }
            }
            assert forall|n: Name| now.contains(n) == (n == name || ks.contains(n)) by {
                if ks.contains(n) {
                    assert(now[ks.index_of(n)] == n);
                }
                if n == name {
                    assert(now[ks.len() as int] == n);
                }
                if now.contains(n) && n != name {
                    assert(ks[now.index_of(n)] == n);
                }
            }
            assert(self@ =~= before.insert(name, store));
        }
    }

    /// The store under a name.
    pub fn get(&self, key: &String) -> (r: Option<&EpochStore>)
        requires
            self.wf(),
        ensures
            match r {
                Some(s) => self@.contains_key(key@) && *s == self@[key@] && s.wf(),
                None => !self@.contains_key(key@),
            },
    {
        let ghost ks = names(self.keys@);
        let mut i: usize = 0;
        while i < self.keys.len()
            invariant
                i <= self.keys@.len(),
                self.wf(),
                ks == names(self.keys@),
                forall|j: int| 0 <= j < i ==> ks[j] != key@,
            decreases self.keys.len() - i,
        {
            if self.keys[i] == *key {
                proof {
                    assert(ks[i as int] == key@);
                    assert(ks.index_of(key@) == i);
                }
                return Some(&self.stores[i]);
            }
            i = i + 1;
        }
        None
    }
}

/// What an index finds: its results for each query it knows.
#[derive(Debug)]
pub struct SearchIndex {
    pub queries: Vec<DataValue>,
    pub results: Vec<Vec<Tuple>>,
}

impl SearchIndex {
    pub open spec fn wf(&self) -> bool {
        self.queries@.len() == self.results@.len()
    }

    /// The results for a query: none for one the index does not know.
    pub open spec fn found(&self, q: Val) -> Seq<Row> {
        if self.queries.deep_view().contains(q) {
            self.results.deep_view()[first_index(self.queries.deep_view(), q)]
        } else {
            Seq::empty()
        }
    }
}

/// What plans read: rule stores, stored relations and search indexes.
#[derive(Debug)]
pub struct Env {
    pub stores: Stores,
    pub tables: Vec<FactTable>,
    pub indexes: Vec<SearchIndex>,
}

/// The coordinate of the present.
pub open spec fn newest() -> AsOf {
    AsOf { valid: i64::MAX, sys: i64::MAX }
}

/// Whether filters hold on a row of a frame: the first that is false or fails
/// decides.
pub open spec fn passes(filters: Seq<Expr>, frame: Seq<Name>, row: Row) -> Result<bool, EvalFault>
    decreases filters.len(),
{
    if filters.len() == 0 {
        Ok(true)
    } else {
        match passes(filters.drop_last(), frame, row) {
            Ok(true) => match eval_named(filters.last(), frame, row) {
                Ok(Val::Bool(b)) => Ok(b),
                Ok(v) => Err(EvalFault::PredicateType { value: v, span: filters.last().at() }),
                Err(e) => Err(e),
            },
            other => other,
        }
    }
}

/// A row, if filters hold on another one.
pub open spec fn sift(filters: Seq<Expr>, frame: Seq<Name>, row: Row, out: Row) -> Stream {
    match passes(filters, frame, row) {
        Ok(true) => Stream::one(out),
        Ok(false) => Stream::nothing(),
        Err(e) => Stream::failed(QueryFault::Eval(e)),
    }
}

/// The rows on which filters hold.
pub open spec fn sifted(rows: Seq<Row>, filters: Seq<Expr>, frame: Seq<Name>) -> Stream {
    flow(rows, |r: Row| sift(filters, frame, r, r))
}

/// The derived intervals of one fact.
pub open spec fn fact_spans(f: FactModel, sys: int) -> Stream {
    if run_at_end(f.versions, f.key, sys) {
        Stream::failed(
            QueryFault::Interval(InvalidInterval { start: i64::MAX, end: i64::MAX }),
        )
    } else {
        Stream::of(derivation(f, sys))
    }
}

/// The derived intervals of facts, fact by fact. A fact that has none because
/// its derivation fails is the last one.
pub open spec fn spans_stream(facts: Seq<FactModel>, sys: int) -> Stream
    decreases facts.len(),
{
    if facts.len() == 0 {
        Stream::nothing()
    } else {
        let before = spans_stream(facts.drop_last(), sys);
        if before.sound() {
            before.followed_by(fact_spans(facts.last(), sys))
        } else {
            before
        }
    }
}

/// The rows of a change, each with its sign.
pub open spec fn delta_set(facts: Seq<FactModel>, from: AsOf, to: AsOf) -> Set<Row> {
    Set::new(
        |t: Row|
            exists|s: Signed| #[trigger]
                diff(snapshot(facts, from).to_set(), snapshot(facts, to).to_set()).contains(s) && t
                    == signed_row(s),
    )
}

/// Two rows agree on the join columns.
pub open spec fn keys_match(l: Row, lp: Seq<usize>, r: Row, rp: Seq<usize>) -> bool {
    project(l, lp) == project(r, rp)
}

/// The columns after the join columns that a bounded probe looks at: all of
/// them, or those of a key of the given width.
pub open spec fn probe_columns(frame: Seq<Name>, joined: int, key_len: Option<int>) -> Seq<Name> {
    match key_len {
        None => if joined <= frame.len() {
            frame.skip(joined)
        } else {
            Seq::empty()
        },
        Some(n) => if joined <= n <= frame.len() {
            frame.subrange(joined, n)
        } else {
            Seq::empty()
        },
    }
}

/// Whether a row lies within the bounds that filters set to a probe with its
/// first `joined` columns.
pub open spec fn within_bounds(
    r: Row,
    joined: int,
    filters: Seq<Expr>,
    columns: Seq<Name>,
) -> bool {
    in_range(
        r.take(joined + columns.len()),
        r.take(joined) + lower_ends(filters, columns),
        r.take(joined) + upper_ends(filters, columns),
        true,
    )
}

/// How the two sides of a join meet.
pub struct JoinShape {
    /// The places of the join columns on the left.
    pub lp: Seq<usize>,
    /// The places of the join columns on the right.
    pub rp: Seq<usize>,
    /// The places of the joined columns that are shed.
    pub drop: Set<int>,
}

/// Where the rows of a stored relation come from: the relation, the width of
/// its key, and the place in the query that names it.
#[derive(Debug)]
pub struct Origin {
    pub relation: String,
    pub key_len: usize,
    pub span: SourceSpan,
}

impl Clone for Origin {
    fn clone(&self) -> (r: Self)
        ensures
            r == *self,
    {
        Origin { relation: self.relation.clone(), key_len: self.key_len, span: self.span }
    }
}

/// How a left row and a found row meet on the join columns, column by column.
#[derive(Clone, Copy, Debug, PartialEq, Eq, Structural)]
pub enum Meeting {
    Agree,
    Differ,
    /// The found row ends before this column.
    Short(usize),
}

/// How two rows meet on the first `n` join columns: the first column that is
/// missing or differs decides.
pub open spec fn meeting(l: Row, lp: Seq<usize>, r: Row, rp: Seq<usize>, n: int) -> Meeting
    decreases n,
{
    if n <= 0 {
        Meeting::Agree
    } else {
        match meeting(l, lp, r, rp, n - 1) {
            Meeting::Agree => if rp[n - 1] >= r.len() {
                Meeting::Short(rp[n - 1])
            } else if l[lp[n - 1] as int] != r[rp[n - 1] as int] {
                Meeting::Differ
            } else {
                Meeting::Agree
            },
            other => other,
        }
    }
}

/// Two rows agree on those join columns that are among the first `key_len`
/// columns on the right.
pub open spec fn agree_on_key(
    l: Row,
    lp: Seq<usize>,
    r: Row,
    rp: Seq<usize>,
    key_len: int,
) -> bool {
    forall|j: int|
        0 <= j < rp.len() && #[trigger] rp[j] < key_len ==> l[lp[j] as int] == r[rp[j] as int]
}

/// How a probe with a left row meets a row of a scan. A stored relation is
/// probed by its key, and what is found there is compared column by column;
/// any other scan is probed by the join columns themselves.
pub open spec fn met(l: Row, r: Row, shape: JoinShape, origin: Option<Origin>) -> Meeting {
    match origin {
        Some(o) => if agree_on_key(l, shape.lp, r, shape.rp, o.key_len as int) {
            meeting(l, shape.lp, r, shape.rp, shape.rp.len() as int)
        } else {
            Meeting::Differ
        },
        None => if in_reach(shape.rp, r.len() as int) && keys_match(l, shape.lp, r, shape.rp) {
            Meeting::Agree
        } else {
            Meeting::Differ
        },
    }
}

/// The report of a stored row that ends before the column `index`.
pub open spec fn too_short(origin: Origin, r: Row, index: usize) -> QueryFault {
    QueryFault::RowTooShort {
        relation: origin.relation@,
        index,
        len: r.len() as usize,
        span: origin.span,
    }
}

/// What comes of a left row and a stored row that is compared with it column
/// by column.
pub open spec fn compared(
    l: Row,
    r: Row,
    shape: JoinShape,
    filters: Seq<Expr>,
    rframe: Seq<Name>,
    origin: Origin,
) -> Stream {
    match meeting(l, shape.lp, r, shape.rp, shape.rp.len() as int) {
        Meeting::Agree => sift(filters, rframe, r, without(l + r, shape.drop)),
        Meeting::Differ => Stream::nothing(),
        Meeting::Short(index) => Stream::failed(too_short(origin, r, index)),
    }
}

/// What comes of a left row and one row of a scan: the joined row, where they
/// agree, the bounds hold and the filters pass; a failure, where the probe
/// finds a row that ends before a join column.
pub open spec fn probed_row(
    l: Row,
    r: Row,
    shape: JoinShape,
    filters: Seq<Expr>,
    rframe: Seq<Name>,
    columns: Seq<Name>,
    origin: Option<Origin>,
) -> Stream {
    match met(l, r, shape, origin) {
        Meeting::Agree => if within_bounds(r, shape.rp.len() as int, filters, columns) {
            sift(filters, rframe, r, without(l + r, shape.drop))
        } else {
            Stream::nothing()
        },
        Meeting::Differ => Stream::nothing(),
        Meeting::Short(index) => Stream::failed(too_short(origin->Some_0, r, index)),
    }
}

/// The joined rows of a left row and the rows of a scan that a probe reads:
/// those that agree on the join columns, lie within the bounds, and pass the
/// filters.
pub open spec fn probed(
    l: Row,
    rows: Seq<Row>,
    shape: JoinShape,
    filters: Seq<Expr>,
    rframe: Seq<Name>,
    columns: Seq<Name>,
    origin: Option<Origin>,
) -> Stream {
    flow(rows, |r: Row| probed_row(l, r, shape, filters, rframe, columns, origin))
}

/// The columns not joined on, in order, among the first `n`.
pub open spec fn rest_places(rp: Seq<usize>, n: int) -> Seq<usize>
    decreases n,
{
    if n <= 0 {
        Seq::empty()
    } else if rp.contains((n - 1) as usize) {
        rest_places(rp, n - 1)
    } else {
        rest_places(rp, n - 1).push((n - 1) as usize)
    }
}

/// The order in which a materialized right side keeps its columns: the join
/// columns first.
pub open spec fn store_places(rp: Seq<usize>, width: int) -> Seq<usize> {
    rp + rest_places(rp, width)
}

/// Where each column stands in a materialized right side.
pub open spec fn back_places(rp: Seq<usize>, width: int) -> Seq<usize> {
    Seq::new(
        width as nat,
        |c: int| first_index(store_places(rp, width), c as usize) as usize,
    )
}

/// A materialized right side: its distinct rows, join columns first, sorted.
pub open spec fn materialized(rows: Seq<Row>, rp: Seq<usize>, width: int) -> Seq<Row> {
    ordered(
        Set::new(
            |m: Row|
                exists|i: int|
                    0 <= i < rows.len() && m == project(#[trigger] rows[i], store_places(rp, width)),
        ),
    )
}

/// The joined rows of a left row and a materialized right side.
pub open spec fn mat_joined(l: Row, mat: Seq<Row>, shape: JoinShape, width: int) -> Stream {
    flow(
        mat,
        |m: Row|
            if starts_with(m, project(l, shape.lp)) {
                Stream::one(
                    without(l + project(m, back_places(shape.rp, width)), shape.drop),
                )
            } else {
                Stream::nothing()
            },
    )
}

/// The rows of the right side of a negation. Filters play no part in it.
pub open spec fn neg_rows(right: NegRight, env: Env) -> Result<Seq<Row>, QueryFault> {
    match right {
        NegRight::TempStore(r) => if env.stores@.contains_key(r.storage_key@) {
            Ok(ordered(env.stores@[r.storage_key@].rows()))
        } else {
            Err(QueryFault::Plan(PlanInvariant::NoStore))
        },
        NegRight::Stored(r) => Ok(
            snapshot(env.tables@[r.storage.id as int].model(), newest()),
        ),
        NegRight::StoredWithValidity(r) => Ok(
            snapshot(env.tables@[r.storage.id as int].model(), r.as_of),
        ),
        NegRight::Spans(r) => {
            let s = spans_stream(env.tables@[r.storage.id as int].model(), r.sys as int);
            match s.failure() {
                None => Ok(s.rows()),
                Some(e) => Err(e),
            }
        },
        NegRight::Delta(r) => Ok(
            ordered(delta_set(env.tables@[r.storage.id as int].model(), r.from, r.to)),
        ),
    }
}

/// A row no right row agrees with on the join columns.
pub open spec fn unmatched(l: Row, rows: Seq<Row>, shape: JoinShape) -> bool {
    forall|i: int|
        0 <= i < rows.len() ==> !keys_match(l, shape.lp, #[trigger] rows[i], shape.rp)
}

/// The first row of a scan that a probe with a left row agrees with or finds
/// too short.
pub open spec fn first_met(
    l: Row,
    rows: Seq<Row>,
    shape: JoinShape,
    origin: Option<Origin>,
) -> Option<Row>
    decreases rows.len(),
{
    if rows.len() == 0 {
        None
    } else {
        match first_met(l, rows.drop_last(), shape, origin) {
            Some(r) => Some(r),
            None => if met(l, rows.last(), shape, origin) is Differ {
                None
            } else {
                Some(rows.last())
            },
        }
    }
}

/// A left row, if no right row agrees with it; a failure, where the probe
/// finds a row that ends before a join column.
pub open spec fn spared(
    l: Row,
    rows: Seq<Row>,
    shape: JoinShape,
    origin: Option<Origin>,
) -> Stream {
    match first_met(l, rows, shape, origin) {
        None => Stream::one(without(l, shape.drop)),
        Some(r) => match met(l, r, shape, origin) {
            Meeting::Short(index) => Stream::failed(too_short(origin->Some_0, r, index)),
            _ => Stream::nothing(),
        },
    }
}

/// The first of `n` places that a row of the given length does not have.
pub open spec fn first_missing(places: Seq<usize>, len: int, n: int) -> Option<usize>
    decreases n,
{
    if n <= 0 {
        None
    } else {
        match first_missing(places, len, n - 1) {
            Some(p) => Some(p),
            None => if places[n - 1] >= len {
                Some(places[n - 1])
            } else {
                None
            },
        }
    }
}

/// The failure of reading join columns from rows: that of the first row that
/// ends before one of them.
pub open spec fn read_failure(rows: Seq<Row>, rp: Seq<usize>, origin: Origin) -> Option<QueryFault>
    decreases rows.len(),
{
    if rows.len() == 0 {
        None
    } else {
        match read_failure(rows.drop_last(), rp, origin) {
            Some(e) => Some(e),
            None => match first_missing(rp, rows.last().len() as int, rp.len() as int) {
                Some(index) => Some(too_short(origin, rows.last(), index)),
                None => None,
            },
        }
    }
}

/// The negation of a stream against rows. Where the join columns are no
/// leading run, they are read from every row before the first left row is
/// looked at.
pub open spec fn neg_join(
    left: Stream,
    rows: Seq<Row>,
    shape: JoinShape,
    origin: Option<Origin>,
) -> Result<Stream, QueryFault> {
    if origin is Some && !is_prefix(shape.rp) && read_failure(
        rows,
        shape.rp,
        origin->Some_0,
    ) is Some {
        Err(read_failure(rows, shape.rp, origin->Some_0)->Some_0)
    } else {
        Ok(through(left, |l: Row| spared(l, rows, shape, origin)))
    }
}

/// Where the rows on the right of a negation come from.
pub open spec fn neg_origin(right: NegRight, env: Env) -> Option<Origin> {
    match right {
        NegRight::Stored(r) => Some(
            Origin {
                relation: r.storage.name,
                key_len: env.tables@[r.storage.id as int].key_len,
                span: r.span,
            },
        ),
        NegRight::StoredWithValidity(r) => Some(
            Origin {
                relation: r.storage.name,
                key_len: env.tables@[r.storage.id as int].key_len,
                span: r.span,
            },
        ),
        _ => None,
    }
}

/// Every name of a list is in a frame.
pub open spec fn all_placed(order: Seq<Name>, frame: Seq<Name>) -> bool {
    forall|i: int| 0 <= i < order.len() ==> last_place(frame, #[trigger] order[i]) is Some
}

/// What comes of a row under a unification.
pub open spec fn unified(
    row: Row,
    value: Result<Val, EvalFault>,
    is_multi: bool,
    span: crate::expr::SourceSpan,
    drop: Set<int>,
) -> Stream {
    match value {
        Err(e) => Stream::failed(QueryFault::Eval(e)),
        Ok(v) => if is_multi {
            match v {
                Val::List(items) => Stream::of(
                    Seq::new(items.len(), |i: int| without(row.push(items[i]), drop)),
                ),
                _ => Stream::failed(QueryFault::BadSpread(span)),
            }
        } else {
            Stream::one(without(row.push(v), drop))
        },
    }
}

/// Whether an index can be searched for a value.
pub open spec fn searchable(kind: SearchKind, v: Val) -> bool {
    match kind {
        SearchKind::Hnsw => v is List,
        SearchKind::Fts => v is Str,
        SearchKind::Lsh => true,
    }
}

/// The filters of a search.
pub open spec fn search_filters(filter: Option<Expr>) -> Seq<Expr> {
    match filter {
        None => Seq::empty(),
        Some(f) => seq![f],
    }
}

/// What a search makes of a row.
pub open spec fn searched(row: Row, s: SearchRA, env: Env) -> Stream {
    let pframe = s.parent.out_frame();
    match eval_named(s.query, pframe, row) {
        Err(e) => Stream::failed(QueryFault::Eval(e)),
        Ok(q) => if !searchable(s.kind, q) {
            Stream::failed(QueryFault::SearchQueryType { value: q, span: s.span })
        } else {
            flow(
                env.indexes@[s.index as int].found(q),
                |t: Row|
                    sift(
                        search_filters(s.filter),
                        pframe + names(s.own_bindings@),
                        row + t,
                        row + t,
                    ),
            )
        },
    }
}

/// The rows of the store of a rule that an occurrence reads: its delta where
/// the occurrence is the selected one, else its total.
pub open spec fn occurrence_rows(r: TempStoreRA, env: Env, delta: Option<usize>) -> Seq<Row> {
    let store = env.stores@[r.storage_key@];
    if delta == Some(r.occurrence) {
        ordered(store.delta_rows())
    } else {
        ordered(store.rows())
    }
}

impl InnerJoin {
    pub open spec fn shape(self) -> JoinShape {
        JoinShape {
            lp: self.joiner.left_places(self.left.out_frame()),
            rp: self.joiner.right_places(self.right.out_frame()),
            drop: gone_at(self.columns(), name_set(self.to_eliminate@)),
        }
    }
}

impl InlineFixedRA {
    /// The rows, without the columns that are shed.
    pub open spec fn rows(self) -> Seq<Row> {
        Seq::new(
            self.data@.len(),
            |i: int|
                shed(
                    self.data@[i].deep_view(),
                    names(self.bindings@),
                    name_set(self.to_eliminate@),
                ),
        )
    }
}

/// The joined rows of a left row and inline rows.
pub open spec fn paired(l: Row, rows: Seq<Row>, shape: JoinShape) -> Stream {
    flow(
        rows,
        |r: Row|
            if keys_match(l, shape.lp, r, shape.rp) {
                Stream::one(without(l + r, shape.drop))
            } else {
                Stream::nothing()
            },
    )
}

/// A join with inline rows. Where there are none, the left is not read.
pub open spec fn fixed_join(left: Stream, rows: Seq<Row>, shape: JoinShape) -> Stream {
    if rows.len() == 0 {
        Stream::nothing()
    } else {
        through(left, |l: Row| paired(l, rows, shape))
    }
}

/// Where the rows of a scan of a stored relation come from.
pub open spec fn scan_origin(right: RelAlgebra, env: Env) -> Option<Origin> {
    match right {
        RelAlgebra::Stored(r) => Some(
            Origin {
                relation: r.storage.name,
                key_len: env.tables@[r.storage.id as int].key_len,
                span: r.span,
            },
        ),
        RelAlgebra::StoredWithValidity(r) => Some(
            Origin {
                relation: r.storage.name,
                key_len: env.tables@[r.storage.id as int].key_len,
                span: r.span,
            },
        ),
        _ => None,
    }
}

/// What fails while a right side is materialized: the first of its items that
/// is a failure or a stored row that ends before one of its columns.
pub open spec fn mat_failure(
    right: Stream,
    shape: JoinShape,
    width: int,
    origin: Option<Origin>,
) -> Option<QueryFault>
    decreases right.items.len(),
{
    if right.items.len() == 0 {
        None
    } else {
        match mat_failure(Stream { items: right.items.drop_last() }, shape, width, origin) {
            Some(e) => Some(e),
            None => match right.items.last() {
                Err(e) => Some(e),
                Ok(row) => match origin {
                    None => None,
                    Some(o) => {
                        let places = store_places(shape.rp, width);
                        match first_missing(places, row.len() as int, places.len() as int) {
                            Some(index) => Some(too_short(o, row, index)),
                            None => None,
                        }
                    },
                },
            },
        }
    }
}

/// A join whose right side is materialized. Nothing is read from the right
/// where the left is empty or fails at once; what fails on the right fails the
/// join.
pub open spec fn mat_join(
    left: Result<Stream, QueryFault>,
    right: Result<Stream, QueryFault>,
    shape: JoinShape,
    width: int,
    origin: Option<Origin>,
) -> Result<Stream, QueryFault> {
    match left {
        Err(e) => Err(e),
        Ok(ls) => if ls.items.len() == 0 {
            Ok(Stream::nothing())
        } else if ls.items[0] is Err {
            Err(ls.items[0]->Err_0)
        } else {
            match right {
                Err(e) => Err(e),
                Ok(rs) => match mat_failure(rs, shape, width, origin) {
                    Some(e) => Err(e),
                    None => {
                        let mat = materialized(rs.rows(), shape.rp, width);
                        Ok(through(ls, |l: Row| mat_joined(l, mat, shape, width)))
                    },
                },
            }
        },
    }
}

/// The join of a stream with the rows of a scan, by probes.
pub open spec fn probe_join(
    left: Stream,
    rows: Seq<Row>,
    shape: JoinShape,
    filters: Seq<Expr>,
    rframe: Seq<Name>,
    key_len: Option<int>,
    origin: Option<Origin>,
) -> Stream {
    through(
        left,
        |l: Row|
            probed(
                l,
                rows,
                shape,
                filters,
                rframe,
                probe_columns(rframe, shape.rp.len() as int, key_len),
                origin,
            ),
    )
}

/// The rows of a join, from those of its sides. A scan is probed where the
/// join columns are a leading run of its own; other right sides are
/// materialized.
pub open spec fn join_meaning(
    j: InnerJoin,
    left: Result<Stream, QueryFault>,
    right: Result<Stream, QueryFault>,
    env: Env,
    delta: Option<usize>,
) -> Result<Stream, QueryFault> {
    let shape = j.shape();
    let by_mat = mat_join(
        left,
        right,
        shape,
        j.right.out_frame().len() as int,
        scan_origin(j.right, env),
    );
    if j.right is Reorder || j.right is NegJoin {
        Err(QueryFault::Plan(PlanInvariant::RefusedRight))
    } else if j.fault() is Some {
        Err(QueryFault::Plan(j.fault()->Some_0))
    } else if j.right is Fixed {
        match left {
            Err(e) => Err(e),
            Ok(ls) => Ok(fixed_join(ls, j.right->Fixed_0.rows(), shape)),
        }
    } else if !is_prefix(shape.rp) {
        by_mat
    } else {
        match j.right {
            RelAlgebra::TempStore(r) => match left {
                Err(e) => Err(e),
                Ok(ls) => if env.stores@.contains_key(r.storage_key@) {
                    Ok(
                        probe_join(
                            ls,
                            occurrence_rows(r, env, delta),
                            shape,
                            r.filters@,
                            names(r.bindings@),
                            None,
                            None,
                        ),
                    )
                } else {
                    Err(QueryFault::Plan(PlanInvariant::NoStore))
                },
            },
            RelAlgebra::Stored(r) => match left {
                Err(e) => Err(e),
                Ok(ls) => {
                    let table = env.tables@[r.storage.id as int];
                    Ok(
                        probe_join(
                            ls,
                            snapshot(table.model(), newest()),
                            shape,
                            r.filters@,
                            names(r.bindings@),
                            Some(table.key_len as int),
                            Some(
                                Origin {
                                    relation: r.storage.name,
                                    key_len: table.key_len,
                                    span: r.span,
                                },
                            ),
                        ),
                    )
                },
            },
            RelAlgebra::StoredWithValidity(r) => match left {
                Err(e) => Err(e),
                Ok(ls) => {
                    let table = env.tables@[r.storage.id as int];
                    Ok(
                        probe_join(
                            ls,
                            snapshot(table.model(), r.as_of),
                            shape,
                            r.filters@,
                            names(r.bindings@),
                            Some(table.key_len as int),
                            None,
                        ),
                    )
                },
            },
            _ => by_mat,
        }
    }
}

/// The rows of a plan, or why it cannot be started. Only the occurrence
/// `delta` reads the delta of its store; every other one reads the total, and
/// so does every negation.
pub open spec fn meaning(plan: RelAlgebra, env: Env, delta: Option<usize>) -> Result<
    Stream,
    QueryFault,
>
    decreases plan,
{
    match plan {
        RelAlgebra::Fixed(r) => Ok(Stream::of(r.rows())),
        RelAlgebra::TempStore(r) => if env.stores@.contains_key(r.storage_key@) {
            Ok(sifted(occurrence_rows(r, env, delta), r.filters@, names(r.bindings@)))
        } else {
            Err(QueryFault::Plan(PlanInvariant::NoStore))
        },
        RelAlgebra::Stored(r) => Ok(
            sifted(
                snapshot(env.tables@[r.storage.id as int].model(), newest()),
                r.filters@,
                names(r.bindings@),
            ),
        ),
        RelAlgebra::StoredWithValidity(r) => Ok(
            sifted(
                snapshot(env.tables@[r.storage.id as int].model(), r.as_of),
                r.filters@,
                names(r.bindings@),
            ),
        ),
        RelAlgebra::Spans(r) => Ok(
            spans_stream(env.tables@[r.storage.id as int].model(), r.sys as int),
        ),
        RelAlgebra::Delta(r) => Ok(
            Stream::of(
                ordered(delta_set(env.tables@[r.storage.id as int].model(), r.from, r.to)),
            ),
        ),
        RelAlgebra::Reorder(r) => if all_placed(names(r.new_order@), r.relation.out_frame()) {
            match meaning(*r.relation, env, delta) {
                Err(e) => Err(e),
                Ok(s) => {
                    let places = crate::plan::places_of(
                        names(r.new_order@),
                        r.relation.out_frame(),
                        r.new_order@.len() as int,
                    );
                    Ok(through(s, |row: Row| Stream::one(project(row, places))))
                },
            }
        } else {
            Err(QueryFault::Plan(PlanInvariant::ReorderColumns))
        },
        RelAlgebra::Filter(r) => match meaning(*r.parent, env, delta) {
            Err(e) => Err(e),
            Ok(s) => {
                let frame = r.parent.out_frame();
                Ok(
                    through(
                        s,
                        |row: Row|
                            sift(
                                r.filters@,
                                frame,
                                row,
                                shed(row, frame, name_set(r.to_eliminate@)),
                            ),
                    ),
                )
            },
        },
        RelAlgebra::Unification(u) => match meaning(*u.parent, env, delta) {
            Err(e) => Err(e),
            Ok(s) => {
                let frame = u.parent.out_frame();
                Ok(
                    through(
                        s,
                        |row: Row|
                            unified(
                                row,
                                eval_named(u.expr, frame, row),
                                u.is_multi,
                                u.span,
                                gone_at(frame.push(u.binding@), name_set(u.to_eliminate@)),
                            ),
                    ),
                )
            },
        },
        RelAlgebra::Search(s) => match meaning(*s.parent, env, delta) {
            Err(e) => Err(e),
            Ok(p) => Ok(through(p, |row: Row| searched(row, *s, env))),
        },
        RelAlgebra::NegJoin(n) => match n.joiner.fault(n.left.out_frame(), n.right.frame()) {
            Some(e) => Err(QueryFault::Plan(e)),
            None => match meaning(n.left, env, delta) {
                Err(e) => Err(e),
                Ok(ls) => match neg_rows(n.right, env) {
                    Err(e) => Err(e),
                    Ok(rows) => {
                        let shape = JoinShape {
                            lp: n.joiner.left_places(n.left.out_frame()),
                            rp: n.joiner.right_places(n.right.frame()),
                            drop: gone_at(n.left.out_frame(), name_set(n.to_eliminate@)),
                        };
                        neg_join(ls, rows, shape, neg_origin(n.right, env))
                    },
                },
            },
        },
        RelAlgebra::Join(j) => join_meaning(
            *j,
            meaning(j.left, env, delta),
            meaning(j.right, env, delta),
            env,
            delta,
        ),
    }
}

} // verus!
