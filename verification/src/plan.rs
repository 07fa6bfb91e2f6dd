//! Relational-algebra plans: the operator tree of one rule body, its
//! constructors, and the frame of names that every operator hands on.

use vstd::prelude::*;
use crate::expr::{Expr, SourceSpan};
use crate::history::AsOf;
use crate::names::{
    copy_names, has_name, join_names, kept, last_place, name_set, names, place_in, Name,
};
use crate::stream::{PlanInvariant, QueryError};
use crate::value::Tuple;

verus! {

/// Inline rows: the unit relation, or literal data.
#[derive(Debug)]
pub struct InlineFixedRA {
    pub bindings: Vec<String>,
    pub data: Vec<Tuple>,
    pub to_eliminate: Vec<String>,
    pub span: SourceSpan,
}

/// A scan of the store of a rule.
#[derive(Debug)]
pub struct TempStoreRA {
    pub bindings: Vec<String>,
    pub storage_key: String,
    /// The position of this atom among the rule atoms of its body.
    pub occurrence: usize,
    pub filters: Vec<Expr>,
    pub span: SourceSpan,
}

/// What a stored relation holds: facts with their history, or the working rows
/// of an algorithm, which have none.
#[derive(Clone, Copy, Debug, PartialEq, Eq, Structural)]
pub enum KeyspaceKind {
    Facts,
    AlgorithmState,
}

/// A stored relation: its name, its place among the relations, and what it
/// holds.
#[derive(Debug)]
pub struct RelationHandle {
    pub name: String,
    pub id: usize,
    pub keyspace_kind: KeyspaceKind,
}

/// A scan of a stored relation as it is now.
#[derive(Debug)]
pub struct StoredRA {
    pub bindings: Vec<String>,
    pub storage: RelationHandle,
    pub filters: Vec<Expr>,
    pub span: SourceSpan,
}

/// A scan of a stored relation as of a coordinate.
#[derive(Debug)]
pub struct StoredWithValidityRA {
    pub bindings: Vec<String>,
    pub storage: RelationHandle,
    pub filters: Vec<Expr>,
    pub as_of: AsOf,
    pub span: SourceSpan,
}

/// The derived intervals of a stored relation at a system snapshot.
#[derive(Debug)]
pub struct SpansRA {
    pub bindings: Vec<String>,
    pub storage: RelationHandle,
    pub sys: i64,
    pub span: SourceSpan,
}

/// The net change of a stored relation between two coordinates.
#[derive(Debug)]
pub struct DeltaRA {
    pub bindings: Vec<String>,
    pub storage: RelationHandle,
    pub from: AsOf,
    pub to: AsOf,
    pub span: SourceSpan,
}

/// The named columns two sides are joined on.
#[derive(Debug)]
pub struct Joiner {
    pub left_keys: Vec<String>,
    pub right_keys: Vec<String>,
}

/// Each left tuple extended by every matching right row.
#[derive(Debug)]
pub struct InnerJoin {
    pub left: RelAlgebra,
    pub right: RelAlgebra,
    pub joiner: Joiner,
    pub to_eliminate: Vec<String>,
    pub span: SourceSpan,
}

/// What may stand on the right of a negation.
#[derive(Debug)]
pub enum NegRight {
    TempStore(TempStoreRA),
    Stored(StoredRA),
    StoredWithValidity(StoredWithValidityRA),
    Spans(SpansRA),
    Delta(DeltaRA),
}

/// The left tuples that no right row matches.
#[derive(Debug)]
pub struct NegJoin {
    pub left: RelAlgebra,
    pub right: NegRight,
    pub joiner: Joiner,
    pub to_eliminate: Vec<String>,
    pub span: SourceSpan,
}

/// The parent's columns in another order.
#[derive(Debug)]
pub struct ReorderRA {
    pub relation: Box<RelAlgebra>,
    pub new_order: Vec<String>,
}

/// The parent's tuples on which every filter holds.
#[derive(Debug)]
pub struct FilteredRA {
    pub parent: Box<RelAlgebra>,
    pub filters: Vec<Expr>,
    pub to_eliminate: Vec<String>,
    pub span: SourceSpan,
}

/// The parent's tuples with a computed column, or with each element of a
/// computed list.
#[derive(Debug)]
pub struct UnificationRA {
    pub parent: Box<RelAlgebra>,
    pub binding: String,
    pub expr: Expr,
    pub is_multi: bool,
    pub to_eliminate: Vec<String>,
    pub span: SourceSpan,
}

/// What an index is searched for.
#[derive(Clone, Copy, Debug, PartialEq, Eq, Structural)]
pub enum SearchKind {
    /// Nearest neighbours of a vector, given as a list.
    Hnsw,
    /// Documents for a text.
    Fts,
    /// Near duplicates of any value.
    Lsh,
}

/// The parent's tuples, each extended by every result of an index search.
#[derive(Debug)]
pub struct SearchRA {
    pub parent: Box<RelAlgebra>,
    pub kind: SearchKind,
    pub index: usize,
    pub query: Expr,
    pub filter: Option<Expr>,
    pub own_bindings: Vec<String>,
    pub span: SourceSpan,
}

/// One node of a compiled rule body.
#[derive(Debug)]
pub enum RelAlgebra {
    Fixed(InlineFixedRA),
    TempStore(TempStoreRA),
    Stored(StoredRA),
    StoredWithValidity(StoredWithValidityRA),
    Join(Box<InnerJoin>),
    NegJoin(Box<NegJoin>),
    Reorder(ReorderRA),
    Filter(FilteredRA),
    Unification(UnificationRA),
    Search(Box<SearchRA>),
    Spans(SpansRA),
    Delta(DeltaRA),
}

/// The axis along which a change is taken.
#[derive(Clone, Copy, Debug, PartialEq, Eq, Structural)]
pub enum DeltaAxis {
    Valid,
    Sys,
}

/// What a query asks of the history of a stored relation.
#[derive(Debug)]
pub enum ValidityClause {
    At(AsOf),
    Spans { sys: i64, var: String },
    Delta { axis: DeltaAxis, from: i64, to: i64, var: String },
}

/// The two coordinates of a change along an axis.
pub open spec fn delta_ends(axis: DeltaAxis, from: i64, to: i64) -> (AsOf, AsOf) {
    match axis {
        DeltaAxis::Valid => (
            AsOf { valid: from, sys: i64::MAX },
            AsOf { valid: to, sys: i64::MAX },
        ),
        DeltaAxis::Sys => (
            AsOf { valid: i64::MAX, sys: from },
            AsOf { valid: i64::MAX, sys: to },
        ),
    }
}

impl NegRight {
    pub open spec fn frame(self) -> Seq<Name> {
        match self {
            NegRight::TempStore(r) => names(r.bindings@),
            NegRight::Stored(r) => names(r.bindings@),
            NegRight::StoredWithValidity(r) => names(r.bindings@),
            NegRight::Spans(r) => names(r.bindings@),
            NegRight::Delta(r) => names(r.bindings@),
        }
    }

    /// The columns of the right side.
    pub fn bindings(&self) -> (r: &Vec<String>)
        ensures
            names(r@) == self.frame(),
    {
        match self {
            NegRight::TempStore(r) => &r.bindings,
            NegRight::Stored(r) => &r.bindings,
            NegRight::StoredWithValidity(r) => &r.bindings,
            NegRight::Spans(r) => &r.bindings,
            NegRight::Delta(r) => &r.bindings,
        }
    }
}

impl RelAlgebra {
    /// The columns of an operator, before it sheds any.
    pub open spec fn frame(self) -> Seq<Name>
        decreases self,
    {
        match self {
            RelAlgebra::Fixed(r) => names(r.bindings@),
            RelAlgebra::TempStore(r) => names(r.bindings@),
            RelAlgebra::Stored(r) => names(r.bindings@),
            RelAlgebra::StoredWithValidity(r) => names(r.bindings@),
            RelAlgebra::Spans(r) => names(r.bindings@),
            RelAlgebra::Delta(r) => names(r.bindings@),
            RelAlgebra::Join(j) => kept(j.left.frame(), j.left.gone()) + kept(
                j.right.frame(),
                j.right.gone(),
            ),
            RelAlgebra::Reorder(r) => names(r.new_order@),
            RelAlgebra::Filter(r) => kept(r.parent.frame(), r.parent.gone()),
            RelAlgebra::NegJoin(j) => kept(j.left.frame(), j.left.gone()),
            RelAlgebra::Unification(u) => kept(u.parent.frame(), u.parent.gone()).push(u.binding@),
            RelAlgebra::Search(s) => kept(s.parent.frame(), s.parent.gone()) + names(
                s.own_bindings@,
            ),
        }
    }

    /// The columns an operator sheds.
    pub open spec fn gone(self) -> Set<Name> {
        match self {
            RelAlgebra::Fixed(r) => name_set(r.to_eliminate@),
            RelAlgebra::Join(r) => name_set(r.to_eliminate@),
            RelAlgebra::Filter(r) => name_set(r.to_eliminate@),
            RelAlgebra::NegJoin(r) => name_set(r.to_eliminate@),
            RelAlgebra::Unification(r) => name_set(r.to_eliminate@),
            _ => Set::empty(),
        }
    }

    /// The columns an operator hands on.
    pub open spec fn out_frame(self) -> Seq<Name> {
        kept(self.frame(), self.gone())
    }

    pub open spec fn at(self) -> SourceSpan
        decreases self,
    {
        match self {
            RelAlgebra::Fixed(i) => i.span,
            RelAlgebra::TempStore(i) => i.span,
            RelAlgebra::Stored(i) => i.span,
            RelAlgebra::Join(i) => i.span,
            RelAlgebra::NegJoin(i) => i.span,
            RelAlgebra::Reorder(i) => i.relation.at(),
            RelAlgebra::Filter(i) => i.span,
            RelAlgebra::Unification(i) => i.span,
            RelAlgebra::StoredWithValidity(i) => i.span,
            RelAlgebra::Search(i) => i.span,
            RelAlgebra::Spans(i) => i.span,
            RelAlgebra::Delta(i) => i.span,
        }
    }

    /// The text region of an operator.
    pub fn span(&self) -> (r: SourceSpan)
        ensures
            r == self.at(),
        decreases self,
    {
        match self {
            RelAlgebra::Fixed(i) => i.span,
            RelAlgebra::TempStore(i) => i.span,
            RelAlgebra::Stored(i) => i.span,
            RelAlgebra::Join(i) => i.span,
            RelAlgebra::NegJoin(i) => i.span,
            RelAlgebra::Reorder(i) => i.relation.span(),
            RelAlgebra::Filter(i) => i.span,
            RelAlgebra::Unification(i) => i.span,
            RelAlgebra::StoredWithValidity(i) => i.span,
            RelAlgebra::Search(i) => i.span,
            RelAlgebra::Spans(i) => i.span,
            RelAlgebra::Delta(i) => i.span,
        }
    }

    /// One empty row: the seed of every rule body.
    pub open spec fn unit_like(self) -> bool {
        self matches RelAlgebra::Fixed(r) && r.bindings@.len() == 0 && r.data@.len() == 1
    }

    /// The unit relation: one empty tuple.
    pub fn unit(span: SourceSpan) -> (r: Self)
        ensures
            r.unit_like(),
            r.at() == span,
            r->Fixed_0.data.deep_view() == seq![Seq::<crate::value::Val>::empty()],
            r->Fixed_0.to_eliminate@.len() == 0,
    {
        RelAlgebra::Fixed(InlineFixedRA::unit(span))
    }

    /// Whether this is the unit relation: no columns, one row.
    pub fn is_unit(&self) -> (r: bool)
        ensures
            r == self.unit_like(),
    {
        match self {
            RelAlgebra::Fixed(r) => r.bindings.len() == 0 && r.data.len() == 1,
            _ => false,
        }
    }

    /// A scan of the store of a rule.
    pub fn derived(
        bindings: Vec<String>,
        storage_key: String,
        occurrence: usize,
        span: SourceSpan,
    ) -> (r: Self)
        ensures
            r is TempStore,
            r->TempStore_0.bindings == bindings,
            r->TempStore_0.storage_key == storage_key,
            r->TempStore_0.occurrence == occurrence,
            r->TempStore_0.filters@.len() == 0,
            r->TempStore_0.span == span,
    {
        RelAlgebra::TempStore(
            TempStoreRA { bindings, storage_key, occurrence, filters: Vec::new(), span },
        )
    }

    /// A scan of a stored relation: as it is now, as of a coordinate, its
    /// derived intervals, or its change between two coordinates. Intervals
    /// and signs come in one more column at the end.
    pub fn relation(
        bindings: Vec<String>,
        storage: RelationHandle,
        span: SourceSpan,
        validity: Option<ValidityClause>,
    ) -> (r: Self)
        ensures
            r.at() == span,
            match validity {
                None => {
                    &&& r is Stored
                    &&& r->Stored_0.bindings == bindings
                    &&& r->Stored_0.storage == storage
                    &&& r->Stored_0.filters@.len() == 0
                },
                Some(ValidityClause::At(at)) => {
                    &&& r is StoredWithValidity
                    &&& r->StoredWithValidity_0.bindings == bindings
                    &&& r->StoredWithValidity_0.storage == storage
                    &&& r->StoredWithValidity_0.filters@.len() == 0
                    &&& r->StoredWithValidity_0.as_of == at
                },
                Some(ValidityClause::Spans { sys, var }) => {
                    &&& r is Spans
                    &&& r->Spans_0.bindings@ == bindings@.push(var)
                    &&& r->Spans_0.storage == storage
                    &&& r->Spans_0.sys == sys
                },
                Some(ValidityClause::Delta { axis, from, to, var }) => {
                    &&& r is Delta
                    &&& r->Delta_0.bindings@ == bindings@.push(var)
                    &&& r->Delta_0.storage == storage
                    &&& (r->Delta_0.from, r->Delta_0.to) == delta_ends(axis, from, to)
                },
            },
    {
        match validity {
            None => RelAlgebra::Stored(StoredRA { bindings, storage, filters: Vec::new(), span }),
            Some(ValidityClause::At(as_of)) => RelAlgebra::StoredWithValidity(
                StoredWithValidityRA { bindings, storage, filters: Vec::new(), as_of, span },
            ),
            Some(ValidityClause::Spans { sys, var }) => {
                let mut bindings = bindings;
                bindings.push(var);
                RelAlgebra::Spans(SpansRA { bindings, storage, sys, span })
            },
            Some(ValidityClause::Delta { axis, from, to, var }) => {
                let mut bindings = bindings;
                bindings.push(var);
                let (from, to) = match axis {
                    DeltaAxis::Valid => (AsOf::current(from), AsOf::current(to)),
                    DeltaAxis::Sys => (
                        AsOf { valid: i64::MAX, sys: from },
                        AsOf { valid: i64::MAX, sys: to },
                    ),
                };
                RelAlgebra::Delta(DeltaRA { bindings, storage, from, to, span })
            },
        }
    }

    /// The columns in another order. Only ever the root of a plan.
    pub fn reorder(self, new_order: Vec<String>) -> (r: Self)
        ensures
            r is Reorder,
            *r->Reorder_0.relation == self,
            r->Reorder_0.new_order == new_order,
    {
        RelAlgebra::Reorder(ReorderRA { relation: Box::new(self), new_order })
    }

    /// A computed column, or one row per element of a computed list.
    pub fn unify(self, binding: String, expr: Expr, is_multi: bool, span: SourceSpan) -> (r: Self)
        ensures
            r is Unification,
            *r->Unification_0.parent == self,
            r->Unification_0.binding == binding,
            r->Unification_0.expr == expr,
            r->Unification_0.is_multi == is_multi,
            r->Unification_0.to_eliminate@.len() == 0,
            r->Unification_0.span == span,
    {
        RelAlgebra::Unification(
            UnificationRA {
                parent: Box::new(self),
                binding,
                expr,
                is_multi,
                to_eliminate: Vec::new(),
                span,
            },
        )
    }

    /// The inner join of two plans. A reorder or a negation has no join
    /// semantics on the right and is refused there.
    pub fn join(
        self,
        right: RelAlgebra,
        left_keys: Vec<String>,
        right_keys: Vec<String>,
        span: SourceSpan,
    ) -> (r: Result<Self, QueryError>)
        ensures
            match r {
                Ok(p) => {
                    &&& !(right is Reorder) && !(right is NegJoin)
                    &&& p is Join
                    &&& p->Join_0.left == self
                    &&& p->Join_0.right == right
                    &&& p->Join_0.joiner == (Joiner { left_keys, right_keys })
                    &&& p->Join_0.to_eliminate@.len() == 0
                    &&& p->Join_0.span == span
                },
                Err(e) => {
                    ||| right is Reorder && e == QueryError::Plan(PlanInvariant::ReorderOnTheRight)
                    ||| right is NegJoin && e == QueryError::Plan(PlanInvariant::NegationOnTheRight)
                },
            },
    {
        match &right {
            RelAlgebra::Reorder(_) => {
                return Err(QueryError::Plan(PlanInvariant::ReorderOnTheRight));
            },
            RelAlgebra::NegJoin(_) => {
                return Err(QueryError::Plan(PlanInvariant::NegationOnTheRight));
            },
            _ => {},
        }
        Ok(
            RelAlgebra::Join(
                Box::new(
                    InnerJoin {
                        left: self,
                        right,
                        joiner: Joiner { left_keys, right_keys },
                        to_eliminate: Vec::new(),
                        span,
                    },
                ),
            ),
        )
    }

    /// A join without join columns.
    pub fn cartesian_join(self, right: RelAlgebra, span: SourceSpan) -> (r: Result<
        Self,
        QueryError,
    >)
        ensures
            match r {
                Ok(p) => {
                    &&& !(right is Reorder) && !(right is NegJoin)
                    &&& p is Join
                    &&& p->Join_0.left == self
                    &&& p->Join_0.right == right
                    &&& p->Join_0.joiner.left_keys@.len() == 0
                    &&& p->Join_0.joiner.right_keys@.len() == 0
                    &&& p->Join_0.to_eliminate@.len() == 0
                    &&& p->Join_0.span == span
                },
                Err(e) => {
                    ||| right is Reorder && e == QueryError::Plan(PlanInvariant::ReorderOnTheRight)
                    ||| right is NegJoin && e == QueryError::Plan(PlanInvariant::NegationOnTheRight)
                },
            },
    {
        self.join(right, Vec::new(), Vec::new(), span)
    }

    /// Whether a plan may stand on the right of a negation.
    pub open spec fn negatable(self) -> bool {
        match self {
            RelAlgebra::TempStore(_) => true,
            RelAlgebra::Stored(_) => true,
            RelAlgebra::StoredWithValidity(_) => true,
            RelAlgebra::Spans(_) => true,
            RelAlgebra::Delta(_) => true,
            _ => false,
        }
    }

    /// The left tuples that no row of the right side matches. Only a scan can
    /// be negated.
    pub fn neg_join(
        self,
        right: RelAlgebra,
        left_keys: Vec<String>,
        right_keys: Vec<String>,
        span: SourceSpan,
    ) -> (r: Result<Self, QueryError>)
        ensures
            match r {
                Ok(p) => {
                    &&& right.negatable()
                    &&& p is NegJoin
                    &&& p->NegJoin_0.left == self
                    &&& match right {
                        RelAlgebra::TempStore(v) => p->NegJoin_0.right == NegRight::TempStore(v),
                        RelAlgebra::Stored(v) => p->NegJoin_0.right == NegRight::Stored(v),
                        RelAlgebra::StoredWithValidity(v) => p->NegJoin_0.right
                            == NegRight::StoredWithValidity(v),
                        RelAlgebra::Spans(v) => p->NegJoin_0.right == NegRight::Spans(v),
                        RelAlgebra::Delta(v) => p->NegJoin_0.right == NegRight::Delta(v),
                        _ => false,
                    }
                    &&& p->NegJoin_0.joiner == (Joiner { left_keys, right_keys })
                    &&& p->NegJoin_0.to_eliminate@.len() == 0
                    &&& p->NegJoin_0.span == span
                },
                Err(e) => !right.negatable() && e == QueryError::Plan(PlanInvariant::NegatedRight),
            },
    {
        let right = match right {
            RelAlgebra::TempStore(v) => NegRight::TempStore(v),
            RelAlgebra::Stored(v) => NegRight::Stored(v),
            RelAlgebra::StoredWithValidity(v) => NegRight::StoredWithValidity(v),
            RelAlgebra::Spans(v) => NegRight::Spans(v),
            RelAlgebra::Delta(v) => NegRight::Delta(v),
            _ => {
                return Err(QueryError::Plan(PlanInvariant::NegatedRight));
            },
        };
        Ok(
            RelAlgebra::NegJoin(
                Box::new(
                    NegJoin {
                        left: self,
                        right,
                        joiner: Joiner { left_keys, right_keys },
                        to_eliminate: Vec::new(),
                        span,
                    },
                ),
            ),
        )
    }

    /// The names an operator sheds, if it can shed any.
    pub fn eliminate_set(&self) -> (r: Option<&Vec<String>>)
        ensures
            match r {
                Some(v) => name_set(v@) == self.gone(),
                None => self.gone() == Set::<Name>::empty(),
            },
            r is Some <==> (self is Fixed || self is Join || self is Filter || self is NegJoin
                || self is Unification),
    {
        match self {
            RelAlgebra::Fixed(r) => Some(&r.to_eliminate),
            RelAlgebra::Join(r) => Some(&r.to_eliminate),
            RelAlgebra::Filter(r) => Some(&r.to_eliminate),
            RelAlgebra::NegJoin(r) => Some(&r.to_eliminate),
            RelAlgebra::Unification(r) => Some(&r.to_eliminate),
            _ => None,
        }
    }

    /// The columns of an operator, before it sheds any.
    pub fn bindings_before_eliminate(&self) -> (r: Vec<String>)
        ensures
            names(r@) == self.frame(),
        decreases self, 0int,
    {
        match self {
            RelAlgebra::Fixed(f) => copy_names(&f.bindings),
            RelAlgebra::TempStore(d) => copy_names(&d.bindings),
            RelAlgebra::Stored(v) => copy_names(&v.bindings),
            RelAlgebra::StoredWithValidity(v) => copy_names(&v.bindings),
            RelAlgebra::Spans(v) => copy_names(&v.bindings),
            RelAlgebra::Delta(v) => copy_names(&v.bindings),
            RelAlgebra::Join(j) => {
                let left = j.left.bindings_after_eliminate();
                let right = j.right.bindings_after_eliminate();
                join_names(left, &right)
            },
            RelAlgebra::Reorder(r) => copy_names(&r.new_order),
            RelAlgebra::Filter(r) => r.parent.bindings_after_eliminate(),
            RelAlgebra::NegJoin(j) => j.left.bindings_after_eliminate(),
            RelAlgebra::Unification(u) => {
                let mut bindings = u.parent.bindings_after_eliminate();
                let ghost before = names(bindings@);
                bindings.push(u.binding.clone());
                proof {
                    assert(names(bindings@) =~= before.push(u.binding@));
                }
                bindings
            },
            RelAlgebra::Search(s) => {
                let bindings = s.parent.bindings_after_eliminate();
                join_names(bindings, &s.own_bindings)
            },
        }
    }

    /// The columns an operator hands on: the frame every consumer indexes
    /// against.
    pub fn bindings_after_eliminate(&self) -> (r: Vec<String>)
        ensures
            names(r@) == self.out_frame(),
        decreases self, 1int,
    {
        let all = self.bindings_before_eliminate();
        match self.eliminate_set() {
            None => {
                proof {
                    crate::names::lemma_without_nothing(
                        self.frame(),
                        crate::names::gone_at(self.frame(), self.gone()),
                    );
                }
                all
            },
            Some(gone) => keep_names(all, gone),
        }
    }
}

/// The names of a frame that are not eliminated.
fn keep_names(frame: Vec<String>, gone: &Vec<String>) -> (r: Vec<String>)
    ensures
        names(r@) == kept(names(frame@), name_set(gone@)),
{
    let ghost all = names(frame@);
    let ghost at = crate::names::gone_at(all, name_set(gone@));
    let mut out: Vec<String> = Vec::new();
    let mut i: usize = 0;
    proof {
        assert(names(out@) =~= crate::names::without(all.take(0), at));
    }
    while i < frame.len()
        invariant
            i <= frame@.len(),
            all == names(frame@),
            at == crate::names::gone_at(all, name_set(gone@)),
            names(out@) == crate::names::without(all.take(i as int), at),
        decreases frame.len() - i,
    {
        proof {
            assert(all.take(i + 1).drop_last() =~= all.take(i as int));
            assert(all.take(i + 1).last() == frame@[i as int]@);
        }
        let ghost prev = names(out@);
        if !has_name(gone, &frame[i]) {
            out.push(frame[i].clone());
            proof {
                assert(names(out@) =~= prev.push(frame@[i as int]@));
            }
        }
        i = i + 1;
    }
    proof {
        assert(all.take(i as int) =~= all);
    }
    out
}

impl InlineFixedRA {
    /// No columns, one empty row.
    pub fn unit(span: SourceSpan) -> (r: Self)
        ensures
            r.bindings@.len() == 0,
            r.data.deep_view() == seq![Seq::<crate::value::Val>::empty()],
            r.data@.len() == 1,
            r.to_eliminate@.len() == 0,
            r.span == span,
    {
        let mut data: Vec<Tuple> = Vec::new();
        let row: Tuple = Vec::new();
        proof {
            assert(row.deep_view() =~= Seq::<crate::value::Val>::empty());
        }
        data.push(row);
        proof {
            assert(data.deep_view() =~= seq![Seq::<crate::value::Val>::empty()]);
            assert(data@.len() == data.deep_view().len());
        }
        InlineFixedRA { bindings: Vec::new(), data, to_eliminate: Vec::new(), span }
    }

    pub open spec fn strategy(self) -> Seq<char> {
        if self.data@.len() == 0 {
            "null_join"@
        } else if self.data@.len() == 1 {
            "singleton_join"@
        } else {
            "fixed_join"@
        }
    }

    /// How a join with these rows is carried out.
    pub fn join_type(&self) -> (r: &'static str)
        ensures
            r@ == self.strategy(),
    {
        if self.data.len() == 0 {
            "null_join"
        } else if self.data.len() == 1 {
            "singleton_join"
        } else {
            "fixed_join"
        }
    }
}

/// The first pair of join columns, among the first `n`, of which one is in no
/// frame.
pub open spec fn key_fault(
    lk: Seq<Name>,
    rk: Seq<Name>,
    lf: Seq<Name>,
    rf: Seq<Name>,
    n: int,
) -> Option<PlanInvariant>
    decreases n,
{
    if n <= 0 {
        None
    } else {
        match key_fault(lk, rk, lf, rf, n - 1) {
            Some(e) => Some(e),
            None => if last_place(lf, lk[n - 1]) is None {
                Some(PlanInvariant::LeftKey)
            } else if last_place(rf, rk[n - 1]) is None {
                Some(PlanInvariant::RightKey)
            } else {
                None
            },
        }
    }
}

proof fn lemma_key_fault(
    lk: Seq<Name>,
    rk: Seq<Name>,
    lf: Seq<Name>,
    rf: Seq<Name>,
    k: int,
    n: int,
)
    requires
        0 <= k <= n,
        key_fault(lk, rk, lf, rf, k) is Some,
    ensures
        key_fault(lk, rk, lf, rf, n) == key_fault(lk, rk, lf, rf, k),
    decreases n - k,
{
    if k < n {
        lemma_key_fault(lk, rk, lf, rf, k + 1, n);
    }
}

/// The places of the first `n` names in a frame.
pub open spec fn places_of(keys: Seq<Name>, frame: Seq<Name>, n: int) -> Seq<usize> {
    Seq::new(n as nat, |i: int| last_place(frame, keys[i])->Some_0 as usize)
}

/// Whether a name occurs again before place `n`.
pub open spec fn occurs_later(keys: Seq<Name>, m: int, n: int) -> bool {
    exists|k: int| m < k < n && #[trigger] keys[k] == keys[m]
}

/// The first `j` of `n` pairs of names, without those whose left name occurs
/// again later.
pub open spec fn last_pairs(lk: Seq<Name>, rk: Seq<Name>, j: int, n: int) -> Seq<(Name, Name)>
    decreases j,
{
    if j <= 0 {
        Seq::empty()
    } else if occurs_later(lk, j - 1, n) {
        last_pairs(lk, rk, j - 1, n)
    } else {
        last_pairs(lk, rk, j - 1, n).push((lk[j - 1], rk[j - 1]))
    }
}

impl Joiner {
    /// The number of join columns.
    pub open spec fn arity(self) -> int {
        if self.left_keys@.len() <= self.right_keys@.len() {
            self.left_keys@.len() as int
        } else {
            self.right_keys@.len() as int
        }
    }

    pub open spec fn fault(self, lf: Seq<Name>, rf: Seq<Name>) -> Option<PlanInvariant> {
        key_fault(names(self.left_keys@), names(self.right_keys@), lf, rf, self.arity())
    }

    pub open spec fn left_places(self, lf: Seq<Name>) -> Seq<usize> {
        places_of(names(self.left_keys@), lf, self.arity())
    }

    pub open spec fn right_places(self, rf: Seq<Name>) -> Seq<usize> {
        places_of(names(self.right_keys@), rf, self.arity())
    }

    /// The join columns as pairs of a left and a right name. Of two pairs with
    /// one left name the later counts.
    pub fn as_map(&self) -> (r: Vec<(&String, &String)>)
        ensures
            Seq::new(r@.len(), |i: int| (r@[i].0@, r@[i].1@)) == last_pairs(
                names(self.left_keys@),
                names(self.right_keys@),
                self.arity(),
                self.arity(),
            ),
    {
        let ghost lk = names(self.left_keys@);
        let ghost rk = names(self.right_keys@);
        let n: usize = if self.left_keys.len() <= self.right_keys.len() {
            self.left_keys.len()
        } else {
            self.right_keys.len()
        };
        let mut out: Vec<(&String, &String)> = Vec::new();
        let mut j: usize = 0;
        proof {
            assert(Seq::new(out@.len(), |i: int| (out@[i].0@, out@[i].1@)) =~= last_pairs(
                lk,
                rk,
                0,
                n as int,
            ));
        }
        while j < n
            invariant
                j <= n,
                n <= self.left_keys@.len(),
                n <= self.right_keys@.len(),
                lk == names(self.left_keys@),
                rk == names(self.right_keys@),
                Seq::new(out@.len(), |i: int| (out@[i].0@, out@[i].1@)) == last_pairs(
                    lk,
                    rk,
                    j as int,
                    n as int,
                ),
            decreases n - j,
        {
            let mut later = false;
            let mut k: usize = j + 1;
            while k < n
                invariant
                    j < k <= n,
                    n <= self.left_keys@.len(),
                    lk == names(self.left_keys@),
                    later == occurs_later(lk, j as int, k as int),
                decreases n - k,
            {
                proof {
                    assert(lk[k as int] == self.left_keys@[k as int]@);
                    assert(lk[j as int] == self.left_keys@[j as int]@);
                }
                if self.left_keys[k] == self.left_keys[j] {
                    later = true;
                }
                k = k + 1;
            }
            let ghost prev = Seq::new(out@.len(), |i: int| (out@[i].0@, out@[i].1@));
            if !later {
                out.push((&self.left_keys[j], &self.right_keys[j]));
                proof {
                    assert(Seq::new(out@.len(), |i: int| (out@[i].0@, out@[i].1@)) =~= prev.push(
                        (lk[j as int], rk[j as int]),
                    ));
                }
            }
            j = j + 1;
        }
        out
    }

    /// The places of the join columns in the two frames. A column that is not
    /// in its frame is an error.
    pub fn join_indices(&self, left_bindings: &Vec<String>, right_bindings: &Vec<String>) -> (r:
        Result<(Vec<usize>, Vec<usize>), QueryError>)
        ensures
            match r {
                Ok(p) => {
                    &&& self.fault(names(left_bindings@), names(right_bindings@)) is None
                    &&& p.0@ == self.left_places(names(left_bindings@))
                    &&& p.1@ == self.right_places(names(right_bindings@))
                },
                Err(e) => {
                    &&& self.fault(names(left_bindings@), names(right_bindings@)) is Some
                    &&& e == QueryError::Plan(
                        self.fault(names(left_bindings@), names(right_bindings@))->Some_0,
                    )
                },
            },
    {
        let ghost lk = names(self.left_keys@);
        let ghost rk = names(self.right_keys@);
        let ghost lf = names(left_bindings@);
        let ghost rf = names(right_bindings@);
        let n: usize = if self.left_keys.len() <= self.right_keys.len() {
            self.left_keys.len()
        } else {
            self.right_keys.len()
        };
        let mut ret_l: Vec<usize> = Vec::new();
        let mut ret_r: Vec<usize> = Vec::new();
        let mut i: usize = 0;
        while i < n
            invariant
                i <= n,
                n == self.arity(),
                n <= self.left_keys@.len(),
                n <= self.right_keys@.len(),
                lk == names(self.left_keys@),
                rk == names(self.right_keys@),
                lf == names(left_bindings@),
                rf == names(right_bindings@),
                key_fault(lk, rk, lf, rf, i as int) is None,
                ret_l@ == places_of(lk, lf, i as int),
                ret_r@ == places_of(rk, rf, i as int),
            decreases n - i,
        {
            let l_pos: usize = match place_in(left_bindings, &self.left_keys[i]) {
                Some(p) => p,
                None => {
                    proof {
                        lemma_key_fault(lk, rk, lf, rf, i + 1, n as int);
                    }
                    return Err(QueryError::Plan(PlanInvariant::LeftKey));
                },
            };
            let r_pos: usize = match place_in(right_bindings, &self.right_keys[i]) {
                Some(p) => p,
                None => {
                    proof {
                        lemma_key_fault(lk, rk, lf, rf, i + 1, n as int);
                    }
                    return Err(QueryError::Plan(PlanInvariant::RightKey));
                },
            };
            ret_l.push(l_pos);
            ret_r.push(r_pos);
            proof {
                assert(ret_l@ =~= places_of(lk, lf, i + 1));
                assert(ret_r@ =~= places_of(rk, rf, i + 1));
            }
            i = i + 1;
        }
        Ok((ret_l, ret_r))
    }
}

/// Whether places are, in some order, the first ones.
pub open spec fn is_prefix(places: Seq<usize>) -> bool {
    &&& places.no_duplicates()
    &&& forall|i: int| 0 <= i < places.len() ==> #[trigger] places[i] < places.len()
}

/// Whether join columns are exactly a leading run of columns: the condition
/// for a prefix scan.
pub fn join_is_prefix(right_join_indices: &Vec<usize>) -> (r: bool)
    ensures
        r == is_prefix(right_join_indices@),
{
    let n: usize = right_join_indices.len();
    let mut i: usize = 0;
    while i < n
        invariant
            i <= n,
            n == right_join_indices@.len(),
            forall|j: int| 0 <= j < i ==> #[trigger] right_join_indices@[j] < n,
            forall|j: int, k: int|
                0 <= j < k < i ==> right_join_indices@[j] != right_join_indices@[k],
        decreases n - i,
    {
        if right_join_indices[i] >= n {
            return false;
        }
        let mut j: usize = 0;
        while j < i
            invariant
                j <= i < n,
                n == right_join_indices@.len(),
                forall|k: int| 0 <= k < j ==> right_join_indices@[k] != right_join_indices@[i as int],
            decreases i - j,
        {
            if right_join_indices[j] == right_join_indices[i] {
                proof {
                    assert(right_join_indices@[j as int] == right_join_indices@[i as int]);
                }
                return false;
            }
            j = j + 1;
        }
        i = i + 1;
    }
    true
}

impl NegJoin {
    /// The strategy of a negation, by its right side and the join columns.
    pub open spec fn strategy(self) -> Seq<char> {
        let prefix = is_prefix(self.joiner.right_places(self.right.frame()));
        match self.right {
            NegRight::TempStore(_) => if prefix {
                "mem_neg_prefix_join"@
            } else {
                "mem_neg_mat_join"@
            },
            NegRight::Spans(_) => "stored_neg_mat_join"@,
            NegRight::Delta(_) => "stored_neg_mat_join"@,
            _ => if prefix {
                "stored_neg_prefix_join"@
            } else {
                "stored_neg_mat_join"@
            },
        }
    }

    /// How this negation is carried out.
    pub fn join_type(&self) -> (r: Result<&'static str, QueryError>)
        ensures
            match r {
                Ok(s) => self.joiner.fault(self.left.out_frame(), self.right.frame()) is None && s@
                    == self.strategy(),
                Err(e) => self.joiner.fault(self.left.out_frame(), self.right.frame()) is Some && e
                    == QueryError::Plan(
                    self.joiner.fault(self.left.out_frame(), self.right.frame())->Some_0,
                ),
            },
    {
        let left = self.left.bindings_after_eliminate();
        let (_, right) = self.joiner.join_indices(&left, self.right.bindings())?;
        let prefix = join_is_prefix(&right);
        Ok(
            match &self.right {
                NegRight::TempStore(_) => if prefix {
                    "mem_neg_prefix_join"
                } else {
                    "mem_neg_mat_join"
                },
                NegRight::Spans(_) => "stored_neg_mat_join",
                NegRight::Delta(_) => "stored_neg_mat_join",
                _ => if prefix {
                    "stored_neg_prefix_join"
                } else {
                    "stored_neg_mat_join"
                },
            },
        )
    }
}

impl InnerJoin {
    pub open spec fn columns(self) -> Seq<Name> {
        self.left.out_frame() + self.right.out_frame()
    }

    /// The columns of the join: those of the left, then those of the right.
    pub fn bindings(&self) -> (r: Vec<String>)
        ensures
            names(r@) == self.columns(),
    {
        let left = self.left.bindings_after_eliminate();
        let right = self.right.bindings_after_eliminate();
        join_names(left, &right)
    }

    pub open spec fn fault(self) -> Option<PlanInvariant> {
        self.joiner.fault(self.left.out_frame(), self.right.out_frame())
    }

    /// The strategy of a join, by its right side and the join columns.
    pub open spec fn strategy(self) -> Result<Seq<char>, QueryError> {
        let prefix = is_prefix(self.joiner.right_places(self.right.out_frame()));
        match self.right {
            RelAlgebra::Fixed(f) => Ok(f.strategy()),
            RelAlgebra::TempStore(_) => match self.fault() {
                Some(e) => Err(QueryError::Plan(e)),
                None => Ok(
                    if prefix {
                        "mem_prefix_join"@
                    } else {
                        "mem_mat_join"@
                    },
                ),
            },
            RelAlgebra::Stored(_) | RelAlgebra::StoredWithValidity(_) => match self.fault() {
                Some(e) => Err(QueryError::Plan(e)),
                None => Ok(
                    if prefix {
                        "stored_prefix_join"@
                    } else {
                        "stored_mat_join"@
                    },
                ),
            },
            RelAlgebra::Reorder(_) | RelAlgebra::NegJoin(_) => Err(
                QueryError::Plan(PlanInvariant::RefusedRight),
            ),
            _ => Ok("generic_mat_join"@),
        }
    }

    fn right_is_prefix(&self) -> (r: Result<bool, QueryError>)
        ensures
            match r {
                Ok(b) => self.fault() is None && b == is_prefix(
                    self.joiner.right_places(self.right.out_frame()),
                ),
                Err(e) => self.fault() is Some && e == QueryError::Plan(self.fault()->Some_0),
            },
    {
        let left = self.left.bindings_after_eliminate();
        let right = self.right.bindings_after_eliminate();
        let (_, places) = self.joiner.join_indices(&left, &right)?;
        Ok(join_is_prefix(&places))
    }

    /// How this join is carried out.
    pub fn join_type(&self) -> (r: Result<&'static str, QueryError>)
        ensures
            match r {
                Ok(s) => self.strategy() == Ok::<Seq<char>, QueryError>(s@),
                Err(e) => self.strategy() == Err::<Seq<char>, QueryError>(e),
            },
    {
        match &self.right {
            RelAlgebra::Fixed(f) => Ok(f.join_type()),
            RelAlgebra::TempStore(_) => {
                let prefix = self.right_is_prefix()?;
                Ok(
                    if prefix {
                        "mem_prefix_join"
                    } else {
                        "mem_mat_join"
                    },
                )
            },
            RelAlgebra::Stored(_) | RelAlgebra::StoredWithValidity(_) => {
                let prefix = self.right_is_prefix()?;
                Ok(
                    if prefix {
                        "stored_prefix_join"
                    } else {
                        "stored_mat_join"
                    },
                )
            },
            RelAlgebra::Reorder(_) | RelAlgebra::NegJoin(_) => Err(
                QueryError::Plan(PlanInvariant::RefusedRight),
            ),
            _ => Ok("generic_mat_join"),
        }
    }
}

} // verus!
