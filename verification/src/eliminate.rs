//! Shedding columns: every operator is told which of its columns nothing
//! above it uses.

use vstd::prelude::*;
use crate::expr::{EvalFault, Expr};
use crate::names::{add_name, add_names, copy_names, has_name, name_set, names, Name};
use crate::plan::{FilteredRA, InlineFixedRA, InnerJoin, NegJoin, RelAlgebra, UnificationRA};
use crate::resolve::{gap, gap_all, mention_any, mentions};
use crate::stream::{QueryError, QueryFault};

verus! {

/// The names an expression mentions.
pub open spec fn mentioned(e: Expr) -> Set<Name> {
    Set::new(|n: Name| mentions(e, n))
}

/// The names expressions mention.
pub open spec fn all_mentioned(es: Seq<Expr>) -> Set<Name> {
    Set::new(|n: Name| mention_any(es, n))
}

/// The names of a frame that are not used.
pub open spec fn unused(frame: Seq<Name>, used: Set<Name>) -> Set<Name> {
    Set::new(|n: Name| frame.contains(n) && !used.contains(n))
}

/// The filters of a scan of a rule that stands on the right of a join.
pub open spec fn store_filters(right: RelAlgebra) -> Seq<Expr> {
    match right {
        RelAlgebra::TempStore(r) => r.filters@,
        _ => Seq::empty(),
    }
}

/// What becomes of a plan whose columns are used as given: each operator sheds
/// the columns that nothing above it uses.
pub open spec fn trimmed(p: RelAlgebra, used: Set<Name>, q: RelAlgebra) -> bool
    decreases p,
{
    match p {
        RelAlgebra::Fixed(x) => {
            &&& q matches RelAlgebra::Fixed(y)
            &&& y.bindings == x.bindings
            &&& y.data == x.data
            &&& y.span == x.span
            &&& q.gone() == p.gone() + unused(p.frame(), used)
        },
        RelAlgebra::Join(x) => {
            &&& q matches RelAlgebra::Join(y)
            &&& y.joiner == x.joiner
            &&& y.span == x.span
            &&& q.gone() == p.gone() + unused(p.frame(), used)
            &&& trimmed(
                x.left,
                used + name_set(x.joiner.left_keys@) + all_mentioned(store_filters(x.right)),
                y.left,
            )
            &&& trimmed(x.right, used + name_set(x.joiner.right_keys@), y.right)
        },
        RelAlgebra::NegJoin(x) => {
            &&& q matches RelAlgebra::NegJoin(y)
            &&& y.right == x.right
            &&& y.joiner == x.joiner
            &&& y.span == x.span
            &&& q.gone() == p.gone() + unused(p.frame(), used)
            &&& trimmed(x.left, used + name_set(x.joiner.left_keys@), y.left)
        },
        RelAlgebra::Reorder(x) => {
            &&& q matches RelAlgebra::Reorder(y)
            &&& y.new_order == x.new_order
            &&& trimmed(*x.relation, used, *y.relation)
        },
        RelAlgebra::Filter(x) => {
            &&& q matches RelAlgebra::Filter(y)
            &&& y.filters == x.filters
            &&& y.span == x.span
            &&& q.gone() == p.gone() + unused(x.parent.frame(), used)
            &&& trimmed(*x.parent, used + all_mentioned(x.filters@), *y.parent)
        },
        RelAlgebra::Unification(x) => {
            &&& q matches RelAlgebra::Unification(y)
            &&& y.binding == x.binding
            &&& y.expr == x.expr
            &&& y.is_multi == x.is_multi
            &&& y.span == x.span
            &&& q.gone() == p.gone() + unused(x.parent.frame(), used)
            &&& trimmed(*x.parent, used + mentioned(x.expr), *y.parent)
        },
        RelAlgebra::Search(x) => {
            &&& q matches RelAlgebra::Search(y)
            &&& y.kind == x.kind
            &&& y.index == x.index
            &&& y.query == x.query
            &&& y.filter == x.filter
            &&& y.own_bindings == x.own_bindings
            &&& y.span == x.span
            &&& trimmed(*x.parent, used, *y.parent)
        },
        _ => q == p,
    }
}

/// A plan that differs from another at most in columns it sheds in addition.
pub open spec fn sheds_more(p: RelAlgebra, q: RelAlgebra) -> bool
    decreases p,
{
    &&& p.gone().subset_of(q.gone())
    &&& match p {
        RelAlgebra::Fixed(x) => {
            &&& q matches RelAlgebra::Fixed(y)
            &&& y.bindings == x.bindings
            &&& y.data == x.data
            &&& y.span == x.span
        },
        RelAlgebra::Join(x) => {
            &&& q matches RelAlgebra::Join(y)
            &&& y.joiner == x.joiner
            &&& y.span == x.span
            &&& sheds_more(x.left, y.left)
            &&& sheds_more(x.right, y.right)
        },
        RelAlgebra::NegJoin(x) => {
            &&& q matches RelAlgebra::NegJoin(y)
            &&& y.right == x.right
            &&& y.joiner == x.joiner
            &&& y.span == x.span
            &&& sheds_more(x.left, y.left)
        },
        RelAlgebra::Reorder(x) => {
            &&& q matches RelAlgebra::Reorder(y)
            &&& y.new_order == x.new_order
            &&& sheds_more(*x.relation, *y.relation)
        },
        RelAlgebra::Filter(x) => {
            &&& q matches RelAlgebra::Filter(y)
            &&& y.filters == x.filters
            &&& y.span == x.span
            &&& sheds_more(*x.parent, *y.parent)
        },
        RelAlgebra::Unification(x) => {
            &&& q matches RelAlgebra::Unification(y)
            &&& y.binding == x.binding
            &&& y.expr == x.expr
            &&& y.is_multi == x.is_multi
            &&& y.span == x.span
            &&& sheds_more(*x.parent, *y.parent)
        },
        RelAlgebra::Search(x) => {
            &&& q matches RelAlgebra::Search(y)
            &&& y.kind == x.kind
            &&& y.index == x.index
            &&& y.query == x.query
            &&& y.filter == x.filter
            &&& y.own_bindings == x.own_bindings
            &&& y.span == x.span
            &&& sheds_more(*x.parent, *y.parent)
        },
        _ => q == p,
    }
}

/// The first function without implementation among the expressions whose names
/// elimination asks for.
pub open spec fn trim_fault(p: RelAlgebra) -> Option<EvalFault>
    decreases p,
{
    match p {
        RelAlgebra::Join(x) => match gap_all(store_filters(x.right)) {
            Some(s) => Some(s),
            None => match trim_fault(x.left) {
                Some(s) => Some(s),
                None => trim_fault(x.right),
            },
        },
        RelAlgebra::NegJoin(x) => trim_fault(x.left),
        RelAlgebra::Reorder(x) => trim_fault(*x.relation),
        RelAlgebra::Filter(x) => match gap_all(x.filters@) {
            Some(s) => Some(s),
            None => trim_fault(*x.parent),
        },
        RelAlgebra::Unification(x) => match gap(x.expr) {
            Some(s) => Some(s),
            None => trim_fault(*x.parent),
        },
        RelAlgebra::Search(x) => trim_fault(*x.parent),
        _ => None,
    }
}

pub proof fn lemma_sheds_more_self(p: RelAlgebra)
    ensures
        sheds_more(p, p),
    decreases p,
{
    match p {
        RelAlgebra::Join(x) => {
            lemma_sheds_more_self(x.left);
            lemma_sheds_more_self(x.right);
        },
        RelAlgebra::NegJoin(x) => lemma_sheds_more_self(x.left),
        RelAlgebra::Reorder(x) => lemma_sheds_more_self(*x.relation),
        RelAlgebra::Filter(x) => lemma_sheds_more_self(*x.parent),
        RelAlgebra::Unification(x) => lemma_sheds_more_self(*x.parent),
        RelAlgebra::Search(x) => lemma_sheds_more_self(*x.parent),
        _ => {},
    }
}

/// Mark the names of a frame that are not used.
fn mark_unused(marks: &mut Vec<String>, frame: &Vec<String>, used: &Vec<String>)
    ensures
        name_set(final(marks)@) == name_set(old(marks)@) + unused(
            names(frame@),
            name_set(used@),
        ),
{
    let ghost before = name_set(marks@);
    let ghost all = names(frame@);
    let mut i: usize = 0;
    proof {
        assert(before =~= before + unused(all.take(0), name_set(used@)));
    }
    while i < frame.len()
        invariant
            i <= frame@.len(),
            all == names(frame@),
            name_set(marks@) == before + unused(all.take(i as int), name_set(used@)),
        decreases frame.len() - i,
    {
        let ghost prev = name_set(marks@);
        if !has_name(used, &frame[i]) {
            add_name(marks, &frame[i]);
        }
        proof {
            let n = all[i as int];
            let less = all.take(i as int);
            let more = all.take(i + 1);
            assert(more =~= less.push(n));
            assert forall|m: Name| more.contains(m) == (m == n || less.contains(m)) by {
                if less.contains(m) {
                    assert(more[less.index_of(m)] == m);
                }
                if m == n {
                    assert(more[i as int] == m);
                }
                if more.contains(m) && m != n {
                    assert(less[more.index_of(m)] == m);
                }
            }
            assert(name_set(marks@) =~= before + unused(more, name_set(used@)));
        }
        i = i + 1;
    }
    proof {
        assert(all.take(i as int) =~= all);
    }
}

proof fn lemma_mentions_push(es: Seq<Expr>, k: int)
    requires
        0 <= k < es.len(),
    ensures
        all_mentioned(es.take(k + 1)) == all_mentioned(es.take(k)) + mentioned(es[k]),
        gap_all(es.take(k + 1)) == (match gap_all(es.take(k)) {
            Some(s) => Some(s),
            None => gap(es[k]),
        }),
{
    assert(es.take(k + 1).drop_last() =~= es.take(k));
    assert(es.take(k + 1).last() == es[k]);
    assert(all_mentioned(es.take(k + 1)) =~= all_mentioned(es.take(k)) + mentioned(es[k]));
}

proof fn lemma_gap_stays(es: Seq<Expr>, k: int, n: int)
    requires
        0 <= k <= n <= es.len(),
        gap_all(es.take(k)) is Some,
    ensures
        gap_all(es.take(n)) == gap_all(es.take(k)),
    decreases n - k,
{
    if k < n {
        lemma_mentions_push(es, k);
        lemma_gap_stays(es, k + 1, n);
    }
}

/// Add the names of expressions to a set of names.
fn add_mentioned(set: &mut Vec<String>, es: &Vec<Expr>) -> (r: Result<(), QueryError>)
    ensures
        match r {
            Ok(_) => gap_all(es@) is None && name_set(final(set)@) == name_set(old(set)@)
                + all_mentioned(es@),
            Err(e) => gap_all(es@) is Some && e.deep_view()
                == QueryFault::Eval(gap_all(es@)->Some_0),
        },
{
    let ghost before = name_set(set@);
    let mut i: usize = 0;
    proof {
        assert(es@.take(0) =~= Seq::<Expr>::empty());
        assert(before =~= before + all_mentioned(es@.take(0)));
    }
    while i < es.len()
        invariant
            i <= es@.len(),
            gap_all(es@.take(i as int)) is None,
            name_set(set@) == before + all_mentioned(es@.take(i as int)),
        decreases es.len() - i,
    {
        proof {
            lemma_mentions_push(es@, i as int);
        }
        match es[i].bindings() {
            Ok(v) => {
                add_names(set, &v);
                proof {
                    assert(name_set(v@) =~= mentioned(es@[i as int]));
                    assert(name_set(set@) =~= before + all_mentioned(es@.take(i + 1)));
                }
            },
            Err(e) => {
                proof {
                    lemma_gap_stays(es@, i + 1, es@.len() as int);
                    assert(es@.take(es@.len() as int) =~= es@);
                }
                return Err(QueryError::Eval(e));
            },
        }
        i = i + 1;
    }
    proof {
        assert(es@.take(i as int) =~= es@);
    }
    Ok(())
}

impl RelAlgebra {
    /// Tell every operator which of its columns are not used above it. An
    /// expression with a function that has no implementation is an error.
    pub fn eliminate_temp_vars(&mut self, used: &Vec<String>) -> (r: Result<(), QueryError>)
        ensures
            sheds_more(*old(self), *final(self)),
            match r {
                Ok(_) => trim_fault(*old(self)) is None && trimmed(
                    *old(self),
                    name_set(used@),
                    *final(self),
                ),
                Err(e) => trim_fault(*old(self)) is Some && e.deep_view()
                    == QueryFault::Eval(trim_fault(*old(self))->Some_0),
            },
        decreases *old(self), 1nat,
    {
        proof {
            lemma_sheds_more_self(*self);
        }
        match self {
            RelAlgebra::Fixed(x) => {
                x.do_eliminate_temp_vars(used);
                Ok(())
            },
            RelAlgebra::Join(x) => x.do_eliminate_temp_vars(used),
            RelAlgebra::Reorder(x) => x.relation.eliminate_temp_vars(used),
            RelAlgebra::Filter(x) => x.do_eliminate_temp_vars(used),
            RelAlgebra::NegJoin(x) => x.do_eliminate_temp_vars(used),
            RelAlgebra::Unification(x) => x.do_eliminate_temp_vars(used),
            RelAlgebra::Search(x) => x.parent.eliminate_temp_vars(used),
            _ => Ok(()),
        }
    }
}

impl InlineFixedRA {
    fn do_eliminate_temp_vars(&mut self, used: &Vec<String>)
        ensures
            trimmed(RelAlgebra::Fixed(*old(self)), name_set(used@), RelAlgebra::Fixed(*final(self))),
            sheds_more(RelAlgebra::Fixed(*old(self)), RelAlgebra::Fixed(*final(self))),
    {
        mark_unused(&mut self.to_eliminate, &self.bindings, used);
    }
}

impl FilteredRA {
    fn do_eliminate_temp_vars(&mut self, used: &Vec<String>) -> (r: Result<(), QueryError>)
        ensures
            sheds_more(RelAlgebra::Filter(*old(self)), RelAlgebra::Filter(*final(self))),
            match r {
                Ok(_) => trim_fault(RelAlgebra::Filter(*old(self))) is None && trimmed(
                    RelAlgebra::Filter(*old(self)),
                    name_set(used@),
                    RelAlgebra::Filter(*final(self)),
                ),
                Err(e) => trim_fault(RelAlgebra::Filter(*old(self))) is Some && e.deep_view()
                    == QueryFault::Eval(trim_fault(RelAlgebra::Filter(*old(self)))->Some_0),
            },
        decreases *old(self), 0nat,
    {
        proof {
            lemma_sheds_more_self(*self.parent);
        }
        let frame = self.parent.bindings_before_eliminate();
        mark_unused(&mut self.to_eliminate, &frame, used);
        let mut next = copy_names(used);
        match add_mentioned(&mut next, &self.filters) {
            Ok(_) => {},
            Err(e) => {
                return Err(e);
            },
        }
        self.parent.eliminate_temp_vars(&next)
    }
}

impl UnificationRA {
    fn do_eliminate_temp_vars(&mut self, used: &Vec<String>) -> (r: Result<(), QueryError>)
        ensures
            sheds_more(RelAlgebra::Unification(*old(self)), RelAlgebra::Unification(*final(self))),
            match r {
                Ok(_) => trim_fault(RelAlgebra::Unification(*old(self))) is None && trimmed(
                    RelAlgebra::Unification(*old(self)),
                    name_set(used@),
                    RelAlgebra::Unification(*final(self)),
                ),
                Err(e) => trim_fault(RelAlgebra::Unification(*old(self))) is Some && e.deep_view()
                    == QueryFault::Eval(trim_fault(RelAlgebra::Unification(*old(self)))->Some_0),
            },
        decreases *old(self), 0nat,
    {
        proof {
            lemma_sheds_more_self(*self.parent);
        }
        let frame = self.parent.bindings_before_eliminate();
        mark_unused(&mut self.to_eliminate, &frame, used);
        let mut next = copy_names(used);
        match self.expr.bindings() {
            Ok(v) => {
                add_names(&mut next, &v);
                proof {
                    assert(name_set(v@) =~= mentioned(self.expr));
                }
            },
            Err(e) => {
                return Err(QueryError::Eval(e));
            },
        }
        self.parent.eliminate_temp_vars(&next)
    }
}

impl NegJoin {
    fn do_eliminate_temp_vars(&mut self, used: &Vec<String>) -> (r: Result<(), QueryError>)
        ensures
            sheds_more(
                RelAlgebra::NegJoin(Box::new(*old(self))),
                RelAlgebra::NegJoin(Box::new(*final(self))),
            ),
            match r {
                Ok(_) => trim_fault(RelAlgebra::NegJoin(Box::new(*old(self)))) is None && trimmed(
                    RelAlgebra::NegJoin(Box::new(*old(self))),
                    name_set(used@),
                    RelAlgebra::NegJoin(Box::new(*final(self))),
                ),
                Err(e) => trim_fault(RelAlgebra::NegJoin(Box::new(*old(self)))) is Some && e.deep_view()
                    == QueryFault::Eval(trim_fault(RelAlgebra::NegJoin(Box::new(*old(self))))->Some_0),
            },
        decreases *old(self), 0nat,
    {
        let frame = self.left.bindings_after_eliminate();
        mark_unused(&mut self.to_eliminate, &frame, used);
        let mut left = copy_names(used);
        add_names(&mut left, &self.joiner.left_keys);
        self.left.eliminate_temp_vars(&left)
    }
}

impl InnerJoin {
    fn do_eliminate_temp_vars(&mut self, used: &Vec<String>) -> (r: Result<(), QueryError>)
        ensures
            sheds_more(
                RelAlgebra::Join(Box::new(*old(self))),
                RelAlgebra::Join(Box::new(*final(self))),
            ),
            match r {
                Ok(_) => trim_fault(RelAlgebra::Join(Box::new(*old(self)))) is None && trimmed(
                    RelAlgebra::Join(Box::new(*old(self))),
                    name_set(used@),
                    RelAlgebra::Join(Box::new(*final(self))),
                ),
                Err(e) => trim_fault(RelAlgebra::Join(Box::new(*old(self)))) is Some && e.deep_view()
                    == QueryFault::Eval(trim_fault(RelAlgebra::Join(Box::new(*old(self))))->Some_0),
            },
        decreases *old(self), 0nat,
    {
        proof {
            lemma_sheds_more_self(self.left);
            lemma_sheds_more_self(self.right);
        }
        let frame = self.bindings();
        mark_unused(&mut self.to_eliminate, &frame, used);
        let mut left = copy_names(used);
        add_names(&mut left, &self.joiner.left_keys);
        match &self.right {
            RelAlgebra::TempStore(r) => match add_mentioned(&mut left, &r.filters) {
                Ok(_) => {},
                Err(e) => {
                    return Err(e);
                },
            },
            _ => {
                proof {
                    assert(name_set(left@) =~= name_set(left@) + all_mentioned(
                        store_filters(self.right),
                    ));
                }
            },
        }
        match self.left.eliminate_temp_vars(&left) {
            Ok(_) => {},
            Err(e) => {
                return Err(e);
            },
        }
        let mut right = copy_names(used);
        add_names(&mut right, &self.joiner.right_keys);
        self.right.eliminate_temp_vars(&right)
    }
}

} // verus!
