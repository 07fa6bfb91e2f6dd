//! Pushing a filter down a plan: each conjunct goes as deep as its names
//! allow.

use vstd::prelude::*;
use crate::expr::{EvalFault, Expr};
use crate::answer::{answer, each, holds, joined_set, just, lemma_answer_width, true_on};
use crate::bounds::lemma_and_true;
use crate::meaning::{keys_match, Env};
use crate::names::{
    gone_at, last_place, lemma_last_place, lemma_place_unique, lemma_without_nothing, name_set,
    names, names_within, without, Name,
};
use crate::plan::{FilteredRA, InnerJoin, RelAlgebra, StoredRA, StoredWithValidityRA, TempStoreRA};
use crate::resolve::{
    by_name, conjuncts, eval_named, gap, gap_all, lemma_eval_agree, mentions, Look,
};
use crate::stream::{QueryError, QueryFault};
use crate::value::Row;

verus! {

/// The names of an expression are all in a frame.
pub open spec fn covered(e: Expr, frame: Seq<Name>) -> bool {
    forall|n: Name| #[trigger] mentions(e, n) ==> frame.contains(n)
}

/// The conjuncts that go to the left of a join.
pub open spec fn to_left(fs: Seq<Expr>, lf: Seq<Name>) -> Seq<Expr> {
    fs.filter(|e: Expr| covered(e, lf))
}

/// The conjuncts that go to the right of a join.
pub open spec fn to_right(fs: Seq<Expr>, lf: Seq<Name>, rf: Seq<Name>) -> Seq<Expr> {
    fs.filter(|e: Expr| !covered(e, lf) && covered(e, rf))
}

/// The conjuncts that stay above a join: they span both sides.
pub open spec fn spanning(fs: Seq<Expr>, lf: Seq<Name>, rf: Seq<Name>) -> Seq<Expr> {
    fs.filter(|e: Expr| !covered(e, lf) && !covered(e, rf))
}

/// How many joins a filter can sink through.
pub open spec fn join_height(p: RelAlgebra) -> nat
    decreases p,
{
    match p {
        RelAlgebra::Join(j) => {
            let l = join_height(j.left);
            let r = join_height(j.right);
            1 + if l <= r {
                r
            } else {
                l
            }
        },
        _ => 0,
    }
}

/// A plan with filters put on top of another.
pub open spec fn capped(p: RelAlgebra, fs: Seq<Expr>, span: crate::expr::SourceSpan, r: RelAlgebra) -> bool {
    &&& r matches RelAlgebra::Filter(x)
    &&& *x.parent == p
    &&& x.filters@ == fs
    &&& x.to_eliminate@.len() == 0
    &&& x.span == span
}

/// What becomes of a plan when one filter is put on it.
pub open spec fn pushed(p: RelAlgebra, f: Expr, r: RelAlgebra) -> bool
    decreases join_height(p), 0nat,
{
    match p {
        RelAlgebra::Filter(x) => {
            &&& r matches RelAlgebra::Filter(y)
            &&& y.parent == x.parent
            &&& y.filters@ == x.filters@.push(f)
            &&& y.to_eliminate == x.to_eliminate
            &&& y.span == x.span
        },
        RelAlgebra::TempStore(x) => {
            &&& r matches RelAlgebra::TempStore(y)
            &&& y.bindings == x.bindings
            &&& y.storage_key == x.storage_key
            &&& y.occurrence == x.occurrence
            &&& y.filters@ == x.filters@.push(f)
            &&& y.span == x.span
        },
        RelAlgebra::Stored(x) => {
            &&& r matches RelAlgebra::Stored(y)
            &&& y.bindings == x.bindings
            &&& y.storage == x.storage
            &&& y.filters@ == x.filters@.push(f)
            &&& y.span == x.span
        },
        RelAlgebra::StoredWithValidity(x) => {
            &&& r matches RelAlgebra::StoredWithValidity(y)
            &&& y.bindings == x.bindings
            &&& y.storage == x.storage
            &&& y.filters@ == x.filters@.push(f)
            &&& y.as_of == x.as_of
            &&& y.span == x.span
        },
        RelAlgebra::Join(j) => {
            let fs = conjuncts(f);
            let lf = j.left.frame();
            let rf = j.right.frame();
            let rest = spanning(fs, lf, rf);
            let core = if rest.len() == 0 {
                r
            } else {
                *r->Filter_0.parent
            };
            &&& rest.len() > 0 ==> capped(core, rest, j.span, r)
            &&& core is Join
            &&& pushed_all(j.left, to_left(fs, lf), core->Join_0.left)
            &&& pushed_all(j.right, to_right(fs, lf, rf), core->Join_0.right)
            &&& core->Join_0.joiner == j.joiner
            &&& core->Join_0.to_eliminate == j.to_eliminate
            &&& core->Join_0.span == j.span
        },
        _ => capped(p, seq![f], f.at(), r),
    }
}

/// What becomes of a plan when filters are put on it, one after the other.
pub open spec fn pushed_all(p: RelAlgebra, fs: Seq<Expr>, r: RelAlgebra) -> bool
    decreases join_height(p), fs.len(),
{
    if fs.len() == 0 {
        r == p
    } else {
        exists|mid: RelAlgebra|
            #[trigger] join_height(mid) <= join_height(p) && pushed_all(p, fs.drop_last(), mid)
                && pushed(mid, fs.last(), r)
    }
}

proof fn lemma_pushed_height(p: RelAlgebra, f: Expr, r: RelAlgebra)
    requires
        pushed(p, f, r),
    ensures
        join_height(r) <= join_height(p),
    decreases join_height(p), 0nat,
{
    match p {
        RelAlgebra::Join(j) => {
            let fs = conjuncts(f);
            let lf = j.left.frame();
            let rf = j.right.frame();
            let rest = spanning(fs, lf, rf);
            if rest.len() == 0 {
                let q = r->Join_0;
                lemma_pushed_all_height(j.left, to_left(fs, lf), q.left);
                lemma_pushed_all_height(j.right, to_right(fs, lf, rf), q.right);
            }
        },
        _ => {},
    }
}

proof fn lemma_pushed_all_height(p: RelAlgebra, fs: Seq<Expr>, r: RelAlgebra)
    requires
        pushed_all(p, fs, r),
    ensures
        join_height(r) <= join_height(p),
    decreases join_height(p), fs.len(),
{
    if fs.len() > 0 {
        let mid = lemma_pushed_last(p, fs, r);
        lemma_pushed_height(mid, fs.last(), r);
    }
}

/// The plan before the last of several filters is put on it.
proof fn lemma_pushed_last(p: RelAlgebra, fs: Seq<Expr>, r: RelAlgebra) -> (mid: RelAlgebra)
    requires
        pushed_all(p, fs, r),
        fs.len() > 0,
    ensures
        join_height(mid) <= join_height(p),
        pushed_all(p, fs.drop_last(), mid),
        pushed(mid, fs.last(), r),
{
    choose|mid: RelAlgebra|
        #[trigger] join_height(mid) <= join_height(p) && pushed_all(p, fs.drop_last(), mid)
            && pushed(mid, fs.last(), r)
}

proof fn lemma_pushed_step(p: RelAlgebra, fs: Seq<Expr>, mid: RelAlgebra, f: Expr, r: RelAlgebra)
    requires
        pushed_all(p, fs, mid),
        pushed(mid, f, r),
    ensures
        pushed_all(p, fs.push(f), r),
{
    lemma_pushed_all_height(p, fs, mid);
    assert(fs.push(f).drop_last() =~= fs);
}

proof fn lemma_gap_first(args: Seq<Expr>, k: int, n: int)
    requires
        0 <= k <= n <= args.len(),
        gap_all(args.take(k)) is Some,
    ensures
        gap_all(args.take(n)) == gap_all(args.take(k)),
    decreases n - k,
{
    if k < n {
        assert(args.take(k + 1).drop_last() =~= args.take(k));
        lemma_gap_first(args, k + 1, n);
    }
}

proof fn lemma_gap_conjuncts(f: Expr)
    ensures
        gap_all(conjuncts(f)) == gap(f),
{
    match f {
        Expr::Lazy { op: crate::expr::LazyOp::And, args, .. } => {},
        _ => {
            reveal_with_fuel(gap_all, 2);
            assert(gap_all(seq![f]) == gap(seq![f].last()));
        },
    }
}

proof fn lemma_split_step(fs: Seq<Expr>, k: int, lf: Seq<Name>, rf: Seq<Name>)
    requires
        0 <= k < fs.len(),
    ensures
        to_left(fs.take(k + 1), lf) == if covered(fs[k], lf) {
            to_left(fs.take(k), lf).push(fs[k])
        } else {
            to_left(fs.take(k), lf)
        },
        to_right(fs.take(k + 1), lf, rf) == if !covered(fs[k], lf) && covered(fs[k], rf) {
            to_right(fs.take(k), lf, rf).push(fs[k])
        } else {
            to_right(fs.take(k), lf, rf)
        },
        spanning(fs.take(k + 1), lf, rf) == if !covered(fs[k], lf) && !covered(fs[k], rf) {
            spanning(fs.take(k), lf, rf).push(fs[k])
        } else {
            spanning(fs.take(k), lf, rf)
        },
{
    reveal(Seq::filter);
    assert(fs.take(k + 1).drop_last() =~= fs.take(k));
    assert(fs.take(k + 1).last() == fs[k]);
}

impl RelAlgebra {
    /// Put a filter on the plan. A scan and a filter take it in; a join
    /// spreads its conjuncts over its sides and keeps above it those that span
    /// both; everything else gets a filter above it. On a join an expression
    /// with a function that has no implementation is an error.
    pub fn filter(self, filter: Expr) -> (r: Result<Self, QueryError>)
        ensures
            match r {
                Ok(p) => (self is Join ==> gap(filter) is None) && pushed(self, filter, p),
                Err(e) => self is Join && gap(filter) is Some && e.deep_view()
                    == QueryFault::Eval(gap(filter)->Some_0),
            },
        decreases join_height(self), 1nat,
    {
        match self {
            RelAlgebra::Filter(x) => {
                let mut filters = x.filters;
                filters.push(filter);
                Ok(
                    RelAlgebra::Filter(
                        FilteredRA {
                            parent: x.parent,
                            filters,
                            to_eliminate: x.to_eliminate,
                            span: x.span,
                        },
                    ),
                )
            },
            RelAlgebra::TempStore(x) => {
                let mut filters = x.filters;
                filters.push(filter);
                Ok(
                    RelAlgebra::TempStore(
                        TempStoreRA {
                            bindings: x.bindings,
                            storage_key: x.storage_key,
                            occurrence: x.occurrence,
                            filters,
                            span: x.span,
                        },
                    ),
                )
            },
            RelAlgebra::Stored(x) => {
                let mut filters = x.filters;
                filters.push(filter);
                Ok(
                    RelAlgebra::Stored(
                        StoredRA {
                            bindings: x.bindings,
                            storage: x.storage,
                            filters,
                            span: x.span,
                        },
                    ),
                )
            },
            RelAlgebra::StoredWithValidity(x) => {
                let mut filters = x.filters;
                filters.push(filter);
                Ok(
                    RelAlgebra::StoredWithValidity(
                        StoredWithValidityRA {
                            bindings: x.bindings,
                            storage: x.storage,
                            filters,
                            as_of: x.as_of,
                            span: x.span,
                        },
                    ),
                )
            },
            RelAlgebra::Join(j) => (*j).filter(filter),
            other => {
                let span = filter.span();
                let mut filters: Vec<Expr> = Vec::new();
                filters.push(filter);
                proof {
                    assert(filters@ =~= seq![filter]);
                }
                Ok(
                    RelAlgebra::Filter(
                        FilteredRA {
                            parent: Box::new(other),
                            filters,
                            to_eliminate: Vec::new(),
                            span,
                        },
                    ),
                )
            },
        }
    }
}

impl InnerJoin {
    /// Spread the conjuncts of a filter over the sides of the join.
    fn filter(self, filter: Expr) -> (r: Result<RelAlgebra, QueryError>)
        ensures
            match r {
                Ok(p) => gap(filter) is None && pushed(
                    RelAlgebra::Join(Box::new(self)),
                    filter,
                    p,
                ),
                Err(e) => gap(filter) is Some && e.deep_view()
                    == QueryFault::Eval(gap(filter)->Some_0),
            },
        decreases join_height(RelAlgebra::Join(Box::new(self))), 0nat,
    {
        let ghost this = RelAlgebra::Join(Box::new(self));
        let left_names = self.left.bindings_before_eliminate();
        let right_names = self.right.bindings_before_eliminate();
        let ghost lf = self.left.frame();
        let ghost rf = self.right.frame();
        let ghost l0 = self.left;
        let ghost r0 = self.right;
        proof {
            lemma_gap_conjuncts(filter);
        }
        let mut conj = filter.to_conjunction();
        let ghost fs = conj@;
        let InnerJoin { left, right, joiner, to_eliminate, span } = self;
        let mut left = left;
        let mut right = right;
        let mut rest: Vec<Expr> = Vec::new();
        let ghost mut k: int = 0;
        proof {
            reveal(Seq::filter);
            assert(fs.take(0) =~= Seq::<Expr>::empty());
            assert(fs.skip(0) =~= fs);
        }
        while conj.len() > 0
            invariant
                0 <= k <= fs.len(),
                conj@ == fs.skip(k),
                gap_all(fs.take(k)) is None,
                gap_all(fs) == gap(filter),
                names(left_names@) == lf,
                names(right_names@) == rf,
                pushed_all(l0, to_left(fs.take(k), lf), left),
                pushed_all(r0, to_right(fs.take(k), lf, rf), right),
                rest@ == spanning(fs.take(k), lf, rf),
                join_height(left) <= join_height(l0),
                join_height(right) <= join_height(r0),
                this == RelAlgebra::Join(Box::new(self)),
                l0 == this->Join_0.left,
                r0 == this->Join_0.right,
            decreases conj@.len(),
        {
            let f = conj.remove(0);
            proof {
                assert(f == fs[k]);
                assert(conj@ =~= fs.skip(k + 1));
                assert(fs.take(k + 1).drop_last() =~= fs.take(k));
                assert(gap_all(fs.take(k + 1)) == gap(f));
                lemma_split_step(fs, k, lf, rf);
                if gap(f) is Some {
                    lemma_gap_first(fs, k + 1, fs.len() as int);
                    assert(fs.take(fs.len() as int) =~= fs);
                }
            }
            let used = match f.bindings() {
                Ok(v) => v,
                Err(e) => {
                    return Err(QueryError::Eval(e));
                },
            };
            proof {
                assert(name_set(used@).subset_of(name_set(left_names@)) == covered(f, lf)) by {
                    lemma_covered(f, used@, left_names@);
                }
                assert(name_set(used@).subset_of(name_set(right_names@)) == covered(f, rf)) by {
                    lemma_covered(f, used@, right_names@);
                }
            }
            if names_within(&used, &left_names) {
                let ghost before = left;
                left = match left.filter(f) {
                    Ok(p) => p,
                    Err(e) => {
                        return Err(e);
                    },
                };
                proof {
                    lemma_pushed_step(l0, to_left(fs.take(k), lf), before, f, left);
                    lemma_pushed_height(before, f, left);
                }
            } else if names_within(&used, &right_names) {
                let ghost before = right;
                right = match right.filter(f) {
                    Ok(p) => p,
                    Err(e) => {
                        return Err(e);
                    },
                };
                proof {
                    lemma_pushed_step(r0, to_right(fs.take(k), lf, rf), before, f, right);
                    lemma_pushed_height(before, f, right);
                }
            } else {
                rest.push(f);
            }
            proof {
                k = k + 1;
            }
        }
        proof {
            assert(fs.take(k) =~= fs);
        }
        let joined = RelAlgebra::Join(
            Box::new(InnerJoin { left, right, joiner, to_eliminate, span }),
        );
        if rest.len() > 0 {
            Ok(
                RelAlgebra::Filter(
                    FilteredRA {
                        parent: Box::new(joined),
                        filters: rest,
                        to_eliminate: Vec::new(),
                        span,
                    },
                ),
            )
        } else {
            Ok(joined)
        }
    }
}

proof fn lemma_covered(f: Expr, used: Seq<String>, frame: Seq<String>)
    requires
        forall|n: Name| #[trigger] names(used).contains(n) == mentions(f, n),
    ensures
        name_set(used).subset_of(name_set(frame)) == covered(f, names(frame)),
{
    if covered(f, names(frame)) {
        assert forall|n: Name| name_set(used).contains(n) implies name_set(frame).contains(n) by {
            assert(mentions(f, n));
        }
    }
    if name_set(used).subset_of(name_set(frame)) {
        assert forall|n: Name| #[trigger] mentions(f, n) implies names(frame).contains(n) by {
            assert(names(used).contains(n));
            assert(name_set(used).contains(n));
        }
    }
}

/// A plan a filter can sink into: nothing is shed on the way down, and every
/// join on it names each column once.
pub open spec fn sinks(p: RelAlgebra) -> bool
    decreases p,
{
    match p {
        RelAlgebra::Filter(x) => p.gone() == Set::<Name>::empty(),
        RelAlgebra::Join(j) => {
            &&& p.gone() == Set::<Name>::empty()
            &&& j.left.gone() == Set::<Name>::empty()
            &&& j.right.gone() == Set::<Name>::empty()
            &&& sinks(j.left)
            &&& sinks(j.right)
            &&& !(j.right is Reorder)
            &&& !(j.right is NegJoin)
            &&& (j.left.frame() + j.right.frame()).no_duplicates()
        },
        _ => true,
    }
}

proof fn lemma_whole_frame(p: RelAlgebra)
    requires
        p.gone() == Set::<Name>::empty(),
    ensures
        p.out_frame() == p.frame(),
{
    lemma_without_nothing(p.frame(), gone_at(p.frame(), p.gone()));
}

/// A left expression sees the same values on a joined row.
proof fn lemma_left_view(e: Expr, lf: Seq<Name>, rf: Seq<Name>, l: Row, r: Row)
    requires
        covered(e, lf),
        (lf + rf).no_duplicates(),
        l.len() == lf.len(),
    ensures
        eval_named(e, lf + rf, l + r) == eval_named(e, lf, l),
{
    let f: Look = by_name(lf + rf, l + r);
    let g: Look = by_name(lf, l);
    assert forall|n: Name, s: crate::expr::SourceSpan| mentions(e, n) implies #[trigger] f(n, s)
        == g(n, s) by {
        assert(lf.contains(n));
        lemma_last_place(lf, n);
        let p = last_place(lf, n)->Some_0;
        assert((lf + rf)[p] == n);
        lemma_place_unique(lf + rf, p);
    }
    lemma_eval_agree(e, f, g);
}

/// A right expression sees the same values on a joined row.
proof fn lemma_right_view(e: Expr, lf: Seq<Name>, rf: Seq<Name>, l: Row, r: Row)
    requires
        covered(e, rf),
        (lf + rf).no_duplicates(),
        l.len() == lf.len(),
        r.len() == rf.len(),
    ensures
        eval_named(e, lf + rf, l + r) == eval_named(e, rf, r),
{
    let f: Look = by_name(lf + rf, l + r);
    let g: Look = by_name(rf, r);
    assert forall|n: Name, s: crate::expr::SourceSpan| mentions(e, n) implies #[trigger] f(n, s)
        == g(n, s) by {
        assert(rf.contains(n));
        lemma_last_place(rf, n);
        let p = last_place(rf, n)->Some_0;
        assert((lf + rf)[lf.len() + p] == n);
        lemma_place_unique(lf + rf, lf.len() + p);
    }
    lemma_eval_agree(e, f, g);
}

/// An expression is true where all its conjuncts are.
proof fn lemma_conjuncts_true(f: Expr, frame: Seq<Name>, row: Row)
    ensures
        true_on(f, frame, row) == holds(conjuncts(f), frame, row),
{
    match f {
        Expr::Lazy { op: crate::expr::LazyOp::And, args, .. } => {
            let look = by_name(frame, row);
            lemma_and_true(args@, look);
            if holds(args@, frame, row) {
                assert forall|i: int| 0 <= i < args@.len() implies crate::resolve::eval_by(
                    #[trigger] args@[i],
                    look,
                ) == Ok::<crate::value::Val, EvalFault>(crate::value::Val::Bool(true)) by {
                    assert(true_on(args@[i], frame, row));
                }
            }
            if crate::bounds::all_true(args@, look) {
                assert forall|i: int| 0 <= i < args@.len() implies true_on(
                    #[trigger] args@[i],
                    frame,
                    row,
                ) by {
                    assert(crate::resolve::eval_by(args@[i], look) == Ok::<
                        crate::value::Val,
                        EvalFault,
                    >(crate::value::Val::Bool(true)));
                }
            }
        },
        _ => {
            assert(seq![f][0] == f);
        },
    }
}

/// The parts of a split hold together where the whole does.
proof fn lemma_parts_hold(
    fs: Seq<Expr>,
    lf: Seq<Name>,
    rf: Seq<Name>,
    frame: Seq<Name>,
    row: Row,
)
    ensures
        holds(fs, frame, row) == (holds(to_left(fs, lf), frame, row) && holds(
            to_right(fs, lf, rf),
            frame,
            row,
        ) && holds(spanning(fs, lf, rf), frame, row)),
    decreases fs.len(),
{
    if fs.len() == 0 {
        reveal(Seq::filter);
    } else {
        let k = fs.len() - 1;
        let rest = fs.drop_last();
        lemma_parts_hold(rest, lf, rf, frame, row);
        lemma_split_step(fs, k, lf, rf);
        assert(fs.take(k) =~= rest);
        assert(fs.take(k + 1) =~= fs);
        assert(fs =~= rest.push(fs[k]));
        lemma_holds_push(rest, fs[k], frame, row);
        lemma_holds_push(to_left(rest, lf), fs[k], frame, row);
        lemma_holds_push(to_right(rest, lf, rf), fs[k], frame, row);
        lemma_holds_push(spanning(rest, lf, rf), fs[k], frame, row);
    }
}

proof fn lemma_holds_push(fs: Seq<Expr>, f: Expr, frame: Seq<Name>, row: Row)
    ensures
        holds(fs.push(f), frame, row) == (holds(fs, frame, row) && true_on(f, frame, row)),
{
    let more = fs.push(f);
    if holds(more, frame, row) {
        assert forall|i: int| 0 <= i < fs.len() implies true_on(#[trigger] fs[i], frame, row) by {
            assert(true_on(more[i], frame, row));
        }
        assert(true_on(more[fs.len() as int], frame, row));
    }
    if holds(fs, frame, row) && true_on(f, frame, row) {
        assert forall|i: int| 0 <= i < more.len() implies true_on(
            #[trigger] more[i],
            frame,
            row,
        ) by {
            if i < fs.len() {
                assert(true_on(fs[i], frame, row));
            }
        }
    }
}

/// Filters with the names of one side hold on a row of that side where they
/// hold on the joined row.
proof fn lemma_sides_hold(
    ls: Seq<Expr>,
    rs: Seq<Expr>,
    lf: Seq<Name>,
    rf: Seq<Name>,
    l: Row,
    r: Row,
)
    requires
        forall|i: int| 0 <= i < ls.len() ==> covered(#[trigger] ls[i], lf),
        forall|i: int| 0 <= i < rs.len() ==> covered(#[trigger] rs[i], rf),
        (lf + rf).no_duplicates(),
        l.len() == lf.len(),
        r.len() == rf.len(),
    ensures
        holds(ls, lf + rf, l + r) == holds(ls, lf, l),
        holds(rs, lf + rf, l + r) == holds(rs, rf, r),
{
    assert forall|i: int| 0 <= i < ls.len() implies true_on(#[trigger] ls[i], lf + rf, l + r)
        == true_on(ls[i], lf, l) by {
        lemma_left_view(ls[i], lf, rf, l, r);
    }
    assert forall|i: int| 0 <= i < rs.len() implies true_on(#[trigger] rs[i], lf + rf, l + r)
        == true_on(rs[i], rf, r) by {
        lemma_right_view(rs[i], lf, rf, l, r);
    }
    if holds(ls, lf + rf, l + r) {
        assert forall|i: int| 0 <= i < ls.len() implies true_on(#[trigger] ls[i], lf, l) by {
            assert(true_on(ls[i], lf + rf, l + r));
        }
    }
    if holds(rs, lf + rf, l + r) {
        assert forall|i: int| 0 <= i < rs.len() implies true_on(#[trigger] rs[i], rf, r) by {
            assert(true_on(rs[i], lf + rf, l + r));
        }
    }
}

proof fn lemma_split_covered(fs: Seq<Expr>, lf: Seq<Name>, rf: Seq<Name>)
    ensures
        forall|i: int|
            0 <= i < to_left(fs, lf).len() ==> covered(#[trigger] to_left(fs, lf)[i], lf),
        forall|i: int|
            0 <= i < to_right(fs, lf, rf).len() ==> covered(
                #[trigger] to_right(fs, lf, rf)[i],
                rf,
            ),
    decreases fs.len(),
{
    if fs.len() == 0 {
        reveal(Seq::filter);
    } else {
        let k = fs.len() - 1;
        lemma_split_covered(fs.drop_last(), lf, rf);
        lemma_split_step(fs, k, lf, rf);
        assert(fs.take(k) =~= fs.drop_last());
        assert(fs.take(k + 1) =~= fs);
    }
}

/// The answer of a plan with filters put above it.
proof fn lemma_capped_answer(
    p: RelAlgebra,
    fs: Seq<Expr>,
    span: crate::expr::SourceSpan,
    r: RelAlgebra,
    env: Env,
    delta: Option<usize>,
)
    requires
        capped(p, fs, span, r),
        p.fits(env),
    ensures
        answer(r, env, delta) == answer(p, env, delta).filter(
            |row: Row| holds(fs, p.out_frame(), row),
        ),
        r.out_frame() == p.out_frame(),
        r.frame() == p.out_frame(),
        r.gone() == Set::<Name>::empty(),
        r.fits(env),
        sinks(r),
{
    let x = r->Filter_0;
    let frame = p.out_frame();
    assert(name_set(x.to_eliminate@) =~= Set::<Name>::empty()) by {
        assert(names(x.to_eliminate@) =~= Seq::<Name>::empty());
    }
    lemma_whole_frame(r);
    lemma_filter_answer(r, env, delta);
}

/// A filter that sheds nothing.
proof fn lemma_filter_answer(r: RelAlgebra, env: Env, delta: Option<usize>)
    requires
        r is Filter,
        r.gone() == Set::<Name>::empty(),
    ensures
        answer(r, env, delta) == answer(*r->Filter_0.parent, env, delta).filter(
            |row: Row| holds(r->Filter_0.filters@, r->Filter_0.parent.out_frame(), row),
        ),
{
    let x = r->Filter_0;
    let frame = x.parent.out_frame();
    let below = answer(*x.parent, env, delta);
    let want = below.filter(|row: Row| holds(x.filters@, frame, row));
    let g = |row: Row|
        just(
            holds(x.filters@, frame, row),
            crate::names::shed(row, frame, name_set(x.to_eliminate@)),
        );
    assert(answer(r, env, delta) == each(below, g));
    assert forall|row: Row| each(below, g).contains(row) == want.contains(row) by {
        assert forall|y: Row| #[trigger] crate::names::shed(
            y,
            frame,
            name_set(x.to_eliminate@),
        ) == y by {
            lemma_without_nothing(y, gone_at(frame, name_set(x.to_eliminate@)));
        }
        if each(below, g).contains(row) {
            let y = choose|y: Row| #[trigger] below.contains(y) && g(y).contains(row);
            assert(y == row);
        }
        if want.contains(row) {
            assert(below.contains(row) && g(row).contains(row));
        }
    }
    assert(each(below, g) =~= want);
}

/// The answer of a join whose sides are filtered.
proof fn lemma_join_filtered(
    la: Set<Row>,
    ra: Set<Row>,
    ls: Seq<Expr>,
    rs: Seq<Expr>,
    lf: Seq<Name>,
    rf: Seq<Name>,
    shape: crate::meaning::JoinShape,
)
    requires
        crate::probe::all_wide(la, lf.len() as int),
        crate::probe::all_wide(ra, rf.len() as int),
        forall|i: int| 0 <= i < ls.len() ==> covered(#[trigger] ls[i], lf),
        forall|i: int| 0 <= i < rs.len() ==> covered(#[trigger] rs[i], rf),
        (lf + rf).no_duplicates(),
        shape.drop == gone_at(lf + rf, Set::<Name>::empty()),
    ensures
        each(
            la.filter(|row: Row| holds(ls, lf, row)),
            |l: Row| joined_set(l, ra.filter(|row: Row| holds(rs, rf, row)), shape),
        ) == each(la, |l: Row| joined_set(l, ra, shape)).filter(
            |row: Row| holds(ls, lf + rf, row) && holds(rs, lf + rf, row),
        ),
{
    let la2 = la.filter(|row: Row| holds(ls, lf, row));
    let ra2 = ra.filter(|row: Row| holds(rs, rf, row));
    let a = each(la2, |l: Row| joined_set(l, ra2, shape));
    let whole = each(la, |l: Row| joined_set(l, ra, shape));
    let b = whole.filter(|row: Row| holds(ls, lf + rf, row) && holds(rs, lf + rf, row));
    assert forall|x: Row| a.contains(x) == b.contains(x) by {
        if a.contains(x) {
            let l = choose|l: Row| #[trigger] la2.contains(l) && joined_set(l, ra2, shape).contains(x);
            let r = choose|r: Row| #[trigger]
                ra2.contains(r) && keys_match(l, shape.lp, r, shape.rp) && x == without(
                    l + r,
                    shape.drop,
                );
            lemma_without_nothing(l + r, shape.drop);
            assert(la.contains(l) && ra.contains(r));
            lemma_sides_hold(ls, rs, lf, rf, l, r);
            assert(joined_set(l, ra, shape).contains(x));
        }
        if b.contains(x) {
            let l = choose|l: Row| #[trigger] la.contains(l) && joined_set(l, ra, shape).contains(x);
            let r = choose|r: Row| #[trigger]
                ra.contains(r) && keys_match(l, shape.lp, r, shape.rp) && x == without(
                    l + r,
                    shape.drop,
                );
            lemma_without_nothing(l + r, shape.drop);
            lemma_sides_hold(ls, rs, lf, rf, l, r);
            assert(la2.contains(l) && ra2.contains(r));
            assert(joined_set(l, ra2, shape).contains(x));
        }
    }
    assert(a =~= b);
}

/// Several filters, one after the other.
proof fn lemma_pushed_all_answer(
    p: RelAlgebra,
    fs: Seq<Expr>,
    r: RelAlgebra,
    env: Env,
    delta: Option<usize>,
)
    requires
        env.stores.wf(),
        p.fits(env),
        sinks(p),
        p.gone() == Set::<Name>::empty(),
        pushed_all(p, fs, r),
    ensures
        answer(r, env, delta) == answer(p, env, delta).filter(
            |row: Row| holds(fs, p.frame(), row),
        ),
        r.frame() == p.frame(),
        r.gone() == Set::<Name>::empty(),
        r.fits(env),
        sinks(r),
        !(p is Reorder) && !(p is NegJoin) ==> !(r is Reorder) && !(r is NegJoin),
    decreases join_height(p), fs.len(), 0nat,
{
    let all = answer(p, env, delta);
    if fs.len() == 0 {
        assert(all =~= all.filter(|row: Row| holds(fs, p.frame(), row)));
    } else {
        let mid = lemma_pushed_last(p, fs, r);
        let rest = fs.drop_last();
        lemma_pushed_all_answer(p, rest, mid, env, delta);
        lemma_whole_frame(mid);
        law_filter_pushed_down(mid, fs.last(), r, env, delta);
        lemma_whole_frame(p);
        assert(fs =~= rest.push(fs.last()));
        let f = fs.last();
        let a = all.filter(|row: Row| holds(rest, p.frame(), row)).filter(
            |row: Row| true_on(f, p.frame(), row),
        );
        let b = all.filter(|row: Row| holds(fs, p.frame(), row));
        assert forall|x: Row| a.contains(x) == b.contains(x) by {
            lemma_holds_push(rest, f, p.frame(), x);
        }
        assert(a =~= b);
    }
}

/// Pushing a filter down keeps the answer: it is that of the plan with only
/// the rows on which the filter is true.
pub proof fn law_filter_pushed_down(
    p: RelAlgebra,
    f: Expr,
    r: RelAlgebra,
    env: Env,
    delta: Option<usize>,
)
    requires
        env.stores.wf(),
        p.fits(env),
        sinks(p),
        pushed(p, f, r),
    ensures
        answer(r, env, delta) == answer(p, env, delta).filter(
            |row: Row| true_on(f, p.out_frame(), row),
        ),
        r.out_frame() == p.out_frame(),
        p.gone() == Set::<Name>::empty() ==> r.gone() == Set::<Name>::empty() && r.frame()
            == p.frame(),
        r.fits(env),
        sinks(r),
        !(p is Reorder) && !(p is NegJoin) ==> !(r is Reorder) && !(r is NegJoin),
    decreases join_height(p), 0nat, 1nat,
{
    let all = answer(p, env, delta);
    let want = all.filter(|row: Row| true_on(f, p.out_frame(), row));
    if p.gone() == Set::<Name>::empty() {
        lemma_whole_frame(p);
    }
    match p {
        RelAlgebra::Filter(x) => {
            let y = r->Filter_0;
            lemma_whole_frame(r);
            lemma_filter_answer(p, env, delta);
            lemma_filter_answer(r, env, delta);
            let frame = x.parent.out_frame();
            assert forall|row: Row| answer(r, env, delta).contains(row) == want.contains(row) by {
                lemma_holds_push(x.filters@, f, frame, row);
            }
            assert(answer(r, env, delta) =~= want);
        },
        RelAlgebra::TempStore(x) => {
            lemma_whole_frame(r);
            assert forall|row: Row| answer(r, env, delta).contains(row) == want.contains(row) by {
                lemma_holds_push(x.filters@, f, names(x.bindings@), row);
            }
            assert(answer(r, env, delta) =~= want);
        },
        RelAlgebra::Stored(x) => {
            lemma_whole_frame(r);
            assert forall|row: Row| answer(r, env, delta).contains(row) == want.contains(row) by {
                lemma_holds_push(x.filters@, f, names(x.bindings@), row);
            }
            assert(answer(r, env, delta) =~= want);
        },
        RelAlgebra::StoredWithValidity(x) => {
            lemma_whole_frame(r);
            assert forall|row: Row| answer(r, env, delta).contains(row) == want.contains(row) by {
                lemma_holds_push(x.filters@, f, names(x.bindings@), row);
            }
            assert(answer(r, env, delta) =~= want);
        },
        RelAlgebra::Join(j) => {
            lemma_pushed_join(p, f, r, env, delta);
        },
        _ => {
            lemma_capped_answer(p, seq![f], f.at(), r, env, delta);
            assert forall|row: Row| answer(r, env, delta).contains(row) == want.contains(row) by {
                assert(seq![f][0] == f);
            }
            assert(answer(r, env, delta) =~= want);
        },
    }
}

proof fn lemma_pushed_join(
    p: RelAlgebra,
    f: Expr,
    r: RelAlgebra,
    env: Env,
    delta: Option<usize>,
)
    requires
        env.stores.wf(),
        p.fits(env),
        sinks(p),
        p is Join,
        pushed(p, f, r),
    ensures
        answer(r, env, delta) == answer(p, env, delta).filter(
            |row: Row| true_on(f, p.out_frame(), row),
        ),
        r.out_frame() == p.out_frame(),
        r.gone() == Set::<Name>::empty(),
        r.frame() == p.frame(),
        r.fits(env),
        sinks(r),
        !(r is Reorder) && !(r is NegJoin),
    decreases join_height(p), 0nat, 0nat,
{
    let j = p->Join_0;
    let fs = conjuncts(f);
    let lf = j.left.frame();
    let rf = j.right.frame();
    let ls = to_left(fs, lf);
    let rs = to_right(fs, lf, rf);
    let rest = spanning(fs, lf, rf);
    let core = if rest.len() == 0 {
        r
    } else {
        *r->Filter_0.parent
    };
    let q = core->Join_0;
    lemma_pushed_all_answer(j.left, ls, q.left, env, delta);
    lemma_pushed_all_answer(j.right, rs, q.right, env, delta);
    lemma_whole_frame(p);
    lemma_whole_frame(j.left);
    lemma_whole_frame(j.right);
    lemma_whole_frame(q.left);
    lemma_whole_frame(q.right);
    lemma_whole_frame(core);
    lemma_answer_width(j.left, env, delta);
    lemma_answer_width(j.right, env, delta);
    lemma_split_covered(fs, lf, rf);
    let la = answer(j.left, env, delta);
    let ra = answer(j.right, env, delta);
    let frame = lf + rf;
    assert(p.frame() == frame);
    assert(core.frame() == frame);
    assert(q.shape() == j.shape());
    assert(q.fault() == j.fault());
    lemma_join_filtered(la, ra, ls, rs, lf, rf, j.shape());
    let all = answer(p, env, delta);
    let sides = all.filter(|row: Row| holds(ls, frame, row) && holds(rs, frame, row));
    if j.fault() is Some {
        assert(sides =~= Set::<Row>::empty());
    }
    assert(answer(core, env, delta) == sides);
    assert(core.fits(env));
    assert(sinks(core));
    let want = all.filter(|row: Row| true_on(f, frame, row));
    if rest.len() > 0 {
        lemma_capped_answer(core, rest, j.span, r, env, delta);
    }
    assert forall|row: Row| answer(r, env, delta).contains(row) == want.contains(row) by {
        lemma_conjuncts_true(f, frame, row);
        lemma_parts_hold(fs, lf, rf, frame, row);
    }
    assert(answer(r, env, delta) =~= want);
}

} // verus!
