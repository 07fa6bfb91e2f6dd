//! Giving the names in a plan's expressions their places.

use vstd::prelude::*;
use crate::bounds::{range_all, range_of, lower_ends, upper_ends};
use crate::expr::{EvalFault, Expr};
use crate::meaning::{
    join_meaning, meaning, passes, probe_columns, probe_join, probed, probed_row, search_filters,
    Origin, searched, sift, sifted, unified, Env, JoinShape,
};
use crate::names::{gone_at, join_names, name_set, names, shed, Name};
use crate::plan::{InnerJoin, NegJoin, RelAlgebra, SearchRA};
use crate::probe::all_at_place;
use crate::resolve::{
    alike, alike_all, by_name, eval_named, lemma_alike, misfit, misfit_all, placed, with_places,
};
use crate::stream::{lemma_flow_ext, lemma_through_ext, QueryError, QueryFault, Stream};
use crate::value::Row;

verus! {

/// Filters that differ at most in the places of their names.
pub open spec fn filters_alike(a: Seq<Expr>, b: Seq<Expr>) -> bool {
    &&& a.len() == b.len()
    &&& forall|i: int| 0 <= i < a.len() ==> alike(#[trigger] a[i], b[i])
}

/// Two plans that differ at most in the places of names in their expressions.
pub open spec fn plan_alike(a: RelAlgebra, b: RelAlgebra) -> bool
    decreases a,
{
    match (a, b) {
        (RelAlgebra::Fixed(x), RelAlgebra::Fixed(y)) => x == y,
        (RelAlgebra::Spans(x), RelAlgebra::Spans(y)) => x == y,
        (RelAlgebra::Delta(x), RelAlgebra::Delta(y)) => x == y,
        (RelAlgebra::TempStore(x), RelAlgebra::TempStore(y)) => {
            &&& x.bindings == y.bindings
            &&& x.storage_key == y.storage_key
            &&& x.occurrence == y.occurrence
            &&& x.span == y.span
            &&& filters_alike(x.filters@, y.filters@)
        },
        (RelAlgebra::Stored(x), RelAlgebra::Stored(y)) => {
            &&& x.bindings == y.bindings
            &&& x.storage == y.storage
            &&& x.span == y.span
            &&& filters_alike(x.filters@, y.filters@)
        },
        (RelAlgebra::StoredWithValidity(x), RelAlgebra::StoredWithValidity(y)) => {
            &&& x.bindings == y.bindings
            &&& x.storage == y.storage
            &&& x.as_of == y.as_of
            &&& x.span == y.span
            &&& filters_alike(x.filters@, y.filters@)
        },
        (RelAlgebra::Reorder(x), RelAlgebra::Reorder(y)) => {
            &&& x.new_order == y.new_order
            &&& plan_alike(*x.relation, *y.relation)
        },
        (RelAlgebra::Filter(x), RelAlgebra::Filter(y)) => {
            &&& x.to_eliminate == y.to_eliminate
            &&& x.span == y.span
            &&& filters_alike(x.filters@, y.filters@)
            &&& plan_alike(*x.parent, *y.parent)
        },
        (RelAlgebra::Unification(x), RelAlgebra::Unification(y)) => {
            &&& x.binding == y.binding
            &&& x.is_multi == y.is_multi
            &&& x.to_eliminate == y.to_eliminate
            &&& x.span == y.span
            &&& alike(x.expr, y.expr)
            &&& plan_alike(*x.parent, *y.parent)
        },
        (RelAlgebra::Search(x), RelAlgebra::Search(y)) => {
            &&& x.kind == y.kind
            &&& x.index == y.index
            &&& x.own_bindings == y.own_bindings
            &&& x.span == y.span
            &&& alike(x.query, y.query)
            &&& filters_alike(search_filters(x.filter), search_filters(y.filter))
            &&& plan_alike(*x.parent, *y.parent)
        },
        (RelAlgebra::NegJoin(x), RelAlgebra::NegJoin(y)) => {
            &&& x.right == y.right
            &&& x.joiner == y.joiner
            &&& x.to_eliminate == y.to_eliminate
            &&& x.span == y.span
            &&& plan_alike(x.left, y.left)
        },
        (RelAlgebra::Join(x), RelAlgebra::Join(y)) => {
            &&& x.joiner == y.joiner
            &&& x.to_eliminate == y.to_eliminate
            &&& x.span == y.span
            &&& plan_alike(x.left, y.left)
            &&& plan_alike(x.right, y.right)
        },
        _ => false,
    }
}

proof fn lemma_alike_self(e: Expr)
    ensures
        alike(e, e),
    decreases e,
{
    match e {
        Expr::Apply { args, .. } => {
            lemma_alike_selves(args@);
        },
        Expr::Lazy { args, .. } => {
            lemma_alike_selves(args@);
        },
        Expr::Cond { clauses, .. } => {
            lemma_alike_clause_selves(clauses@);
        },
        Expr::UnboundApply { args, .. } => {
            lemma_alike_selves(args@);
        },
        _ => {},
    }
}

proof fn lemma_alike_selves(args: Seq<Expr>)
    ensures
        alike_all(args, args),
    decreases args,
{
    if args.len() > 0 {
        lemma_alike_selves(args.drop_last());
        lemma_alike_self(args.last());
    }
}

proof fn lemma_alike_clause_selves(clauses: Seq<(Expr, Expr)>)
    ensures
        crate::resolve::alike_clauses(clauses, clauses),
    decreases clauses,
{
    if clauses.len() > 0 {
        lemma_alike_clause_selves(clauses.drop_last());
        lemma_alike_self(clauses.last().0);
        lemma_alike_self(clauses.last().1);
    }
}

proof fn lemma_alike_range(a: Expr, b: Expr, n: Name)
    requires
        alike(a, b),
    ensures
        range_of(a, n) == range_of(b, n),
    decreases a,
{
    match (a, b) {
        (Expr::Apply { args: x, .. }, Expr::Apply { args: y, .. }) => {
            assert(alike_all(x@, y@));
            if x@.len() == 2 {
                reveal_with_fuel(alike_all, 3);
                assert(x@.drop_last().last() == x@[0]);
                assert(y@.drop_last().last() == y@[0]);
                assert(alike(x@[0], y@[0]));
                assert(alike(x@[1], y@[1]));
            }
        },
        (Expr::Lazy { op, args: x, .. }, Expr::Lazy { args: y, .. }) => {
            lemma_alike_ranges(x@, y@, n);
        },
        _ => {},
    }
}

proof fn lemma_alike_ranges(a: Seq<Expr>, b: Seq<Expr>, n: Name)
    requires
        alike_all(a, b),
    ensures
        range_all(a, n) == range_all(b, n),
    decreases a,
{
    if a.len() > 0 {
        lemma_alike_ranges(a.drop_last(), b.drop_last(), n);
        lemma_alike_range(a.last(), b.last(), n);
    }
}

proof fn lemma_filters_range(a: Seq<Expr>, b: Seq<Expr>, n: Name)
    requires
        filters_alike(a, b),
    ensures
        range_all(a, n) == range_all(b, n),
    decreases a.len(),
{
    if a.len() > 0 {
        assert(filters_alike(a.drop_last(), b.drop_last())) by {
            assert forall|i: int| 0 <= i < a.drop_last().len() implies alike(
                #[trigger] a.drop_last()[i],
                b.drop_last()[i],
            ) by {
                assert(alike(a[i], b[i]));
            }
        }
        lemma_filters_range(a.drop_last(), b.drop_last(), n);
        assert(alike(a[a.len() - 1], b[b.len() - 1]));
        lemma_alike_range(a.last(), b.last(), n);
    }
}

proof fn lemma_bounds_alike(a: Seq<Expr>, b: Seq<Expr>, columns: Seq<Name>)
    requires
        filters_alike(a, b),
    ensures
        lower_ends(a, columns) == lower_ends(b, columns),
        upper_ends(a, columns) == upper_ends(b, columns),
{
    assert forall|i: int| 0 <= i < columns.len() implies range_all(a, columns[i]) == range_all(
        b,
        columns[i],
    ) by {
        lemma_filters_range(a, b, columns[i]);
    }
    assert(lower_ends(a, columns) =~= lower_ends(b, columns));
    assert(upper_ends(a, columns) =~= upper_ends(b, columns));
}

pub proof fn lemma_passes_alike(a: Seq<Expr>, b: Seq<Expr>, frame: Seq<Name>, row: Row)
    requires
        filters_alike(a, b),
    ensures
        passes(a, frame, row) == passes(b, frame, row),
    decreases a.len(),
{
    if a.len() > 0 {
        assert(filters_alike(a.drop_last(), b.drop_last())) by {
            assert forall|i: int| 0 <= i < a.drop_last().len() implies alike(
                #[trigger] a.drop_last()[i],
                b.drop_last()[i],
            ) by {
                assert(alike(a[i], b[i]));
            }
        }
        lemma_passes_alike(a.drop_last(), b.drop_last(), frame, row);
        assert(alike(a[a.len() - 1], b[b.len() - 1]));
        lemma_alike(a.last(), b.last(), by_name(frame, row));
    }
}

proof fn lemma_sifted_alike(rows: Seq<Row>, a: Seq<Expr>, b: Seq<Expr>, frame: Seq<Name>)
    requires
        filters_alike(a, b),
    ensures
        sifted(rows, a, frame) == sifted(rows, b, frame),
{
    let f = |r: Row| sift(a, frame, r, r);
    let g = |r: Row| sift(b, frame, r, r);
    assert forall|i: int| 0 <= i < rows.len() implies #[trigger] f(rows[i]) == g(rows[i]) by {
        lemma_passes_alike(a, b, frame, rows[i]);
    }
    lemma_flow_ext(rows, f, g);
}

proof fn lemma_probe_alike(
    ls: Stream,
    rows: Seq<Row>,
    shape: JoinShape,
    a: Seq<Expr>,
    b: Seq<Expr>,
    frame: Seq<Name>,
    key_len: Option<int>,
    origin: Option<Origin>,
)
    requires
        filters_alike(a, b),
    ensures
        probe_join(ls, rows, shape, a, frame, key_len, origin) == probe_join(
            ls,
            rows,
            shape,
            b,
            frame,
            key_len,
            origin,
        ),
{
    let columns = probe_columns(frame, shape.rp.len() as int, key_len);
    let f = |l: Row| probed(l, rows, shape, a, frame, columns, origin);
    let g = |l: Row| probed(l, rows, shape, b, frame, columns, origin);
    lemma_bounds_alike(a, b, columns);
    assert forall|i: int| 0 <= i < ls.items.len() && (#[trigger] ls.items[i]) is Ok implies f(
        ls.items[i]->Ok_0,
    ) == g(ls.items[i]->Ok_0) by {
        let l = ls.items[i]->Ok_0;
        let h = |r: Row| probed_row(l, r, shape, a, frame, columns, origin);
        let k = |r: Row| probed_row(l, r, shape, b, frame, columns, origin);
        assert forall|j: int| 0 <= j < rows.len() implies #[trigger] h(rows[j]) == k(rows[j]) by {
            lemma_passes_alike(a, b, frame, rows[j]);
        }
        lemma_flow_ext(rows, h, k);
    }
    lemma_through_ext(ls, f, g);
}

proof fn lemma_frame_alike(a: RelAlgebra, b: RelAlgebra)
    requires
        plan_alike(a, b),
    ensures
        a.frame() == b.frame(),
        a.gone() == b.gone(),
    decreases a,
{
    match (a, b) {
        (RelAlgebra::Filter(x), RelAlgebra::Filter(y)) => {
            lemma_frame_alike(*x.parent, *y.parent);
        },
        (RelAlgebra::Unification(x), RelAlgebra::Unification(y)) => {
            lemma_frame_alike(*x.parent, *y.parent);
        },
        (RelAlgebra::Search(x), RelAlgebra::Search(y)) => {
            lemma_frame_alike(*x.parent, *y.parent);
        },
        (RelAlgebra::NegJoin(x), RelAlgebra::NegJoin(y)) => {
            lemma_frame_alike(x.left, y.left);
        },
        (RelAlgebra::Join(x), RelAlgebra::Join(y)) => {
            lemma_frame_alike(x.left, y.left);
            lemma_frame_alike(x.right, y.right);
        },
        _ => {},
    }
}

proof fn lemma_join_alike(
    x: InnerJoin,
    y: InnerJoin,
    left: Result<Stream, QueryFault>,
    right: Result<Stream, QueryFault>,
    env: Env,
    delta: Option<usize>,
)
    requires
        x.joiner == y.joiner,
        x.to_eliminate == y.to_eliminate,
        plan_alike(x.left, y.left),
        plan_alike(x.right, y.right),
    ensures
        join_meaning(x, left, right, env, delta) == join_meaning(y, left, right, env, delta),
{
    lemma_frame_alike(x.left, y.left);
    lemma_frame_alike(x.right, y.right);
    let ls = left->Ok_0;
    match (x.right, y.right) {
        (RelAlgebra::TempStore(r), RelAlgebra::TempStore(t)) => {
            lemma_probe_alike(
                ls,
                crate::meaning::occurrence_rows(r, env, delta),
                x.shape(),
                r.filters@,
                t.filters@,
                names(r.bindings@),
                None,
                None,
            );
        },
        (RelAlgebra::Stored(r), RelAlgebra::Stored(t)) => {
            let table = env.tables@[r.storage.id as int];
            lemma_probe_alike(
                ls,
                crate::history::snapshot(table.model(), crate::meaning::newest()),
                x.shape(),
                r.filters@,
                t.filters@,
                names(r.bindings@),
                Some(table.key_len as int),
                Some(
                    Origin { relation: r.storage.name, key_len: table.key_len, span: r.span },
                ),
            );
        },
        (RelAlgebra::StoredWithValidity(r), RelAlgebra::StoredWithValidity(t)) => {
            let table = env.tables@[r.storage.id as int];
            lemma_probe_alike(
                ls,
                crate::history::snapshot(table.model(), r.as_of),
                x.shape(),
                r.filters@,
                t.filters@,
                names(r.bindings@),
                Some(table.key_len as int),
                None,
            );
        },
        _ => {},
    }
}

/// Places do not change what a plan means: only names do.
pub proof fn law_places_keep_meaning(
    a: RelAlgebra,
    b: RelAlgebra,
    env: Env,
    delta: Option<usize>,
)
    requires
        plan_alike(a, b),
    ensures
        a.out_frame() == b.out_frame(),
        meaning(a, env, delta) == meaning(b, env, delta),
    decreases a,
{
    lemma_frame_alike(a, b);
    match (a, b) {
        (RelAlgebra::TempStore(x), RelAlgebra::TempStore(y)) => {
            lemma_sifted_alike(
                crate::meaning::occurrence_rows(x, env, delta),
                x.filters@,
                y.filters@,
                names(x.bindings@),
            );
        },
        (RelAlgebra::Stored(x), RelAlgebra::Stored(y)) => {
            lemma_sifted_alike(
                crate::history::snapshot(
                    env.tables@[x.storage.id as int].model(),
                    crate::meaning::newest(),
                ),
                x.filters@,
                y.filters@,
                names(x.bindings@),
            );
        },
        (RelAlgebra::StoredWithValidity(x), RelAlgebra::StoredWithValidity(y)) => {
            lemma_sifted_alike(
                crate::history::snapshot(env.tables@[x.storage.id as int].model(), x.as_of),
                x.filters@,
                y.filters@,
                names(x.bindings@),
            );
        },
        (RelAlgebra::Reorder(x), RelAlgebra::Reorder(y)) => {
            law_places_keep_meaning(*x.relation, *y.relation, env, delta);
        },
        (RelAlgebra::Filter(x), RelAlgebra::Filter(y)) => {
            law_places_keep_meaning(*x.parent, *y.parent, env, delta);
            let frame = x.parent.out_frame();
            let gone = name_set(x.to_eliminate@);
            let s = meaning(*x.parent, env, delta)->Ok_0;
            let f = |row: Row| sift(x.filters@, frame, row, shed(row, frame, gone));
            let g = |row: Row| sift(y.filters@, frame, row, shed(row, frame, gone));
            assert forall|i: int| 0 <= i < s.items.len() && (#[trigger] s.items[i]) is Ok implies f(
                s.items[i]->Ok_0,
            ) == g(s.items[i]->Ok_0) by {
                lemma_passes_alike(x.filters@, y.filters@, frame, s.items[i]->Ok_0);
            }
            lemma_through_ext(s, f, g);
        },
        (RelAlgebra::Unification(x), RelAlgebra::Unification(y)) => {
            law_places_keep_meaning(*x.parent, *y.parent, env, delta);
            let frame = x.parent.out_frame();
            let drop = gone_at(frame.push(x.binding@), name_set(x.to_eliminate@));
            let s = meaning(*x.parent, env, delta)->Ok_0;
            let f = |row: Row|
                unified(row, eval_named(x.expr, frame, row), x.is_multi, x.span, drop);
            let g = |row: Row|
                unified(row, eval_named(y.expr, frame, row), x.is_multi, x.span, drop);
            assert forall|i: int| 0 <= i < s.items.len() && (#[trigger] s.items[i]) is Ok implies f(
                s.items[i]->Ok_0,
            ) == g(s.items[i]->Ok_0) by {
                lemma_alike(x.expr, y.expr, by_name(frame, s.items[i]->Ok_0));
            }
            lemma_through_ext(s, f, g);
        },
        (RelAlgebra::Search(x), RelAlgebra::Search(y)) => {
            law_places_keep_meaning(*x.parent, *y.parent, env, delta);
            let s = meaning(*x.parent, env, delta)->Ok_0;
            let f = |row: Row| searched(row, *x, env);
            let g = |row: Row| searched(row, *y, env);
            assert forall|i: int| 0 <= i < s.items.len() && (#[trigger] s.items[i]) is Ok implies f(
                s.items[i]->Ok_0,
            ) == g(s.items[i]->Ok_0) by {
                lemma_search_alike(*x, *y, env, s.items[i]->Ok_0);
            }
            lemma_through_ext(s, f, g);
        },
        (RelAlgebra::NegJoin(x), RelAlgebra::NegJoin(y)) => {
            law_places_keep_meaning(x.left, y.left, env, delta);
        },
        (RelAlgebra::Join(x), RelAlgebra::Join(y)) => {
            law_places_keep_meaning(x.left, y.left, env, delta);
            law_places_keep_meaning(x.right, y.right, env, delta);
            lemma_join_alike(
                *x,
                *y,
                meaning(x.left, env, delta),
                meaning(x.right, env, delta),
                env,
                delta,
            );
        },
        _ => {},
    }
}

proof fn lemma_search_alike(x: SearchRA, y: SearchRA, env: Env, row: Row)
    requires
        x.kind == y.kind,
        x.index == y.index,
        x.own_bindings == y.own_bindings,
        x.span == y.span,
        alike(x.query, y.query),
        filters_alike(search_filters(x.filter), search_filters(y.filter)),
        x.parent.out_frame() == y.parent.out_frame(),
    ensures
        searched(row, x, env) == searched(row, y, env),
{
    let pframe = x.parent.out_frame();
    lemma_alike(x.query, y.query, by_name(pframe, row));
    match eval_named(x.query, pframe, row) {
        Ok(q) => {
            let found = env.indexes@[x.index as int].found(q);
            let frame = pframe + names(x.own_bindings@);
            let f = |t: Row| sift(search_filters(x.filter), frame, row + t, row + t);
            let g = |t: Row| sift(search_filters(y.filter), frame, row + t, row + t);
            assert forall|i: int| 0 <= i < found.len() implies #[trigger] f(found[i]) == g(
                found[i],
            ) by {
                lemma_passes_alike(
                    search_filters(x.filter),
                    search_filters(y.filter),
                    frame,
                    row + found[i],
                );
            }
            lemma_flow_ext(found, f, g);
        },
        Err(_) => {},
    }
}

/// The first reason why a plan's expressions cannot be given places.
pub open spec fn plan_misfit(plan: RelAlgebra) -> Option<EvalFault>
    decreases plan,
{
    match plan {
        RelAlgebra::TempStore(r) => misfit_all(r.filters@, names(r.bindings@)),
        RelAlgebra::Stored(r) => misfit_all(r.filters@, names(r.bindings@)),
        RelAlgebra::StoredWithValidity(r) => misfit_all(r.filters@, names(r.bindings@)),
        RelAlgebra::Reorder(r) => plan_misfit(*r.relation),
        RelAlgebra::Filter(r) => match plan_misfit(*r.parent) {
            Some(e) => Some(e),
            None => misfit_all(r.filters@, r.parent.out_frame()),
        },
        RelAlgebra::Unification(u) => match plan_misfit(*u.parent) {
            Some(e) => Some(e),
            None => misfit(u.expr, u.parent.out_frame()),
        },
        RelAlgebra::Search(s) => match plan_misfit(*s.parent) {
            Some(e) => Some(e),
            None => match misfit(s.query, s.parent.out_frame()) {
                Some(e) => Some(e),
                None => misfit_all(
                    search_filters(s.filter),
                    s.parent.out_frame() + names(s.own_bindings@),
                ),
            },
        },
        RelAlgebra::NegJoin(n) => plan_misfit(n.left),
        RelAlgebra::Join(j) => match plan_misfit(j.left) {
            Some(e) => Some(e),
            None => plan_misfit(j.right),
        },
        _ => None,
    }
}

/// Give the names of filters their places.
fn fill_filters(filters: &mut Vec<Expr>, frame: &Vec<String>) -> (r: Result<(), QueryError>)
    ensures
        filters_alike(old(filters)@, final(filters)@),
        match r {
            Ok(_) => misfit_all(old(filters)@, names(frame@)) is None && all_at_place(
                final(filters)@,
                names(frame@),
            ),
            Err(e) => misfit_all(old(filters)@, names(frame@)) is Some && e.deep_view()
                == QueryFault::Eval(misfit_all(old(filters)@, names(frame@))->Some_0),
        },
{
    let ghost start = filters@;
    let ghost fr = names(frame@);
    let mut i: usize = 0;
    proof {
        assert(start.take(0) =~= Seq::<Expr>::empty());
        assert forall|j: int| 0 <= j < start.len() implies alike(#[trigger] start[j], start[j]) by {
            lemma_alike_self(start[j]);
        }
    }
    while i < filters.len()
        invariant
            i <= filters@.len(),
            fr == names(frame@),
            start == old(filters)@,
            filters@.len() == start.len(),
            forall|j: int| i <= j < start.len() ==> filters@[j] == start[j],
            forall|j: int| 0 <= j < start.len() ==> alike(#[trigger] start[j], filters@[j]),
            forall|j: int| 0 <= j < i ==> placed(#[trigger] filters@[j], fr),
            misfit_all(start.take(i as int), fr) is None,
        decreases filters.len() - i,
    {
        proof {
            assert(start.take(i + 1).drop_last() =~= start.take(i as int));
            assert(start.take(i + 1).last() == start[i as int]);
        }
        match with_places(&filters[i], frame) {
            Ok(e) => {
                filters.set(i, e);
            },
            Err(e) => {
                proof {
                    crate::resolve::lemma_misfit_all(start, fr, i + 1);
                }
                return Err(QueryError::Eval(e));
            },
        }
        i = i + 1;
    }
    proof {
        assert(start.take(i as int) =~= start);
    }
    Ok(())
}

impl RelAlgebra {
    /// Give every name in the plan's expressions its place.
    pub fn fill_binding_indices_and_compile(&mut self) -> (r: Result<(), QueryError>)
        ensures
            plan_alike(*old(self), *final(self)),
            match r {
                Ok(_) => plan_misfit(*old(self)) is None && final(self).compiled(),
                Err(e) => plan_misfit(*old(self)) is Some && e.deep_view()
                    == QueryFault::Eval(plan_misfit(*old(self))->Some_0),
            },
        decreases *old(self),
    {
        match self {
            RelAlgebra::Fixed(_) => Ok(()),
            RelAlgebra::Spans(_) => Ok(()),
            RelAlgebra::Delta(_) => Ok(()),
            RelAlgebra::TempStore(t) => fill_filters(&mut t.filters, &t.bindings),
            RelAlgebra::Stored(t) => fill_filters(&mut t.filters, &t.bindings),
            RelAlgebra::StoredWithValidity(t) => fill_filters(&mut t.filters, &t.bindings),
            RelAlgebra::Reorder(t) => t.relation.fill_binding_indices_and_compile(),
            RelAlgebra::Filter(t) => {
                let ghost before = *t;
                match t.parent.fill_binding_indices_and_compile() {
                    Ok(_) => {},
                    Err(e) => {
                        proof {
                            lemma_filters_self(t.filters@);
                        }
                        return Err(e);
                    },
                }
                proof {
                    lemma_frame_alike(*before.parent, *t.parent);
                }
                let frame = t.parent.bindings_after_eliminate();
                fill_filters(&mut t.filters, &frame)
            },
            RelAlgebra::Unification(t) => {
                let ghost before = *t;
                proof {
                    lemma_alike_self(t.expr);
                }
                match t.parent.fill_binding_indices_and_compile() {
                    Ok(_) => {},
                    Err(e) => {
                        return Err(e);
                    },
                }
                proof {
                    lemma_frame_alike(*before.parent, *t.parent);
                }
                let frame = t.parent.bindings_after_eliminate();
                match t.expr.fill_binding_indices(&frame) {
                    Ok(_) => Ok(()),
                    Err(e) => Err(QueryError::Eval(e)),
                }
            },
            RelAlgebra::Search(t) => {
                let ghost before = **t;
                proof {
                    lemma_alike_self(t.query);
                    lemma_filters_self(search_filters(t.filter));
                }
                match t.parent.fill_binding_indices_and_compile() {
                    Ok(_) => {},
                    Err(e) => {
                        return Err(e);
                    },
                }
                proof {
                    lemma_frame_alike(*before.parent, *t.parent);
                }
                let frame = t.parent.bindings_after_eliminate();
                match t.query.fill_binding_indices(&frame) {
                    Ok(_) => {},
                    Err(e) => {
                        return Err(QueryError::Eval(e));
                    },
                }
                let full = join_names(frame, &t.own_bindings);
                let ghost mid = t.filter;
                let placed_filter = match &t.filter {
                    None => None,
                    Some(f) => match with_places(f, &full) {
                        Ok(p) => Some(p),
                        Err(e) => {
                            proof {
                                lemma_single_misfit(*f, names(full@));
                            }
                            return Err(QueryError::Eval(e));
                        },
                    },
                };
                t.filter = placed_filter;
                proof {
                    match mid {
                        Some(f) => {
                            lemma_single_misfit(f, names(full@));
                            assert(search_filters(t.filter)[0] == t.filter->Some_0);
                            assert(search_filters(mid)[0] == f);
                        },
                        None => {},
                    }
                }
                Ok(())
            },
            RelAlgebra::NegJoin(t) => t.left.fill_binding_indices_and_compile(),
            RelAlgebra::Join(t) => {
                proof {
                    lemma_plan_self(t.right);
                }
                match t.left.fill_binding_indices_and_compile() {
                    Ok(_) => {},
                    Err(e) => {
                        return Err(e);
                    },
                }
                t.right.fill_binding_indices_and_compile()
            },
        }
    }
}

proof fn lemma_single_misfit(f: Expr, frame: Seq<Name>)
    ensures
        misfit_all(seq![f], frame) == misfit(f, frame),
{
    assert(seq![f].drop_last() =~= Seq::<Expr>::empty());
    assert(seq![f].last() == f);
    assert(misfit_all(seq![f].drop_last(), frame) is None);
}

proof fn lemma_plan_self(p: RelAlgebra)
    ensures
        plan_alike(p, p),
    decreases p,
{
    match p {
        RelAlgebra::TempStore(x) => {
            lemma_filters_self(x.filters@);
        },
        RelAlgebra::Stored(x) => {
            lemma_filters_self(x.filters@);
        },
        RelAlgebra::StoredWithValidity(x) => {
            lemma_filters_self(x.filters@);
        },
        RelAlgebra::Reorder(x) => {
            lemma_plan_self(*x.relation);
        },
        RelAlgebra::Filter(x) => {
            lemma_filters_self(x.filters@);
            lemma_plan_self(*x.parent);
        },
        RelAlgebra::Unification(x) => {
            lemma_alike_self(x.expr);
            lemma_plan_self(*x.parent);
        },
        RelAlgebra::Search(x) => {
            lemma_alike_self(x.query);
            lemma_filters_self(search_filters(x.filter));
            lemma_plan_self(*x.parent);
        },
        RelAlgebra::NegJoin(x) => {
            lemma_plan_self(x.left);
        },
        RelAlgebra::Join(x) => {
            lemma_plan_self(x.left);
            lemma_plan_self(x.right);
        },
        _ => {},
    }
}

proof fn lemma_filters_self(filters: Seq<Expr>)
    ensures
        filters_alike(filters, filters),
{
    assert forall|j: int| 0 <= j < filters.len() implies alike(
        #[trigger] filters[j],
        filters[j],
    ) by {
        lemma_alike_self(filters[j]);
    }
}

} // verus!
