//! What a search takes and gives, by the kind of its index.

use vstd::prelude::*;
use crate::expr::{EvalFault, Expr};
use crate::meaning::{meaning, passes, search_filters, searched, sift, Env};
use crate::names::{names, Name};
use crate::plan::{RelAlgebra, SearchRA};
use crate::resolve::eval_named;
use crate::stream::{flow, on_items, Item, QueryFault, Stream};
use crate::value::{Row, Val};

verus! {

/// Whether a filter, if there is one, is true of a row.
pub open spec fn is_kept(filter: Option<Expr>, frame: Seq<Name>, row: Row) -> bool {
    filter is None || eval_named(filter->Some_0, frame, row) == Ok::<Val, EvalFault>(
        Val::Bool(true),
    )
}

/// Whether a filter, if there is one, has a truth value on a row.
pub open spec fn is_judged(filter: Option<Expr>, frame: Seq<Name>, row: Row) -> bool {
    is_kept(filter, frame, row) || eval_named(filter->Some_0, frame, row) == Ok::<Val, EvalFault>(
        Val::Bool(false),
    )
}

/// A row extended by each of some results, one after the other.
pub open spec fn each_extended(row: Row, found: Seq<Row>) -> Seq<Row> {
    Seq::new(found.len(), |i: int| row + found[i])
}

/// Whether a stream holds a row extended by each of some results of which the
/// filter is true: it has those rows and no others, in the order of the
/// results where the filter has a truth value on all, and fails only where
/// the filter fails.
pub open spec fn holds_extended(
    out: Stream,
    row: Row,
    found: Seq<Row>,
    filter: Option<Expr>,
    frame: Seq<Name>,
) -> bool {
    &&& forall|x: Row| #[trigger]
        out.row_set().contains(x) <==> exists|i: int|
            0 <= i < found.len() && x == row + (#[trigger] found[i]) && is_kept(filter, frame, x)
    &&& forall|i: int|
        0 <= i < out.items.len() && (#[trigger] out.items[i]) is Err
            ==> out.items[i]->Err_0 is Eval
    &&& (forall|i: int|
        0 <= i < found.len() ==> is_judged(filter, frame, row + (#[trigger] found[i])))
        ==> out == Stream::of(
        each_extended(row, found).filter(|x: Row| is_kept(filter, frame, x)),
    )
}

proof fn lemma_one_filter(filter: Option<Expr>, frame: Seq<Name>, row: Row)
    ensures
        is_kept(filter, frame, row) <==> passes(search_filters(filter), frame, row) == Ok::<
            bool,
            EvalFault,
        >(true),
        is_judged(filter, frame, row) <==> passes(search_filters(filter), frame, row) is Ok,
{
    reveal_with_fuel(passes, 2);
    if filter is Some {
        assert(search_filters(filter).drop_last() =~= Seq::<Expr>::empty());
    }
}

proof fn lemma_extended(row: Row, found: Seq<Row>, filter: Option<Expr>, frame: Seq<Name>)
    ensures
        holds_extended(
            flow(found, |t: Row| sift(search_filters(filter), frame, row + t, row + t)),
            row,
            found,
            filter,
            frame,
        ),
    decreases found.len(),
{
    reveal(Seq::filter);
    let f = |t: Row| sift(search_filters(filter), frame, row + t, row + t);
    let keep = |x: Row| is_kept(filter, frame, x);
    let out = flow(found, f);
    if found.len() == 0 {
        assert(out.items =~= Stream::of(each_extended(row, found).filter(keep)).items);
    } else {
        let rest = found.drop_last();
        let n = found.len() - 1;
        let x = row + found[n];
        lemma_extended(row, rest, filter, frame);
        lemma_one_filter(filter, frame, x);
        let before = flow(rest, f);
        let one = f(found.last());
        assert(out == before.followed_by(one));
        assert(out.items == before.items + one.items);
        assert forall|y: Row| #[trigger] out.row_set().contains(y) <==> exists|i: int|
            0 <= i < found.len() && y == row + (#[trigger] found[i]) && is_kept(
                filter,
                frame,
                y,
            ) by {
            if out.row_set().contains(y) {
                let k = choose|k: int|
                    0 <= k < out.items.len() && (#[trigger] out.items[k]) == Ok::<Row, QueryFault>(
                        y,
                    );
                if k < before.items.len() {
                    assert(before.items[k] == Ok::<Row, QueryFault>(y));
                    assert(before.row_set().contains(y));
                    let i = choose|i: int|
                        0 <= i < rest.len() && y == row + (#[trigger] rest[i]) && is_kept(
                            filter,
                            frame,
                            y,
                        );
                    assert(found[i] == rest[i]);
                } else {
                    assert(one.items[k - before.items.len()] == Ok::<Row, QueryFault>(y));
                    assert(y == row + found[n]);
                }
            }
            if exists|i: int|
                0 <= i < found.len() && y == row + (#[trigger] found[i]) && is_kept(
                    filter,
                    frame,
                    y,
                ) {
                let i = choose|i: int|
                    0 <= i < found.len() && y == row + (#[trigger] found[i]) && is_kept(
                        filter,
                        frame,
                        y,
                    );
                if i < n {
                    assert(rest[i] == found[i]);
                    assert(before.row_set().contains(y));
                    let k = choose|k: int|
                        0 <= k < before.items.len() && (#[trigger] before.items[k]) == Ok::<
                            Row,
                            QueryFault,
                        >(y);
                    assert(out.items[k] == before.items[k]);
                } else {
                    assert(one == Stream::one(y));
                    assert(out.items[before.items.len() as int] == one.items[0]);
                }
            }
        }
        assert forall|i: int|
            0 <= i < out.items.len() && (#[trigger] out.items[i]) is Err implies out.items[i]->Err_0 is Eval by {
            if i < before.items.len() {
                assert(out.items[i] == before.items[i]);
            } else {
                assert(out.items[i] == one.items[i - before.items.len()]);
            }
        }
        if forall|i: int|
            0 <= i < found.len() ==> is_judged(filter, frame, row + (#[trigger] found[i])) {
            assert forall|i: int| 0 <= i < rest.len() implies is_judged(
                filter,
                frame,
                row + (#[trigger] rest[i]),
            ) by {
                assert(found[i] == rest[i]);
            }
            let all = each_extended(row, found);
            assert(all.drop_last() =~= each_extended(row, rest));
            assert(all.last() == x);
            assert(is_judged(filter, frame, row + found[n]));
            assert(before == Stream::of(each_extended(row, rest).filter(keep)));
            assert(out.items =~= Stream::of(all.filter(keep)).items);
        }
    }
}

/// A vector index is searched for a list: the row is extended by each result
/// of the index that the filter keeps. For any other value the search fails
/// with that value.
pub proof fn law_vector_search(row: Row, s: SearchRA, env: Env, q: Val)
    requires
        s.kind is Hnsw,
        eval_named(s.query, s.parent.out_frame(), row) == Ok::<Val, EvalFault>(q),
    ensures
        q is List ==> holds_extended(
            searched(row, s, env),
            row,
            env.indexes@[s.index as int].found(q),
            s.filter,
            s.parent.out_frame() + names(s.own_bindings@),
        ),
        !(q is List) ==> searched(row, s, env) == Stream::failed(
            QueryFault::SearchQueryType { value: q, span: s.span },
        ),
{
    lemma_extended(
        row,
        env.indexes@[s.index as int].found(q),
        s.filter,
        s.parent.out_frame() + names(s.own_bindings@),
    );
}

/// A text index is searched for a string: the row is extended by each result
/// of the index that the filter keeps. For any other value the search fails
/// with that value.
pub proof fn law_text_search(row: Row, s: SearchRA, env: Env, q: Val)
    requires
        s.kind is Fts,
        eval_named(s.query, s.parent.out_frame(), row) == Ok::<Val, EvalFault>(q),
    ensures
        q is Str ==> holds_extended(
            searched(row, s, env),
            row,
            env.indexes@[s.index as int].found(q),
            s.filter,
            s.parent.out_frame() + names(s.own_bindings@),
        ),
        !(q is Str) ==> searched(row, s, env) == Stream::failed(
            QueryFault::SearchQueryType { value: q, span: s.span },
        ),
{
    lemma_extended(
        row,
        env.indexes@[s.index as int].found(q),
        s.filter,
        s.parent.out_frame() + names(s.own_bindings@),
    );
}

/// A similarity index is searched for any value: the row is extended by each
/// result of the index that the filter keeps.
pub proof fn law_similarity_search(row: Row, s: SearchRA, env: Env, q: Val)
    requires
        s.kind is Lsh,
        eval_named(s.query, s.parent.out_frame(), row) == Ok::<Val, EvalFault>(q),
    ensures
        holds_extended(
            searched(row, s, env),
            row,
            env.indexes@[s.index as int].found(q),
            s.filter,
            s.parent.out_frame() + names(s.own_bindings@),
        ),
{
    lemma_extended(
        row,
        env.indexes@[s.index as int].found(q),
        s.filter,
        s.parent.out_frame() + names(s.own_bindings@),
    );
}

/// A search whose query fails on a row fails as the query does.
pub proof fn law_search_fails_with_its_query(row: Row, s: SearchRA, env: Env)
    requires
        eval_named(s.query, s.parent.out_frame(), row) is Err,
    ensures
        searched(row, s, env) == Stream::failed(
            QueryFault::Eval(eval_named(s.query, s.parent.out_frame(), row)->Err_0),
        ),
{
}

proof fn lemma_flow_holds(items: Seq<Item>, f: spec_fn(Item) -> Stream, i: int, k: int) -> (at: int)
    requires
        0 <= i < items.len(),
        0 <= k < f(items[i]).items.len(),
    ensures
        0 <= at < flow(items, f).items.len(),
        flow(items, f).items[at] == f(items[i]).items[k],
    decreases items.len(),
{
    let before = flow(items.drop_last(), f);
    if i == items.len() - 1 {
        before.items.len() + k
    } else {
        let at = lemma_flow_holds(items.drop_last(), f, i, k);
        assert(items.drop_last()[i] == items[i]);
        at
    }
}

/// A plan that searches a vector index for a string, or a text index for a
/// list, on a row of its parent fails with that value there.
pub proof fn law_search_plan_refuses(
    s: SearchRA,
    env: Env,
    delta: Option<usize>,
    p: Stream,
    i: int,
    row: Row,
    q: Val,
)
    requires
        meaning(*s.parent, env, delta) == Ok::<Stream, QueryFault>(p),
        0 <= i < p.items.len(),
        p.items[i] == Ok::<Row, QueryFault>(row),
        eval_named(s.query, s.parent.out_frame(), row) == Ok::<Val, EvalFault>(q),
        s.kind is Hnsw && !(q is List) || s.kind is Fts && !(q is Str),
    ensures
        meaning(RelAlgebra::Search(Box::new(s)), env, delta) is Ok,
        exists|at: int|
            0 <= at < meaning(RelAlgebra::Search(Box::new(s)), env, delta)->Ok_0.items.len() && (
            #[trigger] meaning(RelAlgebra::Search(Box::new(s)), env, delta)->Ok_0.items[at])
                == Err::<Row, QueryFault>(QueryFault::SearchQueryType { value: q, span: s.span }),
{
    let f = on_items(|row: Row| searched(row, s, env));
    let bad = QueryFault::SearchQueryType { value: q, span: s.span };
    assert(f(p.items[i]) == Stream::failed(bad)) by {
        if s.kind is Hnsw {
            law_vector_search(row, s, env, q);
        } else {
            law_text_search(row, s, env, q);
        }
    }
    let at = lemma_flow_holds(p.items, f, i, 0);
    assert(meaning(RelAlgebra::Search(Box::new(s)), env, delta) == Ok::<Stream, QueryFault>(
        flow(p.items, f),
    ));
    let out = meaning(RelAlgebra::Search(Box::new(s)), env, delta)->Ok_0;
    assert(out.items[at] == Err::<Row, QueryFault>(bad));
}

} // verus!
