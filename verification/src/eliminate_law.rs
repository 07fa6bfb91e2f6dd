//! Shedding the columns that nothing uses keeps what is used of the answer.

use vstd::prelude::*;
use crate::answer::{
    answer, holds, joined_set, just, lemma_answer_width, neg_shape, searched_set, true_on,
    unified_set,
};
use crate::eliminate::{all_mentioned, mentioned, store_filters, trimmed, unused};
use crate::expr::{Expr, SourceSpan};
use crate::meaning::{all_placed, keys_match, neg_rows, search_filters, unmatched, Env};
use crate::names::{
    gone_at, kept, last_place, lemma_last_place, lemma_without_ext, lemma_without_len, name_set,
    names, shed, without, Name,
};
use crate::plan::{
    key_fault, places_of, FilteredRA, InlineFixedRA, InnerJoin, NegJoin, RelAlgebra, ReorderRA,
    SearchRA, UnificationRA,
};
use crate::probe::all_wide;
use crate::resolve::{by_name, eval_named, lemma_eval_agree, mention_any, mentions, Look};
use crate::run::lemma_sheds_nothing;
use crate::temp_store::project;
use crate::value::{Row, Val};

verus! {

/// The value of a named column of a row, if the frame has that name.
pub open spec fn col(frame: Seq<Name>, row: Row, n: Name) -> Option<Val> {
    match last_place(frame, n) {
        None => None,
        Some(p) => Some(row[p]),
    }
}

/// The used columns of a row, by name.
pub open spec fn named(frame: Seq<Name>, row: Row, used: Set<Name>) -> Map<Name, Val> {
    Map::new(
        |n: Name| used.contains(n) && last_place(frame, n) is Some,
        |n: Name| row[last_place(frame, n)->Some_0],
    )
}

/// The used columns of rows, by name.
pub open spec fn named_rows(rows: Set<Row>, frame: Seq<Name>, used: Set<Name>) -> Set<
    Map<Name, Val>,
> {
    Set::new(
        |m: Map<Name, Val>| exists|r: Row| #[trigger] rows.contains(r) && m == named(frame, r, used),
    )
}

/// Two rows with the same used columns.
spec fn agree(f: Seq<Name>, a: Row, g: Seq<Name>, b: Row, used: Set<Name>) -> bool {
    forall|n: Name| used.contains(n) ==> #[trigger] col(f, a, n) == col(g, b, n)
}

/// Every row of one set has a row with the same used columns in another.
spec fn covers(xs: Set<Row>, f: Seq<Name>, ys: Set<Row>, g: Seq<Name>, used: Set<Name>) -> bool {
    forall|a: Row| #[trigger] xs.contains(a) ==> has_like(ys, g, f, a, used)
}

spec fn has_like(ys: Set<Row>, g: Seq<Name>, f: Seq<Name>, a: Row, used: Set<Name>) -> bool {
    exists|b: Row| #[trigger] ys.contains(b) && agree(f, a, g, b, used)
}

/// Two frames with the same used names.
spec fn alike(f: Seq<Name>, g: Seq<Name>, used: Set<Name>) -> bool {
    forall|n: Name| used.contains(n) ==> (#[trigger] last_place(f, n) is Some) == (last_place(
        g,
        n,
    ) is Some)
}

/// Names that agree on being shed.
spec fn same_gone(a: Set<Name>, b: Set<Name>, used: Set<Name>) -> bool {
    forall|n: Name| used.contains(n) ==> #[trigger] a.contains(n) == b.contains(n)
}

/// The columns of every operator that a place is looked up in can be counted.
pub open spec fn counted(p: RelAlgebra) -> bool
    decreases p,
{
    match p {
        RelAlgebra::Reorder(x) => counted(*x.relation) && x.relation.out_frame().len()
            <= usize::MAX,
        RelAlgebra::Filter(x) => counted(*x.parent),
        RelAlgebra::Unification(x) => counted(*x.parent),
        RelAlgebra::Search(x) => counted(*x.parent),
        RelAlgebra::NegJoin(x) => counted(x.left) && x.left.out_frame().len() <= usize::MAX,
        RelAlgebra::Join(x) => {
            &&& counted(x.left)
            &&& counted(x.right)
            &&& x.left.out_frame().len() <= usize::MAX
            &&& x.right.out_frame().len() <= usize::MAX
        },
        _ => true,
    }
}

/// What is used holds the columns that reorders and searches read: those do
/// not ask for their columns themselves.
pub open spec fn told(p: RelAlgebra, used: Set<Name>) -> bool
    decreases p,
{
    match p {
        RelAlgebra::Join(x) => {
            &&& told(
                x.left,
                used + name_set(x.joiner.left_keys@) + all_mentioned(store_filters(x.right)),
            )
            &&& told(x.right, used + name_set(x.joiner.right_keys@))
        },
        RelAlgebra::NegJoin(x) => told(x.left, used + name_set(x.joiner.left_keys@)),
        RelAlgebra::Reorder(x) => {
            &&& told(*x.relation, used)
            &&& forall|n: Name| #[trigger]
                names(x.new_order@).contains(n) && x.relation.out_frame().contains(n)
                    ==> used.contains(n)
        },
        RelAlgebra::Filter(x) => told(*x.parent, used + all_mentioned(x.filters@)),
        RelAlgebra::Unification(x) => told(*x.parent, used + mentioned(x.expr)),
        RelAlgebra::Search(x) => {
            &&& told(*x.parent, used)
            &&& forall|n: Name| #[trigger]
                mentions(x.query, n) && x.parent.out_frame().contains(n) ==> used.contains(n)
            &&& forall|n: Name| #[trigger]
                mention_any(search_filters(x.filter), n) && !names(x.own_bindings@).contains(n)
                    && x.parent.out_frame().contains(n) ==> used.contains(n)
        },
        _ => true,
    }
}

/// The items of one sequence occur in another, in the same order.
pub open spec fn within(a: Seq<Name>, b: Seq<Name>) -> bool
    decreases b.len(),
{
    ||| a.len() == 0
    ||| b.len() > 0 && a.last() == b.last() && within(a.drop_last(), b.drop_last())
    ||| b.len() > 0 && within(a, b.drop_last())
}

proof fn lemma_within(a: Seq<Name>, b: Seq<Name>)
    requires
        within(a, b),
    ensures
        a.len() <= b.len(),
        forall|n: Name| #[trigger] a.contains(n) ==> b.contains(n),
    decreases b.len(),
{
    if a.len() > 0 {
        assert(b.len() > 0);
        let c = b.drop_last();
        if within(a, c) {
            lemma_within(a, c);
            assert forall|n: Name| #[trigger] a.contains(n) implies b.contains(n) by {
                assert(c.contains(n));
                assert(b[c.index_of(n)] == n);
            }
        } else {
            lemma_within(a.drop_last(), c);
            assert forall|n: Name| #[trigger] a.contains(n) implies b.contains(n) by {
                let i = a.index_of(n);
                if i < a.len() - 1 {
                    assert(a.drop_last()[i] == n);
                    assert(a.drop_last().contains(n));
                    assert(c.contains(n));
                    assert(b[c.index_of(n)] == n);
                } else {
                    assert(b[b.len() - 1] == n);
                }
            }
        }
    }
}

proof fn lemma_within_self(a: Seq<Name>)
    ensures
        within(a, a),
    decreases a.len(),
{
    if a.len() > 0 {
        lemma_within_self(a.drop_last());
    }
}

/// A frame without its last name.
proof fn lemma_kept_last(f: Seq<Name>, gone: Set<Name>)
    requires
        f.len() > 0,
    ensures
        kept(f, gone) == (if gone.contains(f.last()) {
            kept(f.drop_last(), gone)
        } else {
            kept(f.drop_last(), gone).push(f.last())
        }),
{
    lemma_without_ext(f.drop_last(), gone_at(f, gone), gone_at(f.drop_last(), gone));
}

/// Dropping more from less leaves less.
proof fn lemma_within_kept(a: Seq<Name>, ga: Set<Name>, b: Seq<Name>, gb: Set<Name>)
    requires
        within(a, b),
        gb.subset_of(ga),
    ensures
        within(kept(a, ga), kept(b, gb)),
    decreases b.len(),
{
    if a.len() > 0 {
        let c = b.drop_last();
        lemma_kept_last(b, gb);
        let kb = kept(b, gb);
        let kc = kept(c, gb);
        if within(a, c) {
            lemma_within_kept(a, ga, c, gb);
            if !gb.contains(b.last()) {
                assert(kb.drop_last() =~= kc);
            }
        } else {
            lemma_within_kept(a.drop_last(), ga, c, gb);
            lemma_kept_last(a, ga);
            let ka = kept(a.drop_last(), ga);
            if gb.contains(b.last()) {
                assert(ga.contains(a.last()));
            } else {
                assert(kb.drop_last() =~= kc);
                if !ga.contains(a.last()) {
                    assert(kept(a, ga).drop_last() =~= ka);
                    assert(kept(a, ga).last() == kb.last());
                }
            }
        }
    }
}

proof fn lemma_within_concat(a: Seq<Name>, b: Seq<Name>, c: Seq<Name>, d: Seq<Name>)
    requires
        within(a, b),
        within(c, d),
    ensures
        within(a + c, b + d),
    decreases d.len(),
{
    if d.len() == 0 {
        assert(a + c =~= a);
        assert(b + d =~= b);
    } else if c.len() == 0 {
        lemma_within_concat(a, b, c, d.drop_last());
        assert((b + d).drop_last() =~= b + d.drop_last());
    } else {
        assert((b + d).drop_last() =~= b + d.drop_last());
        if within(c, d.drop_last()) {
            lemma_within_concat(a, b, c, d.drop_last());
        } else {
            lemma_within_concat(a, b, c.drop_last(), d.drop_last());
            assert((a + c).drop_last() =~= a + c.drop_last());
            assert((a + c).last() == c.last());
            assert((b + d).last() == d.last());
        }
    }
}

/// The columns that are left keep their values.
proof fn lemma_col_shed(f: Seq<Name>, row: Row, gone: Set<Name>, n: Name)
    requires
        row.len() == f.len(),
    ensures
        col(kept(f, gone), shed(row, f, gone), n) == (if gone.contains(n) {
            None
        } else {
            col(f, row, n)
        }),
        kept(f, gone).len() == shed(row, f, gone).len(),
    decreases f.len(),
{
    let at = gone_at(f, gone);
    lemma_without_len(f, row, at);
    if f.len() > 0 {
        let g = f.drop_last();
        let a = row.drop_last();
        let inner = gone_at(g, gone);
        lemma_col_shed(g, a, gone, n);
        lemma_without_ext(g, at, inner);
        lemma_without_ext(a, at, inner);
        let kg = kept(g, gone);
        let sa = shed(a, g, gone);
        lemma_last_place(g, n);
        lemma_last_place(kg, n);
        lemma_without_len(g, a, inner);
        if at.contains(f.len() - 1) {
            assert(kept(f, gone) == kg);
            assert(shed(row, f, gone) == sa);
            if f.last() != n && last_place(g, n) is Some {
                assert(a[last_place(g, n)->Some_0] == row[last_place(g, n)->Some_0]);
            }
        } else {
            assert(kept(f, gone) == kg.push(f.last()));
            assert(shed(row, f, gone) == sa.push(row.last()));
            assert(kg.push(f.last()).drop_last() =~= kg);
            if f.last() == n {
                assert(last_place(kg.push(f.last()), n) == Some(kg.len() as int));
            } else {
                assert(last_place(kg.push(f.last()), n) == last_place(kg, n));
                if last_place(kg, n) is Some {
                    let p = last_place(kg, n)->Some_0;
                    assert(sa.push(row.last())[p] == sa[p]);
                }
                if last_place(g, n) is Some {
                    let p = last_place(g, n)->Some_0;
                    assert(a[p] == row[p]);
                }
            }
        }
    }
}

/// The columns of two rows side by side: the right one counts.
proof fn lemma_col_concat(lf: Seq<Name>, l: Row, rf: Seq<Name>, r: Row, n: Name)
    requires
        l.len() == lf.len(),
        r.len() == rf.len(),
    ensures
        col(lf + rf, l + r, n) == (if last_place(rf, n) is Some {
            col(rf, r, n)
        } else {
            col(lf, l, n)
        }),
    decreases rf.len(),
{
    if rf.len() == 0 {
        assert(lf + rf =~= lf);
        assert(l + r =~= l);
    } else {
        let g = rf.drop_last();
        let b = r.drop_last();
        lemma_col_concat(lf, l, g, b, n);
        assert((lf + rf).drop_last() =~= lf + g);
        lemma_last_place(lf + g, n);
        lemma_last_place(g, n);
        lemma_last_place(lf, n);
        if rf.last() != n {
            if last_place(lf + g, n) is Some {
                let p = last_place(lf + g, n)->Some_0;
                assert((lf + g)[p] == n);
                assert((l + b)[p] == (l + r)[p]);
            }
            if last_place(g, n) is Some {
                let p = last_place(g, n)->Some_0;
                assert(b[p] == r[p]);
            }
        }
    }
}

/// A row for a frame, to speak of its names alone.
spec fn blank(f: Seq<Name>) -> Row {
    Seq::new(f.len(), |i: int| Val::Null)
}

proof fn lemma_place_kept(f: Seq<Name>, gone: Set<Name>, n: Name)
    ensures
        (last_place(kept(f, gone), n) is Some) == (last_place(f, n) is Some && !gone.contains(n)),
{
    lemma_col_shed(f, blank(f), gone, n);
}

proof fn lemma_place_concat(lf: Seq<Name>, rf: Seq<Name>, n: Name)
    ensures
        (last_place(lf + rf, n) is Some) == (last_place(lf, n) is Some || last_place(
            rf,
            n,
        ) is Some),
{
    lemma_col_concat(lf, blank(lf), rf, blank(rf), n);
}

proof fn lemma_alike_kept(
    f: Seq<Name>,
    ga: Set<Name>,
    g: Seq<Name>,
    gb: Set<Name>,
    used: Set<Name>,
)
    requires
        alike(f, g, used),
        same_gone(ga, gb, used),
    ensures
        alike(kept(f, ga), kept(g, gb), used),
{
    assert forall|n: Name| used.contains(n) implies (#[trigger] last_place(
        kept(f, ga),
        n,
    ) is Some) == (last_place(kept(g, gb), n) is Some) by {
        lemma_place_kept(f, ga, n);
        lemma_place_kept(g, gb, n);
        assert(last_place(f, n) is Some == last_place(g, n) is Some);
        assert(ga.contains(n) == gb.contains(n));
    }
}

/// Rows that agree still agree once they are shed.
proof fn lemma_agree_shed(
    f: Seq<Name>,
    a: Row,
    ga: Set<Name>,
    g: Seq<Name>,
    b: Row,
    gb: Set<Name>,
    used: Set<Name>,
)
    requires
        a.len() == f.len(),
        b.len() == g.len(),
        agree(f, a, g, b, used),
        same_gone(ga, gb, used),
    ensures
        agree(kept(f, ga), shed(a, f, ga), kept(g, gb), shed(b, g, gb), used),
{
    assert forall|n: Name| used.contains(n) implies #[trigger] col(
        kept(f, ga),
        shed(a, f, ga),
        n,
    ) == col(kept(g, gb), shed(b, g, gb), n) by {
        lemma_col_shed(f, a, ga, n);
        lemma_col_shed(g, b, gb, n);
        assert(col(f, a, n) == col(g, b, n));
        assert(ga.contains(n) == gb.contains(n));
    }
}

/// Rows that agree on what an expression reads give it one value.
proof fn lemma_eval_like(e: Expr, f: Seq<Name>, a: Row, g: Seq<Name>, b: Row)
    requires
        a.len() == f.len(),
        b.len() == g.len(),
        forall|n: Name| mentions(e, n) ==> #[trigger] col(f, a, n) == col(g, b, n),
    ensures
        eval_named(e, f, a) == eval_named(e, g, b),
{
    let x: Look = by_name(f, a);
    let y: Look = by_name(g, b);
    assert forall|n: Name, s: SourceSpan| mentions(e, n) implies #[trigger] x(n, s) == y(n, s) by {
        lemma_last_place(f, n);
        lemma_last_place(g, n);
        assert(col(f, a, n) == col(g, b, n));
    }
    lemma_eval_agree(e, x, y);
}

proof fn lemma_mention_in(es: Seq<Expr>, i: int, n: Name)
    requires
        0 <= i < es.len(),
        mentions(es[i], n),
    ensures
        mention_any(es, n),
    decreases es.len(),
{
    if i < es.len() - 1 {
        lemma_mention_in(es.drop_last(), i, n);
    }
}

/// Rows that agree on what filters read pass the same filters.
proof fn lemma_holds_like(es: Seq<Expr>, f: Seq<Name>, a: Row, g: Seq<Name>, b: Row)
    requires
        a.len() == f.len(),
        b.len() == g.len(),
        forall|n: Name| mention_any(es, n) ==> #[trigger] col(f, a, n) == col(g, b, n),
    ensures
        holds(es, f, a) == holds(es, g, b),
{
    assert forall|i: int| 0 <= i < es.len() implies true_on(#[trigger] es[i], f, a) == true_on(
        es[i],
        g,
        b,
    ) by {
        assert forall|n: Name| mentions(es[i], n) implies #[trigger] col(f, a, n) == col(g, b, n) by {
            lemma_mention_in(es, i, n);
        }
        lemma_eval_like(es[i], f, a, g, b);
    }
    if holds(es, f, a) {
        assert forall|i: int| 0 <= i < es.len() implies true_on(#[trigger] es[i], g, b) by {
            assert(true_on(es[i], f, a));
        }
    }
    if holds(es, g, b) {
        assert forall|i: int| 0 <= i < es.len() implies true_on(#[trigger] es[i], f, a) by {
            assert(true_on(es[i], g, b));
        }
    }
}

proof fn lemma_fixed_covers(x: InlineFixedRA, y: InlineFixedRA, used: Set<Name>)
    requires
        x.data == y.data,
        x.bindings == y.bindings,
        forall|i: int|
            0 <= i < x.data@.len() ==> (#[trigger] x.data@[i])@.len() == x.bindings@.len(),
        same_gone(name_set(x.to_eliminate@), name_set(y.to_eliminate@), used),
    ensures
        covers(
            x.rows().to_set(),
            RelAlgebra::Fixed(x).out_frame(),
            y.rows().to_set(),
            RelAlgebra::Fixed(y).out_frame(),
            used,
        ),
{
    let f = names(x.bindings@);
    let ga = name_set(x.to_eliminate@);
    let gb = name_set(y.to_eliminate@);
    let ys = y.rows().to_set();
    assert forall|a: Row| #[trigger] x.rows().to_set().contains(a) implies has_like(
        ys,
        kept(f, gb),
        kept(f, ga),
        a,
        used,
    ) by {
        let i = x.rows().index_of(a);
        assert(x.data@[i]@.len() == x.bindings@.len());
        let row = x.data@[i].deep_view();
        assert(agree(f, row, f, row, used));
        lemma_agree_shed(f, row, ga, f, row, gb, used);
        let b = y.rows()[i];
        assert(ys.contains(b));
    }
}

proof fn lemma_filter_covers(
    x: FilteredRA,
    y: FilteredRA,
    used: Set<Name>,
    env: Env,
    delta: Option<usize>,
)
    requires
        x.filters == y.filters,
        covers(
            answer(*x.parent, env, delta),
            x.parent.out_frame(),
            answer(*y.parent, env, delta),
            y.parent.out_frame(),
            used + all_mentioned(x.filters@),
        ),
        all_wide(answer(*x.parent, env, delta), x.parent.out_frame().len() as int),
        all_wide(answer(*y.parent, env, delta), y.parent.out_frame().len() as int),
        same_gone(name_set(x.to_eliminate@), name_set(y.to_eliminate@), used),
    ensures
        covers(
            answer(RelAlgebra::Filter(x), env, delta),
            RelAlgebra::Filter(x).out_frame(),
            answer(RelAlgebra::Filter(y), env, delta),
            RelAlgebra::Filter(y).out_frame(),
            used,
        ),
{
    let f = x.parent.out_frame();
    let g = y.parent.out_frame();
    let ga = name_set(x.to_eliminate@);
    let gb = name_set(y.to_eliminate@);
    let more = used + all_mentioned(x.filters@);
    let xs = answer(RelAlgebra::Filter(x), env, delta);
    let ys = answer(RelAlgebra::Filter(y), env, delta);
    assert forall|a: Row| #[trigger] xs.contains(a) implies has_like(
        ys,
        kept(g, gb),
        kept(f, ga),
        a,
        used,
    ) by {
        let r = choose|r: Row| #[trigger]
            answer(*x.parent, env, delta).contains(r) && just(
                holds(x.filters@, f, r),
                shed(r, f, ga),
            ).contains(a);
        assert(has_like(answer(*y.parent, env, delta), g, f, r, more));
        let s = choose|s: Row| #[trigger]
            answer(*y.parent, env, delta).contains(s) && agree(f, r, g, s, more);
        assert forall|n: Name| mention_any(x.filters@, n) implies #[trigger] col(f, r, n) == col(
            g,
            s,
            n,
        ) by {
            assert(more.contains(n));
        }
        lemma_holds_like(x.filters@, f, r, g, s);
        assert(agree(f, r, g, s, used));
        lemma_agree_shed(f, r, ga, g, s, gb, used);
        let b = shed(s, g, gb);
        assert(just(holds(y.filters@, g, s), b).contains(b));
        assert(ys.contains(b));
    }
}

proof fn lemma_push_agree(
    f: Seq<Name>,
    a: Row,
    g: Seq<Name>,
    b: Row,
    n: Name,
    v: Val,
    used: Set<Name>,
)
    requires
        a.len() == f.len(),
        b.len() == g.len(),
        agree(f, a, g, b, used),
    ensures
        agree(f.push(n), a.push(v), g.push(n), b.push(v), used),
{
    assert forall|m: Name| used.contains(m) implies #[trigger] col(f.push(n), a.push(v), m) == col(
        g.push(n),
        b.push(v),
        m,
    ) by {
        assert(f.push(n) =~= f + seq![n]);
        assert(g.push(n) =~= g + seq![n]);
        assert(a.push(v) =~= a + seq![v]);
        assert(b.push(v) =~= b + seq![v]);
        lemma_col_concat(f, a, seq![n], seq![v], m);
        lemma_col_concat(g, b, seq![n], seq![v], m);
        assert(col(f, a, m) == col(g, b, m));
    }
}

proof fn lemma_unification_covers(
    x: UnificationRA,
    y: UnificationRA,
    used: Set<Name>,
    env: Env,
    delta: Option<usize>,
)
    requires
        x.binding == y.binding,
        x.expr == y.expr,
        x.is_multi == y.is_multi,
        covers(
            answer(*x.parent, env, delta),
            x.parent.out_frame(),
            answer(*y.parent, env, delta),
            y.parent.out_frame(),
            used + mentioned(x.expr),
        ),
        all_wide(answer(*x.parent, env, delta), x.parent.out_frame().len() as int),
        all_wide(answer(*y.parent, env, delta), y.parent.out_frame().len() as int),
        same_gone(name_set(x.to_eliminate@), name_set(y.to_eliminate@), used),
    ensures
        covers(
            answer(RelAlgebra::Unification(x), env, delta),
            RelAlgebra::Unification(x).out_frame(),
            answer(RelAlgebra::Unification(y), env, delta),
            RelAlgebra::Unification(y).out_frame(),
            used,
        ),
{
    let f = x.parent.out_frame();
    let g = y.parent.out_frame();
    let n = x.binding@;
    let ga = name_set(x.to_eliminate@);
    let gb = name_set(y.to_eliminate@);
    let more = used + mentioned(x.expr);
    let xs = answer(RelAlgebra::Unification(x), env, delta);
    let ys = answer(RelAlgebra::Unification(y), env, delta);
    assert forall|a: Row| #[trigger] xs.contains(a) implies has_like(
        ys,
        kept(g.push(n), gb),
        kept(f.push(n), ga),
        a,
        used,
    ) by {
        let r = choose|r: Row| #[trigger]
            answer(*x.parent, env, delta).contains(r) && unified_set(x, f, r).contains(a);
        assert(has_like(answer(*y.parent, env, delta), g, f, r, more));
        let s = choose|s: Row| #[trigger]
            answer(*y.parent, env, delta).contains(s) && agree(f, r, g, s, more);
        assert forall|m: Name| mentions(x.expr, m) implies #[trigger] col(f, r, m) == col(
            g,
            s,
            m,
        ) by {
            assert(more.contains(m));
        }
        lemma_eval_like(x.expr, f, r, g, s);
        assert(agree(f, r, g, s, used));
        let v = eval_named(x.expr, f, r)->Ok_0;
        let w = if x.is_multi {
            let i = choose|i: int|
                0 <= i < (v->List_0).len() && a == without(
                    r.push(#[trigger] (v->List_0)[i]),
                    gone_at(f.push(n), ga),
                );
            (v->List_0)[i]
        } else {
            v
        };
        assert(a == shed(r.push(w), f.push(n), ga));
        lemma_push_agree(f, r, g, s, n, w, used);
        lemma_agree_shed(f.push(n), r.push(w), ga, g.push(n), s.push(w), gb, used);
        let b = shed(s.push(w), g.push(n), gb);
        assert(unified_set(y, g, s).contains(b));
        assert(ys.contains(b));
    }
}

/// The join columns of a row are its columns of those names.
proof fn lemma_key_values(keys: Seq<Name>, frame: Seq<Name>, row: Row, n: int)
    requires
        0 <= n <= keys.len(),
        frame.len() <= usize::MAX,
        forall|i: int| 0 <= i < n ==> last_place(frame, #[trigger] keys[i]) is Some,
    ensures
        project(row, places_of(keys, frame, n)) == Seq::new(
            n as nat,
            |i: int| col(frame, row, keys[i])->Some_0,
        ),
{
    let got = project(row, places_of(keys, frame, n));
    let want = Seq::new(n as nat, |i: int| col(frame, row, keys[i])->Some_0);
    assert forall|i: int| 0 <= i < n implies got[i] == want[i] by {
        lemma_last_place(frame, keys[i]);
    }
    assert(got =~= want);
}

proof fn lemma_fault_free(lk: Seq<Name>, rk: Seq<Name>, lf: Seq<Name>, rf: Seq<Name>, n: int)
    requires
        0 <= n <= lk.len(),
        n <= rk.len(),
    ensures
        key_fault(lk, rk, lf, rf, n) is None == forall|i: int|
            #![trigger lk[i]]
            0 <= i < n ==> last_place(lf, lk[i]) is Some && last_place(rf, rk[i]) is Some,
    decreases n,
{
    if n > 0 {
        lemma_fault_free(lk, rk, lf, rf, n - 1);
        let all = forall|i: int|
            #![trigger lk[i]]
            0 <= i < n ==> last_place(lf, lk[i]) is Some && last_place(rf, rk[i]) is Some;
        if all {
            assert(last_place(lf, lk[n - 1]) is Some);
        }
    }
}

/// Rows that agree on some keys have the same values for them.
proof fn lemma_keys_like(keys: Seq<Name>, f: Seq<Name>, a: Row, g: Seq<Name>, b: Row, n: int)
    requires
        0 <= n <= keys.len(),
        f.len() <= usize::MAX,
        g.len() <= usize::MAX,
        forall|i: int| 0 <= i < n ==> last_place(f, #[trigger] keys[i]) is Some,
        forall|i: int| 0 <= i < n ==> col(f, a, #[trigger] keys[i]) == col(g, b, keys[i]),
    ensures
        project(a, places_of(keys, f, n)) == project(b, places_of(keys, g, n)),
{
    assert forall|i: int| 0 <= i < n implies last_place(g, #[trigger] keys[i]) is Some by {
        assert(last_place(f, keys[i]) is Some);
        assert(col(f, a, keys[i]) == col(g, b, keys[i]));
    }
    lemma_key_values(keys, f, a, n);
    lemma_key_values(keys, g, b, n);
    let va = Seq::new(n as nat, |i: int| col(f, a, keys[i])->Some_0);
    let vb = Seq::new(n as nat, |i: int| col(g, b, keys[i])->Some_0);
    assert forall|i: int| 0 <= i < n implies va[i] == vb[i] by {
        assert(col(f, a, keys[i]) == col(g, b, keys[i]));
    }
    assert(va =~= vb);
}

proof fn lemma_fault_like(x: InnerJoin, y: InnerJoin, lused: Set<Name>, rused: Set<Name>)
    requires
        x.joiner == y.joiner,
        alike(x.left.out_frame(), y.left.out_frame(), lused),
        alike(x.right.out_frame(), y.right.out_frame(), rused),
        name_set(x.joiner.left_keys@).subset_of(lused),
        name_set(x.joiner.right_keys@).subset_of(rused),
        x.fault() is None,
    ensures
        y.fault() is None,
{
    let lk = names(x.joiner.left_keys@);
    let rk = names(x.joiner.right_keys@);
    let n = x.joiner.arity();
    lemma_fault_free(lk, rk, x.left.out_frame(), x.right.out_frame(), n);
    lemma_fault_free(lk, rk, y.left.out_frame(), y.right.out_frame(), n);
    assert forall|i: int| #![trigger lk[i]] 0 <= i < n implies last_place(
        y.left.out_frame(),
        lk[i],
    ) is Some && last_place(y.right.out_frame(), rk[i]) is Some by {
        assert(lk.contains(lk[i]));
        assert(rk.contains(rk[i]));
        assert(name_set(x.joiner.left_keys@).contains(lk[i]));
        assert(name_set(x.joiner.right_keys@).contains(rk[i]));
        assert(last_place(x.left.out_frame(), lk[i]) is Some);
        assert(last_place(x.right.out_frame(), rk[i]) is Some);
    }
}

proof fn lemma_join_covers(
    x: InnerJoin,
    y: InnerJoin,
    used: Set<Name>,
    lused: Set<Name>,
    rused: Set<Name>,
    env: Env,
    delta: Option<usize>,
)
    requires
        x.joiner == y.joiner,
        (x.right is Reorder) == (y.right is Reorder),
        (x.right is NegJoin) == (y.right is NegJoin),
        used.subset_of(lused),
        used.subset_of(rused),
        name_set(x.joiner.left_keys@).subset_of(lused),
        name_set(x.joiner.right_keys@).subset_of(rused),
        alike(x.left.out_frame(), y.left.out_frame(), lused),
        alike(x.right.out_frame(), y.right.out_frame(), rused),
        covers(
            answer(x.left, env, delta),
            x.left.out_frame(),
            answer(y.left, env, delta),
            y.left.out_frame(),
            lused,
        ),
        covers(
            answer(x.right, env, delta),
            x.right.out_frame(),
            answer(y.right, env, delta),
            y.right.out_frame(),
            rused,
        ),
        all_wide(answer(x.left, env, delta), x.left.out_frame().len() as int),
        all_wide(answer(y.left, env, delta), y.left.out_frame().len() as int),
        all_wide(answer(x.right, env, delta), x.right.out_frame().len() as int),
        all_wide(answer(y.right, env, delta), y.right.out_frame().len() as int),
        x.left.out_frame().len() <= usize::MAX,
        y.left.out_frame().len() <= usize::MAX,
        x.right.out_frame().len() <= usize::MAX,
        y.right.out_frame().len() <= usize::MAX,
        same_gone(name_set(x.to_eliminate@), name_set(y.to_eliminate@), used),
    ensures
        covers(
            answer(RelAlgebra::Join(Box::new(x)), env, delta),
            RelAlgebra::Join(Box::new(x)).out_frame(),
            answer(RelAlgebra::Join(Box::new(y)), env, delta),
            RelAlgebra::Join(Box::new(y)).out_frame(),
            used,
        ),
{
    let lf = x.left.out_frame();
    let lg = y.left.out_frame();
    let rf = x.right.out_frame();
    let rg = y.right.out_frame();
    let ga = name_set(x.to_eliminate@);
    let gb = name_set(y.to_eliminate@);
    let lk = names(x.joiner.left_keys@);
    let rk = names(x.joiner.right_keys@);
    let n = x.joiner.arity();
    let la = answer(x.left, env, delta);
    let lb = answer(y.left, env, delta);
    let ra = answer(x.right, env, delta);
    let rb = answer(y.right, env, delta);
    let xs = answer(RelAlgebra::Join(Box::new(x)), env, delta);
    let ys = answer(RelAlgebra::Join(Box::new(y)), env, delta);
    assert forall|a: Row| #[trigger] xs.contains(a) implies has_like(
        ys,
        kept(lg + rg, gb),
        kept(lf + rf, ga),
        a,
        used,
    ) by {
        assert(x.fault() is None);
        lemma_fault_like(x, y, lused, rused);
        let l = choose|l: Row| #[trigger]
            la.contains(l) && joined_set(l, ra, x.shape()).contains(a);
        let r = choose|r: Row| #[trigger]
            ra.contains(r) && keys_match(l, x.shape().lp, r, x.shape().rp) && a == without(
                l + r,
                x.shape().drop,
            );
        assert(has_like(lb, lg, lf, l, lused));
        let m = choose|m: Row| #[trigger] lb.contains(m) && agree(lf, l, lg, m, lused);
        assert(has_like(rb, rg, rf, r, rused));
        let s = choose|s: Row| #[trigger] rb.contains(s) && agree(rf, r, rg, s, rused);
        lemma_fault_free(lk, rk, lf, rf, n);
        assert forall|i: int| 0 <= i < n implies last_place(lf, #[trigger] lk[i]) is Some by {}
        assert forall|i: int| 0 <= i < n implies last_place(rf, #[trigger] rk[i]) is Some by {
            assert(last_place(lf, lk[i]) is Some);
        }
        assert forall|i: int| 0 <= i < n implies col(lf, l, #[trigger] lk[i]) == col(
            lg,
            m,
            lk[i],
        ) by {
            assert(lk.contains(lk[i]));
            assert(name_set(x.joiner.left_keys@).contains(lk[i]));
        }
        assert forall|i: int| 0 <= i < n implies col(rf, r, #[trigger] rk[i]) == col(
            rg,
            s,
            rk[i],
        ) by {
            assert(rk.contains(rk[i]));
            assert(name_set(x.joiner.right_keys@).contains(rk[i]));
        }
        lemma_keys_like(lk, lf, l, lg, m, n);
        lemma_keys_like(rk, rf, r, rg, s, n);
        assert(keys_match(m, y.shape().lp, s, y.shape().rp));
        assert forall|k: Name| used.contains(k) implies #[trigger] col(lf + rf, l + r, k) == col(
            lg + rg,
            m + s,
            k,
        ) by {
            lemma_col_concat(lf, l, rf, r, k);
            lemma_col_concat(lg, m, rg, s, k);
            assert(lused.contains(k) && rused.contains(k));
            assert(col(lf, l, k) == col(lg, m, k));
            assert(col(rf, r, k) == col(rg, s, k));
        }
        lemma_agree_shed(lf + rf, l + r, ga, lg + rg, m + s, gb, used);
        let b = shed(m + s, lg + rg, gb);
        assert(joined_set(m, rb, y.shape()).contains(b));
        assert(ys.contains(b));
    }
}

proof fn lemma_neg_covers(
    x: NegJoin,
    y: NegJoin,
    used: Set<Name>,
    env: Env,
    delta: Option<usize>,
)
    requires
        x.joiner == y.joiner,
        x.right == y.right,
        alike(
            x.left.out_frame(),
            y.left.out_frame(),
            used + name_set(x.joiner.left_keys@),
        ),
        covers(
            answer(x.left, env, delta),
            x.left.out_frame(),
            answer(y.left, env, delta),
            y.left.out_frame(),
            used + name_set(x.joiner.left_keys@),
        ),
        all_wide(answer(x.left, env, delta), x.left.out_frame().len() as int),
        all_wide(answer(y.left, env, delta), y.left.out_frame().len() as int),
        x.left.out_frame().len() <= usize::MAX,
        y.left.out_frame().len() <= usize::MAX,
        same_gone(name_set(x.to_eliminate@), name_set(y.to_eliminate@), used),
    ensures
        covers(
            answer(RelAlgebra::NegJoin(Box::new(x)), env, delta),
            RelAlgebra::NegJoin(Box::new(x)).out_frame(),
            answer(RelAlgebra::NegJoin(Box::new(y)), env, delta),
            RelAlgebra::NegJoin(Box::new(y)).out_frame(),
            used,
        ),
{
    let f = x.left.out_frame();
    let g = y.left.out_frame();
    let rf = x.right.frame();
    let ga = name_set(x.to_eliminate@);
    let gb = name_set(y.to_eliminate@);
    let lk = names(x.joiner.left_keys@);
    let rk = names(x.joiner.right_keys@);
    let n = x.joiner.arity();
    let more = used + name_set(x.joiner.left_keys@);
    let la = answer(x.left, env, delta);
    let lb = answer(y.left, env, delta);
    let xs = answer(RelAlgebra::NegJoin(Box::new(x)), env, delta);
    let ys = answer(RelAlgebra::NegJoin(Box::new(y)), env, delta);
    assert forall|a: Row| #[trigger] xs.contains(a) implies has_like(
        ys,
        kept(g, gb),
        kept(f, ga),
        a,
        used,
    ) by {
        let l = choose|l: Row| #[trigger]
            la.contains(l) && just(
                x.joiner.fault(f, rf) is None && neg_rows(x.right, env) is Ok && unmatched(
                    l,
                    neg_rows(x.right, env)->Ok_0,
                    neg_shape(x),
                ),
                without(l, neg_shape(x).drop),
            ).contains(a);
        assert(has_like(lb, g, f, l, more));
        let m = choose|m: Row| #[trigger] lb.contains(m) && agree(f, l, g, m, more);
        lemma_fault_free(lk, rk, f, rf, n);
        lemma_fault_free(lk, rk, g, rf, n);
        assert forall|i: int| 0 <= i < n implies col(f, l, #[trigger] lk[i]) == col(
            g,
            m,
            lk[i],
        ) by {
            assert(lk.contains(lk[i]));
            assert(more.contains(lk[i]));
        }
        assert forall|i: int| #![trigger lk[i]] 0 <= i < n implies last_place(g, lk[i]) is Some
            && last_place(rf, rk[i]) is Some by {
            assert(last_place(f, lk[i]) is Some);
            assert(col(f, l, lk[i]) == col(g, m, lk[i]));
        }
        lemma_keys_like(lk, f, l, g, m, n);
        let rows = neg_rows(x.right, env)->Ok_0;
        assert(unmatched(m, rows, neg_shape(y))) by {
            assert forall|i: int| 0 <= i < rows.len() implies !keys_match(
                m,
                neg_shape(y).lp,
                #[trigger] rows[i],
                neg_shape(y).rp,
            ) by {
                assert(!keys_match(l, neg_shape(x).lp, rows[i], neg_shape(x).rp));
            }
        }
        assert(agree(f, l, g, m, used));
        lemma_agree_shed(f, l, ga, g, m, gb, used);
        let b = shed(m, g, gb);
        assert(just(
            y.joiner.fault(g, rf) is None && neg_rows(y.right, env) is Ok && unmatched(
                m,
                neg_rows(y.right, env)->Ok_0,
                neg_shape(y),
            ),
            without(m, neg_shape(y).drop),
        ).contains(b));
        assert(ys.contains(b));
    }
}

proof fn lemma_reorder_covers(
    x: ReorderRA,
    y: ReorderRA,
    used: Set<Name>,
    env: Env,
    delta: Option<usize>,
)
    requires
        x.new_order == y.new_order,
        forall|n: Name| #[trigger]
            names(x.new_order@).contains(n) && last_place(x.relation.out_frame(), n) is Some
                ==> used.contains(n),
        covers(
            answer(*x.relation, env, delta),
            x.relation.out_frame(),
            answer(*y.relation, env, delta),
            y.relation.out_frame(),
            used,
        ),
        x.relation.out_frame().len() <= usize::MAX,
        y.relation.out_frame().len() <= usize::MAX,
    ensures
        covers(
            answer(RelAlgebra::Reorder(x), env, delta),
            RelAlgebra::Reorder(x).out_frame(),
            answer(RelAlgebra::Reorder(y), env, delta),
            RelAlgebra::Reorder(y).out_frame(),
            used,
        ),
{
    let f = x.relation.out_frame();
    let g = y.relation.out_frame();
    let order = names(x.new_order@);
    let n = order.len() as int;
    let xs = answer(RelAlgebra::Reorder(x), env, delta);
    let ys = answer(RelAlgebra::Reorder(y), env, delta);
    lemma_sheds_nothing(order);
    assert forall|a: Row| #[trigger] xs.contains(a) implies has_like(ys, order, order, a, used) by {
        let r = choose|r: Row| #[trigger]
            answer(*x.relation, env, delta).contains(r) && just(
                all_placed(order, f),
                project(r, places_of(order, f, n)),
            ).contains(a);
        assert(has_like(answer(*y.relation, env, delta), g, f, r, used));
        let s = choose|s: Row| #[trigger]
            answer(*y.relation, env, delta).contains(s) && agree(f, r, g, s, used);
        assert forall|i: int| 0 <= i < n implies col(f, r, #[trigger] order[i]) == col(
            g,
            s,
            order[i],
        ) by {
            assert(order.contains(order[i]));
            assert(last_place(f, order[i]) is Some);
        }
        assert forall|i: int| 0 <= i < n implies last_place(g, #[trigger] order[i]) is Some by {
            assert(last_place(f, order[i]) is Some);
            assert(col(f, r, order[i]) == col(g, s, order[i]));
        }
        lemma_keys_like(order, f, r, g, s, n);
        assert(just(all_placed(order, g), project(s, places_of(order, g, n))).contains(a));
        assert(ys.contains(a));
        assert(agree(order, a, order, a, used));
    }
}

proof fn lemma_search_covers(
    x: SearchRA,
    y: SearchRA,
    used: Set<Name>,
    env: Env,
    delta: Option<usize>,
)
    requires
        x.kind == y.kind,
        x.index == y.index,
        x.query == y.query,
        x.filter == y.filter,
        x.own_bindings == y.own_bindings,
        covers(
            answer(*x.parent, env, delta),
            x.parent.out_frame(),
            answer(*y.parent, env, delta),
            y.parent.out_frame(),
            used,
        ),
        all_wide(answer(*x.parent, env, delta), x.parent.out_frame().len() as int),
        all_wide(answer(*y.parent, env, delta), y.parent.out_frame().len() as int),
        forall|q: Val, i: int|
            0 <= i < env.indexes@[x.index as int].found(q).len() ==> (
            #[trigger] env.indexes@[x.index as int].found(q)[i]).len() == x.own_bindings@.len(),
        forall|n: Name| #[trigger]
            mentions(x.query, n) && !used.contains(n) ==> last_place(x.parent.out_frame(), n) is None
                && last_place(y.parent.out_frame(), n) is None,
        forall|n: Name| #[trigger]
            mention_any(search_filters(x.filter), n) && !used.contains(n) && last_place(
                names(x.own_bindings@),
                n,
            ) is None ==> last_place(x.parent.out_frame(), n) is None && last_place(
                y.parent.out_frame(),
                n,
            ) is None,
    ensures
        covers(
            answer(RelAlgebra::Search(Box::new(x)), env, delta),
            RelAlgebra::Search(Box::new(x)).out_frame(),
            answer(RelAlgebra::Search(Box::new(y)), env, delta),
            RelAlgebra::Search(Box::new(y)).out_frame(),
            used,
        ),
{
    let f = x.parent.out_frame();
    let g = y.parent.out_frame();
    let own = names(x.own_bindings@);
    let xs = answer(RelAlgebra::Search(Box::new(x)), env, delta);
    let ys = answer(RelAlgebra::Search(Box::new(y)), env, delta);
    lemma_sheds_nothing(f + own);
    lemma_sheds_nothing(g + own);
    assert forall|a: Row| #[trigger] xs.contains(a) implies has_like(
        ys,
        g + own,
        f + own,
        a,
        used,
    ) by {
        let r = choose|r: Row| #[trigger]
            answer(*x.parent, env, delta).contains(r) && searched_set(x, env, r).contains(a);
        assert(has_like(answer(*y.parent, env, delta), g, f, r, used));
        let s = choose|s: Row| #[trigger]
            answer(*y.parent, env, delta).contains(s) && agree(f, r, g, s, used);
        assert forall|n: Name| mentions(x.query, n) implies #[trigger] col(f, r, n) == col(
            g,
            s,
            n,
        ) by {
            if used.contains(n) {
                assert(col(f, r, n) == col(g, s, n));
            }
        }
        lemma_eval_like(x.query, f, r, g, s);
        let q = eval_named(x.query, f, r)->Ok_0;
        let found = env.indexes@[x.index as int].found(q);
        let i = choose|i: int|
            0 <= i < found.len() && a == r + (#[trigger] found[i]) && holds(
                search_filters(x.filter),
                f + own,
                a,
            );
        let t = found[i];
        let b = s + t;
        assert forall|n: Name| mention_any(search_filters(x.filter), n) implies #[trigger] col(
            f + own,
            a,
            n,
        ) == col(g + own, b, n) by {
            lemma_col_concat(f, r, own, t, n);
            lemma_col_concat(g, s, own, t, n);
            if used.contains(n) {
                assert(col(f, r, n) == col(g, s, n));
            }
        }
        lemma_holds_like(search_filters(x.filter), f + own, a, g + own, b);
        assert forall|n: Name| used.contains(n) implies #[trigger] col(f + own, a, n) == col(
            g + own,
            b,
            n,
        ) by {
            lemma_col_concat(f, r, own, t, n);
            lemma_col_concat(g, s, own, t, n);
            assert(col(f, r, n) == col(g, s, n));
        }
        assert(searched_set(y, env, s).contains(b));
        assert(ys.contains(b));
    }
}

proof fn lemma_alike_concat(
    a: Seq<Name>,
    b: Seq<Name>,
    lused: Set<Name>,
    c: Seq<Name>,
    d: Seq<Name>,
    rused: Set<Name>,
    used: Set<Name>,
)
    requires
        alike(a, b, lused),
        alike(c, d, rused),
        used.subset_of(lused),
        used.subset_of(rused),
    ensures
        alike(a + c, b + d, used),
{
    assert forall|n: Name| used.contains(n) implies (#[trigger] last_place(a + c, n) is Some) == (
    last_place(b + d, n) is Some) by {
        lemma_place_concat(a, c, n);
        lemma_place_concat(b, d, n);
        assert(lused.contains(n) && rused.contains(n));
        assert(last_place(a, n) is Some == last_place(b, n) is Some);
        assert(last_place(c, n) is Some == last_place(d, n) is Some);
    }
}

proof fn lemma_alike_less(f: Seq<Name>, g: Seq<Name>, more: Set<Name>, used: Set<Name>)
    requires
        alike(f, g, more),
        used.subset_of(more),
    ensures
        alike(f, g, used),
{
}

proof fn lemma_self(p: RelAlgebra, used: Set<Name>, env: Env, delta: Option<usize>)
    ensures
        within(p.out_frame(), p.out_frame()),
        alike(p.out_frame(), p.out_frame(), used),
        covers(answer(p, env, delta), p.out_frame(), answer(p, env, delta), p.out_frame(), used),
{
    let f = p.out_frame();
    let xs = answer(p, env, delta);
    lemma_within_self(f);
    assert forall|a: Row| #[trigger] xs.contains(a) implies has_like(xs, f, f, a, used) by {
        assert(agree(f, a, f, a, used));
    }
}

proof fn lemma_marked(p: Set<Name>, f: Seq<Name>, used: Set<Name>)
    ensures
        same_gone(p, p + unused(f, used), used),
        same_gone(p + unused(f, used), p, used),
        p.subset_of(p + unused(f, used)),
{
}

proof fn lemma_place_found(f: Seq<Name>, n: Name)
    ensures
        (last_place(f, n) is Some) == f.contains(n),
{
    lemma_last_place(f, n);
}

/// What a search reads is used, or its input does not have it.
proof fn lemma_search_reads(x: SearchRA, g: Seq<Name>, used: Set<Name>)
    requires
        told(RelAlgebra::Search(Box::new(x)), used),
        forall|n: Name| #[trigger] g.contains(n) ==> x.parent.out_frame().contains(n),
    ensures
        forall|n: Name| #[trigger]
            mentions(x.query, n) && !used.contains(n) ==> last_place(x.parent.out_frame(), n) is None
                && last_place(g, n) is None,
        forall|n: Name| #[trigger]
            mention_any(search_filters(x.filter), n) && !used.contains(n) && last_place(
                names(x.own_bindings@),
                n,
            ) is None ==> last_place(x.parent.out_frame(), n) is None && last_place(g, n) is None,
{
    let f = x.parent.out_frame();
    let own = names(x.own_bindings@);
    assert forall|n: Name| #[trigger] mentions(x.query, n) && !used.contains(n) implies last_place(
        f,
        n,
    ) is None && last_place(g, n) is None by {
        lemma_place_found(f, n);
        lemma_place_found(g, n);
        assert(!f.contains(n));
    }
    assert forall|n: Name| #[trigger]
        mention_any(search_filters(x.filter), n) && !used.contains(n) && last_place(
            own,
            n,
        ) is None implies last_place(f, n) is None && last_place(g, n) is None by {
        lemma_place_found(f, n);
        lemma_place_found(g, n);
        lemma_place_found(own, n);
        assert(!f.contains(n));
    }
}

/// What elimination makes of a plan: fewer columns, in the same order, and
/// the same rows as far as they are used.
#[verifier::rlimit(40)]
#[verifier::spinoff_prover]
proof fn lemma_trimmed(
    p: RelAlgebra,
    used: Set<Name>,
    q: RelAlgebra,
    env: Env,
    delta: Option<usize>,
)
    requires
        env.stores.wf(),
        p.fits(env),
        counted(p),
        told(p, used),
        trimmed(p, used, q),
    ensures
        q.fits(env),
        within(q.out_frame(), p.out_frame()),
        alike(p.out_frame(), q.out_frame(), used),
        covers(answer(p, env, delta), p.out_frame(), answer(q, env, delta), q.out_frame(), used),
        covers(answer(q, env, delta), q.out_frame(), answer(p, env, delta), p.out_frame(), used),
        (p is Reorder) == (q is Reorder),
        (p is NegJoin) == (q is NegJoin),
    decreases p,
{
    match p {
        RelAlgebra::Fixed(x) => {
            let y = q->Fixed_0;
            lemma_marked(p.gone(), p.frame(), used);
            lemma_fixed_covers(x, y, used);
            lemma_fixed_covers(y, x, used);
            lemma_within_self(p.frame());
            lemma_within_kept(p.frame(), q.gone(), p.frame(), p.gone());
            lemma_alike_kept(p.frame(), p.gone(), p.frame(), q.gone(), used);
        },
        RelAlgebra::Filter(x) => {
            let y = q->Filter_0;
            let more = used + all_mentioned(x.filters@);
            let f = x.parent.out_frame();
            let g = y.parent.out_frame();
            lemma_trimmed(*x.parent, more, *y.parent, env, delta);
            lemma_answer_width(*x.parent, env, delta);
            lemma_answer_width(*y.parent, env, delta);
            lemma_marked(p.gone(), x.parent.frame(), used);
            lemma_filter_covers(x, y, used, env, delta);
            lemma_filter_covers(y, x, used, env, delta);
            lemma_within_kept(g, q.gone(), f, p.gone());
            lemma_alike_less(f, g, more, used);
            lemma_alike_kept(f, p.gone(), g, q.gone(), used);
        },
        RelAlgebra::Unification(x) => {
            let y = q->Unification_0;
            let more = used + mentioned(x.expr);
            let f = x.parent.out_frame();
            let g = y.parent.out_frame();
            let own = seq![x.binding@];
            lemma_trimmed(*x.parent, more, *y.parent, env, delta);
            lemma_answer_width(*x.parent, env, delta);
            lemma_answer_width(*y.parent, env, delta);
            lemma_marked(p.gone(), x.parent.frame(), used);
            lemma_unification_covers(x, y, used, env, delta);
            lemma_unification_covers(y, x, used, env, delta);
            lemma_within_self(own);
            lemma_within_concat(g, f, own, own);
            assert(f.push(x.binding@) =~= f + own);
            assert(g.push(x.binding@) =~= g + own);
            lemma_within_kept(g + own, q.gone(), f + own, p.gone());
            lemma_alike_concat(f, g, more, own, own, used, used);
            lemma_alike_kept(f + own, p.gone(), g + own, q.gone(), used);
        },
        RelAlgebra::Join(x) => {
            let y = q->Join_0;
            let lused = used + name_set(x.joiner.left_keys@) + all_mentioned(
                store_filters(x.right),
            );
            let rused = used + name_set(x.joiner.right_keys@);
            let lf = x.left.out_frame();
            let lg = y.left.out_frame();
            let rf = x.right.out_frame();
            let rg = y.right.out_frame();
            lemma_trimmed(x.left, lused, y.left, env, delta);
            lemma_trimmed(x.right, rused, y.right, env, delta);
            lemma_answer_width(x.left, env, delta);
            lemma_answer_width(y.left, env, delta);
            lemma_answer_width(x.right, env, delta);
            lemma_answer_width(y.right, env, delta);
            lemma_within(lg, lf);
            lemma_within(rg, rf);
            lemma_marked(p.gone(), p.frame(), used);
            lemma_join_covers(*x, *y, used, lused, rused, env, delta);
            lemma_join_covers(*y, *x, used, lused, rused, env, delta);
            lemma_within_concat(lg, lf, rg, rf);
            lemma_within_kept(lg + rg, q.gone(), lf + rf, p.gone());
            lemma_alike_concat(lf, lg, lused, rf, rg, rused, used);
            lemma_alike_kept(lf + rf, p.gone(), lg + rg, q.gone(), used);
        },
        RelAlgebra::NegJoin(x) => {
            let y = q->NegJoin_0;
            let more = used + name_set(x.joiner.left_keys@);
            let f = x.left.out_frame();
            let g = y.left.out_frame();
            lemma_trimmed(x.left, more, y.left, env, delta);
            lemma_answer_width(x.left, env, delta);
            lemma_answer_width(y.left, env, delta);
            lemma_within(g, f);
            lemma_marked(p.gone(), p.frame(), used);
            lemma_neg_covers(*x, *y, used, env, delta);
            lemma_neg_covers(*y, *x, used, env, delta);
            lemma_within_kept(g, q.gone(), f, p.gone());
            lemma_alike_less(f, g, more, used);
            lemma_alike_kept(f, p.gone(), g, q.gone(), used);
        },
        RelAlgebra::Reorder(x) => {
            let y = q->Reorder_0;
            let f = x.relation.out_frame();
            let g = y.relation.out_frame();
            lemma_trimmed(*x.relation, used, *y.relation, env, delta);
            lemma_within(g, f);
            assert forall|n: Name| #[trigger]
                names(x.new_order@).contains(n) && last_place(f, n) is Some implies used.contains(
                n,
            ) by {
                lemma_place_found(f, n);
            }
            assert forall|n: Name| #[trigger]
                names(x.new_order@).contains(n) && last_place(g, n) is Some implies used.contains(
                n,
            ) by {
                lemma_place_found(g, n);
                assert(f.contains(n));
            }
            lemma_reorder_covers(x, y, used, env, delta);
            lemma_reorder_covers(y, x, used, env, delta);
            lemma_within_self(p.out_frame());
        },
        RelAlgebra::Search(x) => {
            let y = q->Search_0;
            let f = x.parent.out_frame();
            let g = y.parent.out_frame();
            let own = names(x.own_bindings@);
            lemma_trimmed(*x.parent, used, *y.parent, env, delta);
            lemma_answer_width(*x.parent, env, delta);
            lemma_answer_width(*y.parent, env, delta);
            lemma_within(g, f);
            lemma_search_reads(*x, g, used);
            lemma_search_covers(*x, *y, used, env, delta);
            lemma_search_covers(*y, *x, used, env, delta);
            lemma_sheds_nothing(f + own);
            lemma_sheds_nothing(g + own);
            lemma_within_self(own);
            lemma_within_concat(g, f, own, own);
            lemma_alike_concat(f, g, used, own, own, used, used);
        },
        _ => {
            lemma_self(p, used, env, delta);
        },
    }
}

proof fn lemma_named_like(f: Seq<Name>, a: Row, g: Seq<Name>, b: Row, used: Set<Name>)
    requires
        agree(f, a, g, b, used),
    ensures
        named(f, a, used) == named(g, b, used),
{
    let x = named(f, a, used);
    let y = named(g, b, used);
    assert forall|n: Name| x.dom().contains(n) == y.dom().contains(n) by {
        if used.contains(n) {
            assert(col(f, a, n) == col(g, b, n));
        }
    }
    assert(x.dom() =~= y.dom());
    assert forall|n: Name| #[trigger] x.dom().contains(n) implies x[n] == y[n] by {
        assert(col(f, a, n) == col(g, b, n));
    }
    assert(x =~= y);
}

proof fn lemma_named_covered(
    xs: Set<Row>,
    f: Seq<Name>,
    ys: Set<Row>,
    g: Seq<Name>,
    used: Set<Name>,
)
    requires
        covers(xs, f, ys, g, used),
    ensures
        named_rows(xs, f, used).subset_of(named_rows(ys, g, used)),
{
    assert forall|m: Map<Name, Val>| named_rows(xs, f, used).contains(m) implies named_rows(
        ys,
        g,
        used,
    ).contains(m) by {
        let a = choose|a: Row| #[trigger] xs.contains(a) && m == named(f, a, used);
        assert(has_like(ys, g, f, a, used));
        let b = choose|b: Row| #[trigger] ys.contains(b) && agree(f, a, g, b, used);
        lemma_named_like(f, a, g, b, used);
    }
}

/// Elimination keeps the answer on the columns that are used, and leaves the
/// columns it does not shed in their order.
pub proof fn law_elimination_keeps_the_answer(
    p: RelAlgebra,
    used: Set<Name>,
    q: RelAlgebra,
    env: Env,
    delta: Option<usize>,
)
    requires
        env.stores.wf(),
        p.fits(env),
        counted(p),
        told(p, used),
        trimmed(p, used, q),
    ensures
        q.fits(env),
        within(q.out_frame(), p.out_frame()),
        forall|n: Name|
            used.contains(n) ==> (#[trigger] p.out_frame().contains(n)) == q.out_frame().contains(
                n,
            ),
        named_rows(answer(q, env, delta), q.out_frame(), used) == named_rows(
            answer(p, env, delta),
            p.out_frame(),
            used,
        ),
{
    let f = p.out_frame();
    let g = q.out_frame();
    let xs = answer(p, env, delta);
    let ys = answer(q, env, delta);
    lemma_trimmed(p, used, q, env, delta);
    assert forall|n: Name| used.contains(n) implies (#[trigger] f.contains(n)) == g.contains(n) by {
        lemma_last_place(f, n);
        lemma_last_place(g, n);
        assert(last_place(f, n) is Some == last_place(g, n) is Some);
    }
    lemma_named_covered(xs, f, ys, g, used);
    lemma_named_covered(ys, g, xs, f, used);
    assert(named_rows(ys, g, used) =~= named_rows(xs, f, used));
}

/// After elimination a filter, a join, a negation and inline rows hand on
/// only columns that are used.
pub proof fn law_elimination_sheds(p: RelAlgebra, used: Set<Name>, q: RelAlgebra, n: Name)
    requires
        trimmed(p, used, q),
        p is Fixed || p is Join || p is NegJoin || p is Filter,
        p.frame().contains(n),
        !used.contains(n),
    ensures
        !q.out_frame().contains(n),
{
    lemma_place_kept(q.frame(), q.gone(), n);
    lemma_last_place(q.out_frame(), n);
    match p {
        RelAlgebra::Filter(x) => {
            let f = x.parent.frame();
            lemma_place_kept(f, x.parent.gone(), n);
            lemma_last_place(f, n);
            lemma_last_place(p.frame(), n);
            assert(unused(f, used).contains(n));
        },
        _ => {
            assert(unused(p.frame(), used).contains(n));
        },
    }
}

} // verus!
