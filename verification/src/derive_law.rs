//! What the derivations of a rule are: one for each way to give its variables
//! values so that its body holds.

use vstd::prelude::*;
use crate::epoch::{lemma_enumerable, ordered};
use crate::model_body::{
    absent, all_continued, all_ranged, continued, derivations, is_ranged, is_safe,
    lemma_sifted_ranged, lemma_sifted_within, positive_matches, read, sifted_matches,
    DerivationModel, Partial, World,
};
use crate::names::Name;
use crate::program::{LiteralModel, TermModel};
use crate::unify::{
    all_bound, extends, grounded, lemma_unified, lemma_unified_complete, occurs, unified, value_of,
};
use crate::value::{Row, Val};

verus! {

/// Whether the first `k` literals hold under values of the variables. A
/// literal reads the delta of its relation if the delta is asked for at its
/// place.
pub open spec fn holds_to(
    w: World,
    body: Seq<LiteralModel>,
    delta_from: Option<int>,
    theta: Map<Name, Val>,
    k: int,
) -> bool {
    forall|j: int|
        0 <= j < k ==> (if (#[trigger] body[j]).negated {
            !read(w, body[j].rel, false).contains(grounded(body[j].args, theta))
        } else {
            read(w, body[j].rel, delta_from == Some(j)).contains(grounded(body[j].args, theta))
        })
}

/// Whether a body holds under values of its variables.
pub open spec fn holds_under(
    w: World,
    body: Seq<LiteralModel>,
    delta_from: Option<int>,
    theta: Map<Name, Val>,
) -> bool {
    &&& forall|x: Name| is_ranged(body, x) ==> #[trigger] theta.contains_key(x)
    &&& holds_to(w, body, delta_from, theta, body.len() as int)
}

/// The rows that the positive literals among the first `k` are under values
/// of the variables, in body order.
pub open spec fn premises_under(body: Seq<LiteralModel>, theta: Map<Name, Val>, k: int) -> Seq<Row>
    decreases k,
{
    if k <= 0 {
        Seq::empty()
    } else if body[k - 1].negated {
        premises_under(body, theta, k - 1)
    } else {
        premises_under(body, theta, k - 1).push(grounded(body[k - 1].args, theta))
    }
}

/// Whether every relation that a body reads has finitely many rows at the
/// place where it reads it.
pub open spec fn finite_reads(w: World, body: Seq<LiteralModel>, delta_from: Option<int>) -> bool {
    forall|j: int|
        0 <= j < body.len() ==> read(w, (#[trigger] body[j]).rel, delta_from == Some(j)).finite()
}

proof fn lemma_grounded_extends(args: Seq<TermModel>, m: Map<Name, Val>, more: Map<Name, Val>)
    requires
        all_bound(args, m),
        extends(more, m),
    ensures
        grounded(args, more) == grounded(args, m),
{
    assert forall|i: int| 0 <= i < args.len() implies value_of(args[i], more) == value_of(
        args[i],
        m,
    ) by {
        match args[i] {
            TermModel::Var(x) => {
                assert(occurs(args, x));
                assert(m.contains_key(x));
            },
            _ => {},
        }
    }
    assert(grounded(args, more) =~= grounded(args, m));
}

proof fn lemma_continued_from(m: Partial, l: LiteralModel, rows: Seq<Row>, want: bool, i: int) -> (r:
    int)
    requires
        0 <= i < continued(m, l, rows, want).len(),
    ensures
        0 <= r < rows.len(),
        unified(l.args, rows[r], m.bound) == Some(continued(m, l, rows, want)[i].bound),
        continued(m, l, rows, want)[i].premises == (if want {
            m.premises.push(rows[r])
        } else {
            m.premises
        }),
    decreases rows.len(),
{
    let front = continued(m, l, rows.drop_last(), want);
    if i < front.len() {
        lemma_continued_from(m, l, rows.drop_last(), want, i)
    } else {
        rows.len() - 1
    }
}

proof fn lemma_continued_has(m: Partial, l: LiteralModel, rows: Seq<Row>, want: bool, r: int) -> (i:
    int)
    requires
        0 <= r < rows.len(),
        unified(l.args, rows[r], m.bound) is Some,
    ensures
        0 <= i < continued(m, l, rows, want).len(),
        unified(l.args, rows[r], m.bound) == Some(continued(m, l, rows, want)[i].bound),
    decreases rows.len(),
{
    let front = continued(m, l, rows.drop_last(), want);
    if r < rows.len() - 1 {
        let i = lemma_continued_has(m, l, rows.drop_last(), want, r);
        assert(rows.drop_last()[r] == rows[r]);
        assert(continued(m, l, rows, want)[i] == front[i]);
        i
    } else {
        front.len() as int
    }
}

proof fn lemma_all_continued_from(
    ms: Seq<Partial>,
    l: LiteralModel,
    rows: Seq<Row>,
    want: bool,
    i: int,
) -> (r: (int, int))
    requires
        0 <= i < all_continued(ms, l, rows, want).len(),
    ensures
        0 <= r.0 < ms.len(),
        0 <= r.1 < rows.len(),
        unified(l.args, rows[r.1], ms[r.0].bound) == Some(
            all_continued(ms, l, rows, want)[i].bound,
        ),
        all_continued(ms, l, rows, want)[i].premises == (if want {
            ms[r.0].premises.push(rows[r.1])
        } else {
            ms[r.0].premises
        }),
    decreases ms.len(),
{
    let front = all_continued(ms.drop_last(), l, rows, want);
    if i < front.len() {
        lemma_all_continued_from(ms.drop_last(), l, rows, want, i)
    } else {
        let r = lemma_continued_from(ms.last(), l, rows, want, i - front.len());
        (ms.len() - 1, r)
    }
}

proof fn lemma_all_continued_has(
    ms: Seq<Partial>,
    l: LiteralModel,
    rows: Seq<Row>,
    want: bool,
    a: int,
    r: int,
) -> (i: int)
    requires
        0 <= a < ms.len(),
        0 <= r < rows.len(),
        unified(l.args, rows[r], ms[a].bound) is Some,
    ensures
        0 <= i < all_continued(ms, l, rows, want).len(),
        unified(l.args, rows[r], ms[a].bound) == Some(all_continued(ms, l, rows, want)[i].bound),
    decreases ms.len(),
{
    let front = all_continued(ms.drop_last(), l, rows, want);
    if a < ms.len() - 1 {
        let i = lemma_all_continued_has(ms.drop_last(), l, rows, want, a, r);
        assert(ms.drop_last()[a] == ms[a]);
        assert(all_continued(ms, l, rows, want)[i] == front[i]);
        i
    } else {
        let i = lemma_continued_has(ms.last(), l, rows, want, r);
        front.len() + i
    }
}

/// A match makes the positive literals rows of their relations, and its
/// premises are those rows.
spec fn matched_to(
    w: World,
    body: Seq<LiteralModel>,
    delta_from: Option<int>,
    want: bool,
    m: Partial,
    k: int,
) -> bool {
    &&& forall|j: int|
        0 <= j < k && !(#[trigger] body[j]).negated ==> all_bound(body[j].args, m.bound) && read(
            w,
            body[j].rel,
            delta_from == Some(j),
        ).contains(grounded(body[j].args, m.bound))
    &&& m.premises == (if want {
        premises_under(body, m.bound, k)
    } else {
        Seq::empty()
    })
}

proof fn lemma_premises_extend(
    body: Seq<LiteralModel>,
    m: Map<Name, Val>,
    more: Map<Name, Val>,
    k: int,
)
    requires
        0 <= k <= body.len(),
        extends(more, m),
        forall|j: int| 0 <= j < k && !(#[trigger] body[j]).negated ==> all_bound(body[j].args, m),
    ensures
        premises_under(body, more, k) == premises_under(body, m, k),
    decreases k,
{
    if k > 0 {
        lemma_premises_extend(body, m, more, k - 1);
        if !body[k - 1].negated {
            lemma_grounded_extends(body[k - 1].args, m, more);
        }
    }
}

proof fn lemma_positive_sound(
    w: World,
    body: Seq<LiteralModel>,
    delta_from: Option<int>,
    want: bool,
    k: int,
    i: int,
)
    requires
        0 <= k <= body.len(),
        finite_reads(w, body, delta_from),
        0 <= i < positive_matches(w, body, delta_from, want, k).len(),
    ensures
        matched_to(
            w,
            body,
            delta_from,
            want,
            positive_matches(w, body, delta_from, want, k)[i],
            k,
        ),
    decreases k,
{
    if k > 0 {
        let prev = positive_matches(w, body, delta_from, want, k - 1);
        let l = body[k - 1];
        let m = positive_matches(w, body, delta_from, want, k)[i];
        if l.negated {
            lemma_positive_sound(w, body, delta_from, want, k - 1, i);
        } else {
            let set = read(w, l.rel, delta_from == Some(k - 1));
            assert(read(w, body[k - 1].rel, delta_from == Some(k - 1)).finite());
            lemma_enumerable(set);
            let rows = ordered(set);
            let from = lemma_all_continued_from(prev, l, rows, want, i);
            let old_m = prev[from.0];
            lemma_positive_sound(w, body, delta_from, want, k - 1, from.0);
            lemma_unified(l.args, rows[from.1], old_m.bound);
            assert(rows.to_set().contains(rows[from.1]));
            assert(extends(m.bound, old_m.bound));
            assert(all_bound(l.args, m.bound));
            assert forall|j: int| 0 <= j < k && !(#[trigger] body[j]).negated implies all_bound(
                body[j].args,
                m.bound,
            ) && read(w, body[j].rel, delta_from == Some(j)).contains(
                grounded(body[j].args, m.bound),
            ) by {
                if j < k - 1 {
                    assert(all_bound(body[j].args, old_m.bound));
                    lemma_grounded_extends(body[j].args, old_m.bound, m.bound);
                }
            }
            lemma_premises_extend(body, old_m.bound, m.bound, k - 1);
        }
    }
}

proof fn lemma_positive_complete(
    w: World,
    body: Seq<LiteralModel>,
    delta_from: Option<int>,
    want: bool,
    theta: Map<Name, Val>,
    k: int,
) -> (i: int)
    requires
        0 <= k <= body.len(),
        finite_reads(w, body, delta_from),
        holds_under(w, body, delta_from, theta),
    ensures
        0 <= i < positive_matches(w, body, delta_from, want, k).len(),
        extends(theta, positive_matches(w, body, delta_from, want, k)[i].bound),
    decreases k,
{
    if k <= 0 {
        0
    } else {
        let a = lemma_positive_complete(w, body, delta_from, want, theta, k - 1);
        let prev = positive_matches(w, body, delta_from, want, k - 1);
        let l = body[k - 1];
        if l.negated {
            a
        } else {
            let set = read(w, l.rel, delta_from == Some(k - 1));
            assert(read(w, body[k - 1].rel, delta_from == Some(k - 1)).finite());
            lemma_enumerable(set);
            let rows = ordered(set);
            let row = grounded(l.args, theta);
            assert(set.contains(grounded(body[k - 1].args, theta)));
            assert(rows.to_set().contains(row));
            let r = choose|r: int| 0 <= r < rows.len() && rows[r] == row;
            assert forall|x: Name| occurs(l.args, x) implies #[trigger] theta.contains_key(x) by {
                assert(!body[k - 1].negated && occurs(body[k - 1].args, x));
                assert(is_ranged(body, x));
            }
            lemma_unified_complete(l.args, row, prev[a].bound, theta);
            lemma_all_continued_has(prev, l, rows, want, a, r)
        }
    }
}

proof fn lemma_sifted_sound(
    w: World,
    body: Seq<LiteralModel>,
    delta_from: Option<int>,
    want: bool,
    k: int,
    i: int,
)
    requires
        0 <= k <= body.len(),
        0 <= i < sifted_matches(w, body, delta_from, want, k).len(),
    ensures
        forall|j: int|
            0 <= j < k && (#[trigger] body[j]).negated ==> absent(
                w,
                body[j],
                sifted_matches(w, body, delta_from, want, k)[i],
            ),
    decreases k,
{
    if k > 0 {
        let prev = sifted_matches(w, body, delta_from, want, k - 1);
        let l = body[k - 1];
        let ms = sifted_matches(w, body, delta_from, want, k);
        if l.negated {
            let keep = |m: Partial| absent(w, l, m);
            prev.lemma_filter_pred(keep, i);
            assert(prev.filter(keep).contains(ms[i]));
            prev.lemma_filter_contains_rev(keep, ms[i]);
            let j = choose|j: int| 0 <= j < prev.len() && prev[j] == ms[i];
            lemma_sifted_sound(w, body, delta_from, want, k - 1, j);
        } else {
            lemma_sifted_sound(w, body, delta_from, want, k - 1, i);
        }
    }
}

proof fn lemma_sifted_complete(
    w: World,
    body: Seq<LiteralModel>,
    delta_from: Option<int>,
    want: bool,
    m: Partial,
    k: int,
)
    requires
        0 <= k <= body.len(),
        positive_matches(w, body, delta_from, want, body.len() as int).contains(m),
        forall|j: int| 0 <= j < k && (#[trigger] body[j]).negated ==> absent(w, body[j], m),
    ensures
        sifted_matches(w, body, delta_from, want, k).contains(m),
    decreases k,
{
    if k > 0 {
        let prev = sifted_matches(w, body, delta_from, want, k - 1);
        let l = body[k - 1];
        lemma_sifted_complete(w, body, delta_from, want, m, k - 1);
        if l.negated {
            let keep = |q: Partial| absent(w, l, q);
            let j = choose|j: int| 0 <= j < prev.len() && prev[j] == m;
            assert(absent(w, body[k - 1], m));
            prev.lemma_filter_contains(keep, j);
        }
    }
}

/// Each derivation of a safe rule comes from values of its variables under
/// which its body holds: they make the head, and the premises if they were
/// asked for.
pub proof fn law_derivations_sound(
    w: World,
    head: Seq<TermModel>,
    body: Seq<LiteralModel>,
    delta_from: Option<int>,
    want: bool,
    i: int,
)
    requires
        is_safe(head, body),
        finite_reads(w, body, delta_from),
        0 <= i < derivations(w, head, body, delta_from, want).len(),
    ensures
        exists|theta: Map<Name, Val>| #[trigger]
            holds_under(w, body, delta_from, theta) && derivations(
                w,
                head,
                body,
                delta_from,
                want,
            )[i] == (DerivationModel {
                head: grounded(head, theta),
                premises: if want {
                    premises_under(body, theta, body.len() as int)
                } else {
                    Seq::empty()
                },
            }),
{
    let n = body.len() as int;
    let m = sifted_matches(w, body, delta_from, want, n)[i];
    lemma_sifted_within(w, body, delta_from, want, n, i);
    lemma_sifted_sound(w, body, delta_from, want, n, i);
    let all = positive_matches(w, body, delta_from, want, n);
    let a = choose|a: int| 0 <= a < all.len() && all[a] == m;
    lemma_positive_sound(w, body, delta_from, want, n, a);
    let theta = m.bound;
    assert forall|x: Name| is_ranged(body, x) implies #[trigger] theta.contains_key(x) by {
        lemma_sifted_ranged(w, body, delta_from, want, n, i, x);
    }
    assert forall|j: int| 0 <= j < n implies (if (#[trigger] body[j]).negated {
        !read(w, body[j].rel, false).contains(grounded(body[j].args, theta))
    } else {
        read(w, body[j].rel, delta_from == Some(j)).contains(grounded(body[j].args, theta))
    }) by {
        if body[j].negated {
            assert(absent(w, body[j], m));
        }
    }
    assert(holds_under(w, body, delta_from, theta));
}

/// Whenever the body of a safe rule holds under values of its variables, the
/// head they make is derived.
pub proof fn law_derivations_complete(
    w: World,
    head: Seq<TermModel>,
    body: Seq<LiteralModel>,
    delta_from: Option<int>,
    want: bool,
    theta: Map<Name, Val>,
)
    requires
        is_safe(head, body),
        finite_reads(w, body, delta_from),
        holds_under(w, body, delta_from, theta),
    ensures
        exists|i: int|
            0 <= i < derivations(w, head, body, delta_from, want).len() && (#[trigger] derivations(
                w,
                head,
                body,
                delta_from,
                want,
            )[i]).head == grounded(head, theta),
{
    let n = body.len() as int;
    let a = lemma_positive_complete(w, body, delta_from, want, theta, n);
    let all = positive_matches(w, body, delta_from, want, n);
    let m = all[a];
    assert(all.contains(m));
    lemma_sifted_complete(w, body, delta_from, want, m, 0);
    let s = choose|s: int|
        0 <= s < sifted_matches(w, body, delta_from, want, 0).len() && sifted_matches(
            w,
            body,
            delta_from,
            want,
            0,
        )[s] == m;
    assert forall|args: Seq<TermModel>| #[trigger] all_ranged(body, args) implies grounded(
        args,
        theta,
    ) == grounded(args, m.bound) by {
        assert forall|x: Name| occurs(args, x) implies #[trigger] m.bound.contains_key(x) by {
            assert(is_ranged(body, x));
            lemma_sifted_ranged(w, body, delta_from, want, 0, s, x);
        }
        lemma_grounded_extends(args, m.bound, theta);
    }
    assert forall|j: int| 0 <= j < n && (#[trigger] body[j]).negated implies absent(
        w,
        body[j],
        m,
    ) by {
        assert(all_ranged(body, body[j].args));
    }
    lemma_sifted_complete(w, body, delta_from, want, m, n);
    let ms = sifted_matches(w, body, delta_from, want, n);
    let i = choose|i: int| 0 <= i < ms.len() && ms[i] == m;
    assert(all_ranged(body, head));
    assert(derivations(w, head, body, delta_from, want)[i].head == grounded(head, theta));
}

} // verus!
