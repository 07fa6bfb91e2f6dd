//! Levels of a dependency graph: the least ones that respect every arc.

use vstd::prelude::*;

verus! {

/// An arc: the level of `head` is at least that of `dep`, and above it where
/// the arc is forcing.
#[derive(Clone, Copy, Debug, PartialEq, Eq, Structural)]
pub struct Arc {
    pub head: usize,
    pub dep: usize,
    pub forcing: bool,
}

/// How far an arc lifts its head above what it depends on.
pub open spec fn lift(a: Arc) -> nat {
    if a.forcing {
        1
    } else {
        0
    }
}

/// Arcs between the first `n` places.
pub open spec fn arcs_within(arcs: Seq<Arc>, n: int) -> bool {
    forall|i: int| 0 <= i < arcs.len() ==> (#[trigger] arcs[i]).head < n && arcs[i].dep < n
}

/// Whether levels respect every arc.
pub open spec fn respects(s: Seq<nat>, arcs: Seq<Arc>) -> bool {
    forall|i: int|
        0 <= i < arcs.len() ==> s[(#[trigger] arcs[i]).head as int] >= s[arcs[i].dep as int] + lift(
            arcs[i],
        )
}

/// Whether some levels respect every arc.
pub open spec fn levelled(n: nat, arcs: Seq<Arc>) -> bool {
    exists|t: Seq<nat>| t.len() == n && #[trigger] respects(t, arcs)
}

/// Levels raised as far as one arc asks.
pub open spec fn raised(s: Seq<nat>, a: Arc) -> Seq<nat> {
    if s[a.head as int] < s[a.dep as int] + lift(a) {
        s.update(a.head as int, s[a.dep as int] + lift(a))
    } else {
        s
    }
}

/// Levels raised arc by arc, each arc once.
pub open spec fn one_round(s: Seq<nat>, arcs: Seq<Arc>) -> Seq<nat>
    decreases arcs.len(),
{
    if arcs.len() == 0 {
        s
    } else {
        raised(one_round(s, arcs.drop_last()), arcs.last())
    }
}

/// Levels after some rounds.
pub open spec fn rounds(s: Seq<nat>, arcs: Seq<Arc>, k: nat) -> Seq<nat>
    decreases k,
{
    if k == 0 {
        s
    } else {
        one_round(rounds(s, arcs, (k - 1) as nat), arcs)
    }
}

/// All levels at zero.
pub open spec fn ground_level(n: nat) -> Seq<nat> {
    Seq::new(n, |i: int| 0)
}

/// One list of levels is nowhere above another.
pub open spec fn under(s: Seq<nat>, t: Seq<nat>) -> bool {
    s.len() == t.len() && forall|i: int| 0 <= i < s.len() ==> (#[trigger] s[i]) <= t[i]
}

proof fn lemma_one_round(s: Seq<nat>, arcs: Seq<Arc>)
    requires
        arcs_within(arcs, s.len() as int),
    ensures
        under(s, one_round(s, arcs)),
        forall|t: Seq<nat>|
            under(s, t) && #[trigger] respects(t, arcs) ==> under(one_round(s, arcs), t),
        forall|i: int|
            0 <= i < arcs.len() ==> one_round(s, arcs)[(#[trigger] arcs[i]).head as int]
                >= s[arcs[i].dep as int] + lift(arcs[i]),
        one_round(s, arcs) == s <==> respects(s, arcs),
    decreases arcs.len(),
{
    if arcs.len() > 0 {
        let less = arcs.drop_last();
        let last = arcs.last();
        assert(arcs_within(less, s.len() as int)) by {
            assert forall|i: int| 0 <= i < less.len() implies (#[trigger] less[i]).head < s.len()
                && less[i].dep < s.len() by {
                assert(less[i] == arcs[i]);
            }
        }
        assert(last == arcs[arcs.len() - 1]);
        lemma_one_round(s, less);
        let mid = one_round(s, less);
        let end = one_round(s, arcs);
        assert forall|t: Seq<nat>| under(s, t) && #[trigger] respects(t, arcs) implies under(
            end,
            t,
        ) by {
            assert(respects(t, less)) by {
                assert forall|i: int| 0 <= i < less.len() implies t[(#[trigger] less[i]).head as int]
                    >= t[less[i].dep as int] + lift(less[i]) by {
                    assert(less[i] == arcs[i]);
                }
            }
            assert(under(mid, t));
            assert(t[last.head as int] >= t[last.dep as int] + lift(last));
        }
        assert forall|i: int| 0 <= i < arcs.len() implies end[(#[trigger] arcs[i]).head as int]
            >= s[arcs[i].dep as int] + lift(arcs[i]) by {
            if i < less.len() {
                assert(less[i] == arcs[i]);
                assert(mid[arcs[i].head as int] >= s[arcs[i].dep as int] + lift(arcs[i]));
            } else {
                assert(mid[last.dep as int] >= s[last.dep as int]);
            }
        }
        if respects(s, arcs) {
            assert(under(s, s));
            assert(under(end, s));
            assert(end =~= s);
        }
        if end == s {
            assert(respects(s, arcs));
        }
    }
}

proof fn lemma_rounds(s: Seq<nat>, arcs: Seq<Arc>, k: nat)
    requires
        arcs_within(arcs, s.len() as int),
    ensures
        rounds(s, arcs, k).len() == s.len(),
        forall|t: Seq<nat>|
            under(s, t) && #[trigger] respects(t, arcs) ==> under(rounds(s, arcs, k), t),
    decreases k,
{
    if k > 0 {
        lemma_rounds(s, arcs, (k - 1) as nat);
        lemma_one_round(rounds(s, arcs, (k - 1) as nat), arcs);
    }
}

/// Once a round changes nothing, no later round does.
proof fn lemma_rounds_stay(s: Seq<nat>, arcs: Seq<Arc>, j: nat, k: nat)
    requires
        arcs_within(arcs, s.len() as int),
        j <= k,
        respects(rounds(s, arcs, j), arcs),
    ensures
        rounds(s, arcs, k) == rounds(s, arcs, j),
    decreases k,
{
    if j < k {
        lemma_rounds_stay(s, arcs, j, (k - 1) as nat);
        lemma_rounds(s, arcs, j);
        lemma_one_round(rounds(s, arcs, j), arcs);
    }
}

/// The places where two lists of levels agree.
spec fn agreed(s: Seq<nat>, t: Seq<nat>) -> Set<int> {
    Set::new(|i: int| 0 <= i < s.len() && s[i] == t[i])
}

spec fn total(t: Seq<nat>) -> nat
    decreases t.len(),
{
    if t.len() == 0 {
        0
    } else {
        total(t.drop_last()) + t.last()
    }
}

/// Levels lowered by one wherever they differ from others.
spec fn lowered(s: Seq<nat>, t: Seq<nat>) -> Seq<nat> {
    Seq::new(t.len(), |i: int|
        if s[i] == t[i] {
            t[i]
        } else {
            (t[i] - 1) as nat
        })
}

proof fn lemma_total_under(s: Seq<nat>, t: Seq<nat>)
    requires
        under(s, t),
    ensures
        total(s) <= total(t),
        s != t ==> total(s) < total(t),
    decreases s.len(),
{
    if s.len() > 0 {
        assert(under(s.drop_last(), t.drop_last()));
        lemma_total_under(s.drop_last(), t.drop_last());
        if s != t {
            if s.drop_last() == t.drop_last() && s.last() == t.last() {
                assert(s =~= s.drop_last().push(s.last()));
                assert(t =~= t.drop_last().push(t.last()));
            }
        }
    } else {
        assert(s =~= t);
    }
}

/// Where a round brings no place to its level in `t`, lower levels than those
/// of `t` respect every arc.
proof fn lemma_lowered_respects(s: Seq<nat>, t: Seq<nat>, arcs: Seq<Arc>)
    requires
        arcs_within(arcs, s.len() as int),
        under(one_round(s, arcs), t),
        respects(t, arcs),
        agreed(one_round(s, arcs), t) == agreed(s, t),
    ensures
        respects(lowered(s, t), arcs),
        under(s, lowered(s, t)),
        under(lowered(s, t), t),
{
    let low = lowered(s, t);
    let next = one_round(s, arcs);
    lemma_one_round(s, arcs);
    assert forall|i: int| 0 <= i < s.len() implies (#[trigger] s[i]) <= low[i] && low[i] <= t[i] by {
        assert(next[i] >= s[i]);
        assert(next[i] <= t[i]);
    }
    assert forall|i: int| 0 <= i < low.len() implies (#[trigger] low[i]) <= t[i] by {
        assert(s[i] <= low[i]);
    }
    assert forall|i: int| 0 <= i < arcs.len() implies low[(#[trigger] arcs[i]).head as int]
        >= low[arcs[i].dep as int] + lift(arcs[i]) by {
        let h = arcs[i].head as int;
        let d = arcs[i].dep as int;
        assert(t[h] >= t[d] + lift(arcs[i]));
        assert(s[h] <= low[h] && s[d] <= low[d]);
        if s[h] != t[h] && s[d] == t[d] {
            assert(next[h] >= s[d] + lift(arcs[i]));
            assert(!agreed(s, t).contains(h));
            assert(!agreed(next, t).contains(h));
            assert(next[h] != t[h]);
            assert(next[h] <= t[h]);
        }
    }
}

proof fn lemma_agreed(s: Seq<nat>, t: Seq<nat>)
    requires
        s.len() == t.len(),
    ensures
        agreed(s, t).finite(),
        agreed(s, t).len() <= s.len(),
        agreed(s, t).len() == s.len() ==> s == t,
{
    let all = vstd::set_lib::set_int_range(0, s.len() as int);
    vstd::set_lib::lemma_int_range(0, s.len() as int);
    assert(agreed(s, t).subset_of(all));
    vstd::set_lib::lemma_len_subset(agreed(s, t), all);
    if agreed(s, t).len() == s.len() {
        vstd::set_lib::lemma_subset_equality(agreed(s, t), all);
        assert forall|i: int| 0 <= i < s.len() implies s[i] == t[i] by {
            assert(all.contains(i));
        }
        assert(s =~= t);
    }
}

/// The places that have reached their level in `t` grow in number with every
/// round, or `t` can be lowered.
proof fn lemma_progress(n: nat, arcs: Seq<Arc>, t: Seq<nat>, k: nat) -> (stuck: Option<nat>)
    requires
        arcs_within(arcs, n as int),
        t.len() == n,
        respects(t, arcs),
    ensures
        match stuck {
            None => rounds(ground_level(n), arcs, k) == t || agreed(
                rounds(ground_level(n), arcs, k),
                t,
            ).len() >= k,
            Some(j) => {
                let s = rounds(ground_level(n), arcs, j);
                &&& s != t
                &&& agreed(one_round(s, arcs), t) == agreed(s, t)
            },
        },
    decreases k,
{
    let zero = ground_level(n);
    assert(under(zero, t));
    if k == 0 {
        None
    } else {
        match lemma_progress(n, arcs, t, (k - 1) as nat) {
            Some(j) => Some(j),
            None => {
                let s = rounds(zero, arcs, (k - 1) as nat);
                lemma_rounds(zero, arcs, (k - 1) as nat);
                lemma_one_round(s, arcs);
                let next = one_round(s, arcs);
                assert(under(s, t));
                assert(under(next, t));
                if s == t {
                    None
                } else if agreed(next, t) == agreed(s, t) {
                    Some((k - 1) as nat)
                } else {
                    lemma_agreed(s, t);
                    lemma_agreed(next, t);
                    assert(agreed(s, t).subset_of(agreed(next, t))) by {
                        assert forall|i: int| agreed(s, t).contains(i) implies agreed(
                            next,
                            t,
                        ).contains(i) by {
                            assert(s[i] <= next[i]);
                            assert(next[i] <= t[i]);
                        }
                    }
                    vstd::set_lib::lemma_len_subset(agreed(s, t), agreed(next, t));
                    if agreed(s, t).len() == agreed(next, t).len() {
                        vstd::set_lib::lemma_subset_equality(agreed(s, t), agreed(next, t));
                    }
                    None
                }
            },
        }
    }
}

proof fn lemma_converges(n: nat, arcs: Seq<Arc>, t: Seq<nat>)
    requires
        arcs_within(arcs, n as int),
        t.len() == n,
        respects(t, arcs),
    ensures
        respects(rounds(ground_level(n), arcs, n), arcs),
    decreases total(t),
{
    let zero = ground_level(n);
    assert(under(zero, t));
    match lemma_progress(n, arcs, t, n) {
        None => {
            lemma_rounds(zero, arcs, n);
            lemma_agreed(rounds(zero, arcs, n), t);
        },
        Some(j) => {
            let s = rounds(zero, arcs, j);
            lemma_rounds(zero, arcs, j);
            lemma_one_round(s, arcs);
            lemma_lowered_respects(s, t, arcs);
            let low = lowered(s, t);
            assert(low != t) by {
                if low == t {
                    assert forall|i: int| 0 <= i < s.len() implies s[i] == t[i] by {
                        assert(low[i] == t[i]);
                        assert(s[i] <= low[i]);
                    }
                    assert(s =~= t);
                }
            }
            lemma_total_under(low, t);
            lemma_converges(n, arcs, low);
        },
    }
}

/// Where some levels respect every arc, as many rounds as there are places
/// reach the least of them; where none do, no number of rounds does.
pub proof fn law_levels_are_least(n: nat, arcs: Seq<Arc>, k: nat)
    requires
        arcs_within(arcs, n as int),
        k >= n,
    ensures
        levelled(n, arcs) <==> respects(rounds(ground_level(n), arcs, k), arcs),
        forall|t: Seq<nat>|
            t.len() == n && #[trigger] respects(t, arcs) ==> under(
                rounds(ground_level(n), arcs, k),
                t,
            ),
{
    let zero = ground_level(n);
    lemma_rounds(zero, arcs, k);
    if levelled(n, arcs) {
        let t = choose|t: Seq<nat>| t.len() == n && #[trigger] respects(t, arcs);
        lemma_converges(n, arcs, t);
        lemma_rounds_stay(zero, arcs, n, k);
    }
    assert forall|t: Seq<nat>| t.len() == n && #[trigger] respects(t, arcs) implies under(
        rounds(zero, arcs, k),
        t,
    ) by {
        assert(under(zero, t));
    }
}

/// Machine integers as levels.
pub open spec fn levels(v: Seq<usize>) -> Seq<nat> {
    Seq::new(v.len(), |i: int| v[i] as nat)
}

/// Raise levels arc by arc, each arc once; true when one changed.
fn raise_once(s: &mut Vec<usize>, arcs: &Vec<Arc>, Ghost(top): Ghost<nat>) -> (changed: bool)
    requires
        arcs_within(arcs@, old(s)@.len() as int),
        forall|i: int| 0 <= i < old(s)@.len() ==> (#[trigger] old(s)@[i]) <= top,
        top + arcs@.len() <= usize::MAX,
    ensures
        levels(final(s)@) == one_round(levels(old(s)@), arcs@),
        final(s)@.len() == old(s)@.len(),
        changed <==> levels(final(s)@) != levels(old(s)@),
        forall|i: int| 0 <= i < final(s)@.len() ==> (#[trigger] final(s)@[i]) <= top + arcs@.len(),
{
    let ghost start = levels(s@);
    let ghost n = s@.len();
    let mut changed = false;
    let mut i: usize = 0;
    while i < arcs.len()
        invariant
            i <= arcs@.len(),
            s@.len() == n,
            start.len() == n,
            arcs_within(arcs@, n as int),
            top + arcs@.len() <= usize::MAX,
            forall|j: int| 0 <= j < s@.len() ==> (#[trigger] s@[j]) <= top + i,
            levels(s@) == one_round(start, arcs@.take(i as int)),
            changed <==> levels(s@) != start,
            under(start, levels(s@)),
        decreases arcs.len() - i,
    {
        let a: Arc = arcs[i];
        let ghost before = s@;
        proof {
            assert(a == arcs@[i as int]);
            assert(arcs@.take(i + 1).drop_last() =~= arcs@.take(i as int));
            assert(arcs@.take(i + 1).last() == a);
            assert(s@[a.dep as int] <= top + i);
        }
        let need: usize = if a.forcing {
            s[a.dep] + 1
        } else {
            s[a.dep]
        };
        if s[a.head] < need {
            s.set(a.head, need);
            changed = true;
            proof {
                assert(levels(s@) =~= levels(before).update(a.head as int, need as nat));
                assert(levels(before)[a.head as int] >= start[a.head as int]);
                assert(levels(s@)[a.head as int] > start[a.head as int]);
            }
        }
        i = i + 1;
    }
    proof {
        assert(arcs@.take(i as int) =~= arcs@);
    }
    changed
}

/// Raise levels round by round, until a round changes nothing or one round
/// more has run than there are places.
pub fn raise_levels(n: usize, arcs: &Vec<Arc>) -> (r: Vec<usize>)
    requires
        arcs_within(arcs@, n as int),
        n < usize::MAX,
        (n + 1) * arcs@.len() <= usize::MAX,
    ensures
        r@.len() == n,
        levels(r@) == rounds(ground_level(n as nat), arcs@, (n + 1) as nat),
        forall|i: int| 0 <= i < r@.len() ==> (#[trigger] r@[i]) <= (n + 1) * arcs@.len(),
{
    let mut s: Vec<usize> = Vec::new();
    while s.len() < n
        invariant
            s@.len() <= n,
            forall|i: int| 0 <= i < s@.len() ==> (#[trigger] s@[i]) == 0,
        decreases n - s.len(),
    {
        s.push(0);
    }
    let ghost zero = ground_level(n as nat);
    let ghost m = arcs@.len();
    proof {
        assert(levels(s@) =~= zero);
    }
    let mut k: usize = 0;
    let mut going = true;
    while going && k <= n
        invariant
            k <= n + 1,
            n < usize::MAX,
            s@.len() == n,
            m == arcs@.len(),
            zero == ground_level(n as nat),
            arcs_within(arcs@, n as int),
            (n + 1) * m <= usize::MAX,
            levels(s@) == rounds(zero, arcs@, k as nat),
            !going ==> respects(levels(s@), arcs@),
            forall|i: int| 0 <= i < s@.len() ==> (#[trigger] s@[i]) <= k * m,
        decreases n + 1 - k + (if going {
            1int
        } else {
            0int
        }),
    {
        let ghost before = levels(s@);
        proof {
            assert(k * m + m == (k + 1) * m) by (nonlinear_arith);
            assert((k + 1) * m <= (n + 1) * m) by (nonlinear_arith)
                requires
                    k <= n,
            ;
        }
        going = raise_once(&mut s, arcs, Ghost((k * m) as nat));
        proof {
            lemma_one_round(before, arcs@);
        }
        k = k + 1;
    }
    proof {
        assert(k * m <= (n + 1) * m) by (nonlinear_arith)
            requires
                k <= n + 1,
        ;
        if !going {
            lemma_rounds_stay(zero, arcs@, k as nat, (n + 1) as nat);
        }
    }
    s
}

} // verus!
