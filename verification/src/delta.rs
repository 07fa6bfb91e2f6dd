//! Signed differences between two states of a relation.
//!
//! A patch is a set of signed facts: `Plus` for a row only the later state
//! has, `Minus` for a row only the earlier one has. Patches compose with
//! cancellation, and composing the patch from `a` to `b` with the patch from
//! `b` to `c` gives the patch from `a` to `c`.

use vstd::prelude::*;
use crate::history::{
    fact_at, is_fact_key, lemma_resolve_between, row_of_key, snapshot, AsOf, FactModel, FactTable,
};
use crate::order::{place_of, strictly_sorted, OrderedSet, Rank, Total};
use crate::value::{
    copy_row, lemma_row_irreflexive, lemma_row_total, lemma_row_transitive, rank_rows, row_before,
    val_before, DataValue, Row, Tuple, Val, ValiditySlot,
};

verus! {

/// A row with the sign of its change.
#[derive(Debug, PartialEq, Eq)]
pub enum SignedFact {
    Plus(Tuple),
    Minus(Tuple),
}

/// The model of a [`SignedFact`].
pub enum Signed {
    Plus(Row),
    Minus(Row),
}

impl DeepView for SignedFact {
    type V = Signed;

    open spec fn deep_view(&self) -> Signed {
        match self {
            SignedFact::Plus(t) => Signed::Plus(t.deep_view()),
            SignedFact::Minus(t) => Signed::Minus(t.deep_view()),
        }
    }
}

/// The row of a signed fact.
pub open spec fn row_of(s: Signed) -> Row {
    match s {
        Signed::Plus(t) => t,
        Signed::Minus(t) => t,
    }
}

/// Every `Plus` before every `Minus`, and by row among each.
pub open spec fn signed_before(a: Signed, b: Signed) -> bool {
    match (a, b) {
        (Signed::Plus(x), Signed::Plus(y)) => row_before(x, y),
        (Signed::Minus(x), Signed::Minus(y)) => row_before(x, y),
        (Signed::Plus(_), Signed::Minus(_)) => true,
        (Signed::Minus(_), Signed::Plus(_)) => false,
    }
}

impl Total for SignedFact {
    open spec fn before(a: Signed, b: Signed) -> bool {
        signed_before(a, b)
    }

    proof fn before_irreflexive(a: Signed) {
        lemma_row_irreflexive(row_of(a));
    }

    proof fn before_transitive(a: Signed, b: Signed, c: Signed) {
        if row_before(row_of(a), row_of(b)) && row_before(row_of(b), row_of(c)) {
            lemma_row_transitive(row_of(a), row_of(b), row_of(c));
        }
    }

    proof fn before_total(a: Signed, b: Signed) {
        lemma_row_total(row_of(a), row_of(b));
    }

    fn rank(&self, other: &Self) -> Rank {
        match (self, other) {
            (SignedFact::Plus(x), SignedFact::Plus(y)) => rank_rows(x, y),
            (SignedFact::Minus(x), SignedFact::Minus(y)) => rank_rows(x, y),
            (SignedFact::Plus(_), SignedFact::Minus(_)) => Rank::Before,
            (SignedFact::Minus(_), SignedFact::Plus(_)) => Rank::After,
        }
    }
}

impl SignedFact {
    /// The row, whatever its sign.
    pub fn tuple(&self) -> (r: &Tuple)
        ensures
            r.deep_view() == row_of(self.deep_view()),
    {
        match self {
            SignedFact::Plus(t) => t,
            SignedFact::Minus(t) => t,
        }
    }
}

/// The net sign of a row in one patch.
pub open spec fn sign_in(patch: Set<Signed>, t: Row) -> int {
    (if patch.contains(Signed::Plus(t)) {
        1int
    } else {
        0
    }) - (if patch.contains(Signed::Minus(t)) {
        1int
    } else {
        0
    })
}

/// Two patches one after the other: each row keeps the sign of its net tally,
/// and a row whose tally is zero cancels out.
pub open spec fn composed(first: Set<Signed>, second: Set<Signed>) -> Set<Signed> {
    Set::new(
        |s: Signed|
            match s {
                Signed::Plus(t) => sign_in(first, t) + sign_in(second, t) > 0,
                Signed::Minus(t) => sign_in(first, t) + sign_in(second, t) < 0,
            },
    )
}

/// The patch from one set of rows to another.
pub open spec fn diff(from: Set<Row>, to: Set<Row>) -> Set<Signed> {
    Set::new(
        |s: Signed|
            match s {
                Signed::Plus(t) => to.contains(t) && !from.contains(t),
                Signed::Minus(t) => from.contains(t) && !to.contains(t),
            },
    )
}

/// What a patch makes of a set of rows.
pub open spec fn patched(rows: Set<Row>, patch: Set<Signed>) -> Set<Row> {
    Set::new(
        |t: Row|
            patch.contains(Signed::Plus(t)) || (rows.contains(t) && !patch.contains(
                Signed::Minus(t),
            )),
    )
}

/// The patch from `a` to `c` is the patch from `a` to `b` composed with the
/// patch from `b` to `c`.
pub proof fn law_diff_composes(a: Set<Row>, b: Set<Row>, c: Set<Row>)
    ensures
        composed(diff(a, b), diff(b, c)) == diff(a, c),
{
    assert(composed(diff(a, b), diff(b, c)) =~= diff(a, c));
}

/// The patch between identical states is empty.
pub proof fn law_diff_identical_is_empty(a: Set<Row>)
    ensures
        diff(a, a) == Set::<Signed>::empty(),
{
    assert(diff(a, a) =~= Set::<Signed>::empty());
}

/// Applying the patch from one state to another gives the other.
pub proof fn law_diff_patches(from: Set<Row>, to: Set<Row>)
    ensures
        patched(from, diff(from, to)) == to,
{
    assert(patched(from, diff(from, to)) =~= to);
}

/// A patch composed with its inverse cancels to nothing.
pub proof fn law_diff_cancels(a: Set<Row>, b: Set<Row>)
    ensures
        composed(diff(a, b), diff(b, a)) == Set::<Signed>::empty(),
{
    assert(composed(diff(a, b), diff(b, a)) =~= Set::<Signed>::empty());
}

/// A row whose payload changes is removed under its old payload and added
/// under its new one.
pub proof fn law_change_is_minus_and_plus(from: Set<Row>, to: Set<Row>, old_row: Row, new_row: Row)
    requires
        from.contains(old_row),
        !from.contains(new_row),
        to.contains(new_row),
        !to.contains(old_row),
    ensures
        diff(from, to).contains(Signed::Minus(old_row)),
        diff(from, to).contains(Signed::Plus(new_row)),
{
}

/// The net sign of a row in a patch.
fn sign_of(patch: &OrderedSet<SignedFact>, t: &Tuple) -> (r: i8)
    requires
        patch.wf(),
    ensures
        r == sign_in(patch.deep_view(), t.deep_view()),
        -1 <= r <= 1,
{
    let plus = patch.contains(&SignedFact::Plus(copy_row(t)));
    let minus = patch.contains(&SignedFact::Minus(copy_row(t)));
    if plus && !minus {
        1
    } else if minus && !plus {
        -1
    } else {
        0
    }
}

/// What is known of the composition once some rows have been tallied.
spec fn tallied(
    out: Set<Signed>,
    first: Set<Signed>,
    second: Set<Signed>,
    done: Set<Row>,
) -> bool {
    forall|s: Signed| #[trigger]
        out.contains(s) == (composed(first, second).contains(s) && done.contains(row_of(s)))
}

/// Add the net sign of every row of `patch` to `out`.
fn tally_rows(
    patch: &OrderedSet<SignedFact>,
    first: &OrderedSet<SignedFact>,
    second: &OrderedSet<SignedFact>,
    out: &mut OrderedSet<SignedFact>,
    Ghost(done): Ghost<Set<Row>>,
)
    requires
        patch.wf(),
        first.wf(),
        second.wf(),
        old(out).wf(),
        tallied(old(out).deep_view(), first.deep_view(), second.deep_view(), done),
    ensures
        final(out).wf(),
        tallied(
            final(out).deep_view(),
            first.deep_view(),
            second.deep_view(),
            done.union(patch.items.deep_view().map_values(|s: Signed| row_of(s)).to_set()),
        ),
{
    let ghost rows = patch.items.deep_view().map_values(|s: Signed| row_of(s));
    let ghost a = first.deep_view();
    let ghost b = second.deep_view();
    let mut i: usize = 0;
    assert(done.union(rows.take(0).to_set()) =~= done);
    while i < patch.items.len()
        invariant
            i <= patch.items@.len(),
            patch.wf(),
            first.wf(),
            second.wf(),
            out.wf(),
            a == first.deep_view(),
            b == second.deep_view(),
            rows == patch.items.deep_view().map_values(|s: Signed| row_of(s)),
            tallied(out.deep_view(), a, b, done.union(rows.take(i as int).to_set())),
        decreases patch.items.len() - i,
    {
        let t = patch.items[i].tuple();
        let ghost row = t.deep_view();
        let ghost before = out.deep_view();
        let ghost seen = done.union(rows.take(i as int).to_set());
        let x: i8 = sign_of(first, t);
        let y: i8 = sign_of(second, t);
        let net: i8 = x + y;
        assert(row == rows[i as int]);
        proof {
            crate::order::lemma_take_step(rows, i as int);
        }
        if net > 0 {
            out.insert(SignedFact::Plus(copy_row(t)));
        } else if net < 0 {
            out.insert(SignedFact::Minus(copy_row(t)));
        }
        proof {
            let next = done.union(rows.take(i + 1).to_set());
            assert(next =~= seen.insert(row));
            assert forall|s: Signed| #[trigger]
                out.deep_view().contains(s) == (composed(a, b).contains(s) && next.contains(
                    row_of(s),
                )) by {
                assert(before.contains(s) == (composed(a, b).contains(s) && seen.contains(
                    row_of(s),
                )));
            }
        }
        i = i + 1;
    }
    assert(rows.take(i as int) =~= rows);
}

/// Compose two patches, cancelling what they undo of each other.
pub fn compose(first: &OrderedSet<SignedFact>, second: &OrderedSet<SignedFact>) -> (r: OrderedSet<
    SignedFact,
>)
    requires
        first.wf(),
        second.wf(),
    ensures
        r.wf(),
        r.deep_view() == composed(first.deep_view(), second.deep_view()),
{
    let mut out: OrderedSet<SignedFact> = OrderedSet::new();
    tally_rows(first, first, second, &mut out, Ghost(Set::empty()));
    let ghost rows1 = first.items.deep_view().map_values(|s: Signed| row_of(s));
    let ghost rows2 = second.items.deep_view().map_values(|s: Signed| row_of(s));
    tally_rows(
        second,
        first,
        second,
        &mut out,
        Ghost(Set::<Row>::empty().union(rows1.to_set())),
    );
    proof {
        let a = first.deep_view();
        let b = second.deep_view();
        let done = Set::<Row>::empty().union(rows1.to_set()).union(rows2.to_set());
        assert forall|s: Signed| #[trigger]
            out.deep_view().contains(s) == composed(a, b).contains(s) by {
            if composed(a, b).contains(s) {
                let t = row_of(s);
                lemma_signed_row(first.items.deep_view(), t);
                lemma_signed_row(second.items.deep_view(), t);
                assert(done.contains(t));
            }
        }
        assert(out.deep_view() =~= composed(a, b));
    }
    out
}

/// A row that a patch mentions is among the patch's rows.
proof fn lemma_signed_row(items: Seq<Signed>, t: Row)
    ensures
        items.to_set().contains(Signed::Plus(t)) || items.to_set().contains(Signed::Minus(t))
            ==> items.map_values(|s: Signed| row_of(s)).to_set().contains(t),
{
    let rows = items.map_values(|s: Signed| row_of(s));
    if items.contains(Signed::Plus(t)) {
        let k = choose|k: int| 0 <= k < items.len() && items[k] == Signed::Plus(t);
        assert(rows[k] == t);
    } else if items.contains(Signed::Minus(t)) {
        let k = choose|k: int| 0 <= k < items.len() && items[k] == Signed::Minus(t);
        assert(rows[k] == t);
    }
}

/// Add the rows of `have` that `lack` does not hold to `patch`, signed.
fn add_missing(
    have: &OrderedSet<Tuple>,
    lack: &OrderedSet<Tuple>,
    plus: bool,
    patch: &mut OrderedSet<SignedFact>,
)
    requires
        have.wf(),
        lack.wf(),
        old(patch).wf(),
    ensures
        final(patch).wf(),
        forall|s: Signed| #[trigger]
            final(patch).deep_view().contains(s) == (old(patch).deep_view().contains(s) || ((s
                is Plus) == plus && have.deep_view().contains(row_of(s))
                && !lack.deep_view().contains(row_of(s)))),
{
    let ghost start = patch.deep_view();
    let ghost rows = have.items.deep_view();
    let mut i: usize = 0;
    while i < have.items.len()
        invariant
            i <= have.items@.len(),
            have.wf(),
            lack.wf(),
            patch.wf(),
            rows == have.items.deep_view(),
            start == old(patch).deep_view(),
            forall|s: Signed| #[trigger]
                patch.deep_view().contains(s) == (start.contains(s) || ((s is Plus) == plus
                    && rows.take(i as int).contains(row_of(s)) && !lack.deep_view().contains(
                    row_of(s),
                ))),
        decreases have.items.len() - i,
    {
        let t = &have.items[i];
        let ghost row = t.deep_view();
        let ghost before = patch.deep_view();
        proof {
            assert(rows[i as int] == row);
            crate::order::lemma_take_step(rows, i as int);
            assert forall|r: Row|
                rows.take(i + 1).contains(r) == (rows.take(i as int).contains(r) || r == row) by {
                assert(rows.take(i + 1).to_set().contains(r) == rows.take(i as int).to_set().insert(
                    row,
                ).contains(r));
            }
        }
        if !lack.contains(t) {
            if plus {
                patch.insert(SignedFact::Plus(copy_row(t)));
            } else {
                patch.insert(SignedFact::Minus(copy_row(t)));
            }
        }
        proof {
            assert forall|s: Signed| #[trigger]
                patch.deep_view().contains(s) == (start.contains(s) || ((s is Plus) == plus
                    && rows.take(i + 1).contains(row_of(s)) && !lack.deep_view().contains(
                    row_of(s),
                ))) by {
                assert(before.contains(s) == (start.contains(s) || ((s is Plus) == plus
                    && rows.take(i as int).contains(row_of(s)) && !lack.deep_view().contains(
                    row_of(s),
                ))));
            }
        }
        i = i + 1;
    }
    proof {
        assert(rows.take(i as int) =~= rows);
        assert forall|r: Row| rows.contains(r) == have.deep_view().contains(r) by {}
    }
}

/// The patch between two sets of rows.
pub fn diff_sets(from: &OrderedSet<Tuple>, to: &OrderedSet<Tuple>) -> (r: OrderedSet<SignedFact>)
    requires
        from.wf(),
        to.wf(),
    ensures
        r.wf(),
        r.deep_view() == diff(from.deep_view(), to.deep_view()),
{
    let mut patch: OrderedSet<SignedFact> = OrderedSet::new();
    add_missing(from, to, false, &mut patch);
    add_missing(to, from, true, &mut patch);
    assert(patch.deep_view() =~= diff(from.deep_view(), to.deep_view()));
    patch
}

/// The patch between two coordinates, from two full snapshots.
pub fn patch_naive(table: &FactTable, from: AsOf, to: AsOf) -> (r: OrderedSet<SignedFact>)
    requires
        table.wf(),
    ensures
        r.wf(),
        r.deep_view() == diff(
            snapshot(table.model(), from).to_set(),
            snapshot(table.model(), to).to_set(),
        ),
{
    let from_set = OrderedSet::from_vec(table.skip_scan_all(from));
    let to_set = OrderedSet::from_vec(table.skip_scan_all(to));
    diff_sets(&from_set, &to_set)
}

/// The column value under which the posting index files an instant.
pub open spec fn instant_column(ts: i64) -> Val {
    Val::Validity(ValiditySlot { ts, is_assert: true })
}

/// A posting lies in the window `(lo, hi]`: its leading column is an instant
/// of it.
pub open spec fn in_window(posting: Row, lo: i64, hi: i64) -> bool {
    &&& posting.len() > 0
    &&& posting[0] is Validity
    &&& lo < posting[0]->Validity_0.ts <= hi
}

/// The rows between which the postings of the window `(lo, hi]` lie: at or
/// after the first, before the second. Instants are stored newest first, so
/// the later end of the window comes first.
pub fn posting_window_bounds(lo: i64, hi: i64) -> (r: (Tuple, Tuple))
    ensures
        r.0.deep_view() == seq![instant_column(hi)],
        r.1.deep_view() == seq![instant_column(lo)],
        lo < hi ==> forall|p: Row|
            #![trigger in_window(p, lo, hi)]
            in_window(p, lo, hi) == (!row_before(p, r.0.deep_view()) && row_before(
                p,
                r.1.deep_view(),
            )),
{
    let mut lower: Tuple = Vec::new();
    lower.push(DataValue::Validity(ValiditySlot { ts: hi, is_assert: true }));
    let mut upper: Tuple = Vec::new();
    upper.push(DataValue::Validity(ValiditySlot { ts: lo, is_assert: true }));
    proof {
        assert(lower.deep_view() =~= seq![instant_column(hi)]);
        assert(upper.deep_view() =~= seq![instant_column(lo)]);
        if lo < hi {
            assert forall|p: Row| #![trigger in_window(p, lo, hi)] in_window(p, lo, hi) == (
            !row_before(p, lower.deep_view()) && row_before(p, upper.deep_view())) by {
                lemma_window_order(p, lo, hi);
            }
        }
    }
    (lower, upper)
}

proof fn lemma_window_order(p: Row, lo: i64, hi: i64)
    requires
        lo < hi,
    ensures
        in_window(p, lo, hi) == (!row_before(p, seq![instant_column(hi)]) && row_before(
            p,
            seq![instant_column(lo)],
        )),
{
    let l = seq![instant_column(hi)];
    let u = seq![instant_column(lo)];
    assert(l.drop_first() =~= Seq::<Val>::empty());
    assert(u.drop_first() =~= Seq::<Val>::empty());
    if p.len() > 0 {
        let e = Seq::<Val>::empty();
        assert(!row_before(p.drop_first(), e));
        assert(row_before(p, l) == (p[0] != l[0] && val_before(p[0], l[0])));
        assert(row_before(p, u) == (p[0] != u[0] && val_before(p[0], u[0])));
    }
}

/// A posting whose width is not the declared one.
#[derive(Clone, Copy, Debug, PartialEq, Eq, Structural)]
pub struct CorruptPosting {
    pub found: usize,
    pub expected: usize,
}

/// The base key that a posting files: the columns between the leading instant
/// and the two time slots.
pub open spec fn posting_key(posting: Row, key_len: int) -> Row {
    posting.subrange(1, 1 + key_len)
}

/// A posting of the window files this key.
pub open spec fn filed(postings: Set<Row>, key_len: int, lo: i64, hi: i64, key: Row) -> bool {
    exists|p: Row| #[trigger]
        postings.contains(p) && in_window(p, lo, hi) && posting_key(p, key_len) == key
}

/// The first posting of the window whose width is not that of a key with its
/// instant, its system stamp and its polarity.
pub open spec fn first_misfit(postings: Set<Row>, key_len: int, lo: i64, hi: i64, p: Row) -> bool {
    &&& postings.contains(p)
    &&& in_window(p, lo, hi)
    &&& p.len() != key_len + 3
    &&& forall|q: Row| #[trigger]
        postings.contains(q) && in_window(q, lo, hi) && row_before(q, p) ==> q.len() == key_len + 3
}

/// The distinct base keys with a posting in the window `(lo, hi]`.
pub fn candidate_keys_from_posting(
    postings: &OrderedSet<Tuple>,
    base_key_len: usize,
    lo: i64,
    hi: i64,
) -> (r: Result<OrderedSet<Tuple>, CorruptPosting>)
    requires
        postings.wf(),
        base_key_len + 3 <= usize::MAX,
    ensures
        match r {
            Ok(keys) => {
                &&& keys.wf()
                &&& forall|k: Row| #[trigger]
                    keys.deep_view().contains(k) == filed(
                        postings.deep_view(),
                        base_key_len as int,
                        lo,
                        hi,
                        k,
                    )
                &&& forall|p: Row| #[trigger]
                    postings.deep_view().contains(p) && in_window(p, lo, hi) ==> p.len()
                        == base_key_len + 3
            },
            Err(e) => exists|p: Row| #[trigger]
                first_misfit(postings.deep_view(), base_key_len as int, lo, hi, p) && e == (
                CorruptPosting {
                    found: p.len() as usize,
                    expected: (base_key_len + 3) as usize,
                }),
        },
{
    let mut keys: OrderedSet<Tuple> = OrderedSet::new();
    if lo >= hi {
        return Ok(keys);
    }
    let ghost rows = postings.items.deep_view();
    let (lower, upper) = posting_window_bounds(lo, hi);
    let (_f1, start) = place_of(&postings.items, &lower);
    let (_f2, end) = place_of(&postings.items, &upper);
    let ghost n = base_key_len as int;
    proof {
        assert forall|j: int| 0 <= j < rows.len() implies in_window(#[trigger] rows[j], lo, hi)
            == (start <= j < end) by {
            assert(in_window(rows[j], lo, hi) == (!row_before(rows[j], lower.deep_view())
                && row_before(rows[j], upper.deep_view())));
        }
    }
    let mut i: usize = start;
    while i < end
        invariant
            start <= i,
            end <= postings.items@.len(),
            i <= end || i == start,
            rows == postings.items.deep_view(),
            postings.deep_view() == rows.to_set(),
            strictly_sorted::<Tuple>(rows),
            keys.wf(),
            n == base_key_len as int,
            base_key_len + 3 <= usize::MAX,
            forall|j: int|
                0 <= j < rows.len() ==> in_window(#[trigger] rows[j], lo, hi) == (start <= j
                    < end),
            forall|j: int| start <= j < i ==> (#[trigger] rows[j]).len() == n + 3,
            forall|k: Row| #[trigger]
                keys.deep_view().contains(k) == exists|j: int|
                    start <= j < i && posting_key(#[trigger] rows[j], n) == k,
        decreases end - i,
    {
        let p = &postings.items[i];
        assert(rows[i as int] == p.deep_view());
        let width: usize = p.len();
        if width != base_key_len + 3 {
            proof {
                let m = rows[i as int];
                assert(rows.to_set().contains(m));
                crate::value::lemma_rows_sorted(rows);
                assert forall|q: Row| #[trigger]
                    postings.deep_view().contains(q) && in_window(q, lo, hi) && row_before(
                        q,
                        m,
                    ) implies q.len() == n + 3 by {
                    assert(rows.contains(q));
                    let j = choose|j: int| 0 <= j < rows.len() && rows[j] == q;
                    if j >= i {
                        if j == i {
                            crate::value::lemma_row_irreflexive(m);
                        } else {
                            assert(row_before(rows[i as int], rows[j]));
                            crate::value::lemma_row_transitive(m, q, m);
                            crate::value::lemma_row_irreflexive(m);
                        }
                    }
                }
                assert(first_misfit(postings.deep_view(), n, lo, hi, m));
            }
            return Err(CorruptPosting { found: width, expected: base_key_len + 3 });
        }
        let key = columns(p, 1, 1 + base_key_len);
        let ghost before = keys.deep_view();
        let ghost model = key.deep_view();
        keys.insert(key);
        proof {
            assert(model == posting_key(rows[i as int], n));
            assert forall|k: Row| #[trigger]
                keys.deep_view().contains(k) == exists|j: int|
                    start <= j < i + 1 && posting_key(#[trigger] rows[j], n) == k by {
                if keys.deep_view().contains(k) {
                    if k == model {
                        assert(posting_key(rows[i as int], n) == k);
                    } else {
                        assert(before.contains(k));
                        let j = choose|j: int|
                            start <= j < i && posting_key(#[trigger] rows[j], n) == k;
                        assert(posting_key(rows[j], n) == k);
                    }
                }
                if exists|j: int| start <= j < i + 1 && posting_key(#[trigger] rows[j], n) == k {
                    let j = choose|j: int|
                        start <= j < i + 1 && posting_key(#[trigger] rows[j], n) == k;
                    if j < i {
                        assert(before.contains(k));
                    }
                }
            }
        }
        i = i + 1;
    }
    proof {
        assert forall|k: Row| #[trigger]
            keys.deep_view().contains(k) == filed(postings.deep_view(), n, lo, hi, k) by {
            if keys.deep_view().contains(k) {
                let j = choose|j: int| start <= j < i && posting_key(#[trigger] rows[j], n) == k;
                assert(0 <= j < rows.len());
                assert(postings.deep_view().contains(rows[j]));
            }
            if filed(postings.deep_view(), n, lo, hi, k) {
                let p = choose|p: Row| #[trigger]
                    postings.deep_view().contains(p) && in_window(p, lo, hi) && posting_key(p, n)
                        == k;
                assert(rows.contains(p));
                let j = choose|j: int| 0 <= j < rows.len() && rows[j] == p;
                assert(posting_key(rows[j], n) == k);
            }
        }
        assert forall|p: Row| #[trigger]
            postings.deep_view().contains(p) && in_window(p, lo, hi) implies p.len() == n + 3 by {
            assert(rows.contains(p));
            let j = choose|j: int| 0 <= j < rows.len() && rows[j] == p;
            assert(rows[j].len() == n + 3);
        }
    }
    Ok(keys)
}

/// The columns `[from, to)` of a row.
pub fn columns(row: &Tuple, from: usize, to: usize) -> (r: Tuple)
    requires
        from <= to <= row@.len(),
    ensures
        r.deep_view() == row.deep_view().subrange(from as int, to as int),
{
    let mut out: Tuple = Vec::new();
    let mut i: usize = from;
    while i < to
        invariant
            from <= i <= to <= row@.len(),
            out.deep_view() == row.deep_view().subrange(from as int, i as int),
        decreases to - i,
    {
        let ghost prev = out.deep_view();
        let copy = row[i].clone();
        out.push(copy);
        assert(out.deep_view() =~= prev.push(row@[i as int].deep_view()));
        assert(out.deep_view() =~= row.deep_view().subrange(from as int, i + 1));
        i = i + 1;
    }
    out
}

/// Every version of the window `(lo, hi]` has its fact's key filed.
pub open spec fn posting_covers(
    facts: Seq<FactModel>,
    postings: Set<Row>,
    key_len: int,
    lo: i64,
    hi: i64,
) -> bool {
    forall|i: int, j: int|
        0 <= i < facts.len() && 0 <= j < facts[i].versions.len() && lo < (
        #[trigger] facts[i].versions[j]).valid <= hi ==> filed(
            postings,
            key_len,
            lo,
            hi,
            facts[i].key,
        )
}

/// The earlier of two instants.
pub open spec fn earlier(a: i64, b: i64) -> i64 {
    if a <= b {
        a
    } else {
        b
    }
}

/// The later of two instants.
pub open spec fn later(a: i64, b: i64) -> i64 {
    if a <= b {
        b
    } else {
        a
    }
}

/// The rows at a coordinate of the facts whose keys are filed.
pub open spec fn filed_rows(
    facts: Seq<FactModel>,
    postings: Set<Row>,
    key_len: int,
    lo: i64,
    hi: i64,
    at: AsOf,
) -> Set<Row> {
    Set::new(
        |t: Row|
            exists|k: Row| #[trigger]
                filed(postings, key_len, lo, hi, k) && row_of_key(facts, k, at) == Some(t),
    )
}

/// The patch between two coordinates, from the keys that the posting index
/// files between them: every such key's row at `from` removed, its row at `to`
/// added, and the two composed.
pub fn patch_via_posting(
    table: &FactTable,
    postings: &OrderedSet<Tuple>,
    from: AsOf,
    to: AsOf,
) -> (r: Result<OrderedSet<SignedFact>, CorruptPosting>)
    requires
        table.wf(),
        postings.wf(),
        table.key_len + 3 <= usize::MAX,
    ensures
        ({
            let lo = earlier(from.valid, to.valid);
            let hi = later(from.valid, to.valid);
            match r {
                Ok(patch) => {
                    &&& patch.wf()
                    &&& patch.deep_view() == diff(
                        filed_rows(
                            table.model(),
                            postings.deep_view(),
                            table.key_len as int,
                            lo,
                            hi,
                            from,
                        ),
                        filed_rows(
                            table.model(),
                            postings.deep_view(),
                            table.key_len as int,
                            lo,
                            hi,
                            to,
                        ),
                    )
                    &&& forall|p: Row| #[trigger]
                        postings.deep_view().contains(p) && in_window(p, lo, hi) ==> p.len()
                            == table.key_len + 3
                },
                Err(e) => exists|p: Row| #[trigger]
                    first_misfit(postings.deep_view(), table.key_len as int, lo, hi, p) && e == (
                    CorruptPosting {
                        found: p.len() as usize,
                        expected: (table.key_len + 3) as usize,
                    }),
            }
        }),
{
    let lo: i64 = if from.valid <= to.valid {
        from.valid
    } else {
        to.valid
    };
    let hi: i64 = if from.valid <= to.valid {
        to.valid
    } else {
        from.valid
    };
    let candidates = match candidate_keys_from_posting(postings, table.key_len, lo, hi) {
        Ok(keys) => keys,
        Err(e) => {
            proof {
                assert(lo == earlier(from.valid, to.valid) && hi == later(from.valid, to.valid));
                let p = choose|p: Row| #[trigger]
                    first_misfit(postings.deep_view(), table.key_len as int, lo, hi, p) && e == (
                    CorruptPosting {
                        found: p.len() as usize,
                        expected: (table.key_len + 3) as usize,
                    });
                assert(first_misfit(
                    postings.deep_view(),
                    table.key_len as int,
                    earlier(from.valid, to.valid),
                    later(from.valid, to.valid),
                    p,
                ));
            }
            return Err(e);
        },
    };
    let ghost facts = table.model();
    let ghost ps = postings.deep_view();
    let ghost n = table.key_len as int;
    let ghost keys = candidates.items.deep_view();
    let mut from_patch: OrderedSet<SignedFact> = OrderedSet::new();
    let mut to_patch: OrderedSet<SignedFact> = OrderedSet::new();
    let mut i: usize = 0;
    while i < candidates.items.len()
        invariant
            i <= candidates.items@.len(),
            table.wf(),
            facts == table.model(),
            keys == candidates.items.deep_view(),
            from_patch.wf(),
            to_patch.wf(),
            forall|s: Signed| #[trigger]
                from_patch.deep_view().contains(s) == (s is Minus && exists|j: int|
                    0 <= j < i && row_of_key(facts, #[trigger] keys[j], from) == Some(row_of(s))),
            forall|s: Signed| #[trigger]
                to_patch.deep_view().contains(s) == (s is Plus && exists|j: int|
                    0 <= j < i && row_of_key(facts, #[trigger] keys[j], to) == Some(row_of(s))),
        decreases candidates.items.len() - i,
    {
        let key = &candidates.items[i];
        assert(keys[i as int] == key.deep_view());
        let ghost before_from = from_patch.deep_view();
        let ghost before_to = to_patch.deep_view();
        let at_from = table.current_row(key, from);
        let ghost f = at_from.deep_view();
        if let Some(row) = at_from {
            from_patch.insert(SignedFact::Minus(row));
        }
        let at_to = table.current_row(key, to);
        let ghost t = at_to.deep_view();
        if let Some(row) = at_to {
            to_patch.insert(SignedFact::Plus(row));
        }
        proof {
            assert forall|s: Signed| #[trigger]
                from_patch.deep_view().contains(s) == (s is Minus && exists|j: int|
                    0 <= j < i + 1 && row_of_key(facts, #[trigger] keys[j], from) == Some(
                        row_of(s),
                    )) by {
                let was = before_from.contains(s);
                let here = s is Minus && row_of_key(facts, keys[i as int], from) == Some(
                    row_of(s),
                );
                assert(from_patch.deep_view().contains(s) == (was || here));
                if was {
                    let j = choose|j: int|
                        0 <= j < i && row_of_key(facts, #[trigger] keys[j], from) == Some(
                            row_of(s),
                        );
                    assert(row_of_key(facts, keys[j], from) == Some(row_of(s)));
                }
                if s is Minus && exists|j: int|
                    0 <= j < i + 1 && row_of_key(facts, #[trigger] keys[j], from) == Some(
                        row_of(s),
                    ) {
                    let j = choose|j: int|
                        0 <= j < i + 1 && row_of_key(facts, #[trigger] keys[j], from) == Some(
                            row_of(s),
                        );
                    if j < i {
                        assert(was);
                    } else {
                        assert(here);
                    }
                }
            }
            assert forall|s: Signed| #[trigger]
                to_patch.deep_view().contains(s) == (s is Plus && exists|j: int|
                    0 <= j < i + 1 && row_of_key(facts, #[trigger] keys[j], to) == Some(
                        row_of(s),
                    )) by {
                let was = before_to.contains(s);
                let here = s is Plus && row_of_key(facts, keys[i as int], to) == Some(row_of(s));
                assert(to_patch.deep_view().contains(s) == (was || here));
                if was {
                    let j = choose|j: int|
                        0 <= j < i && row_of_key(facts, #[trigger] keys[j], to) == Some(row_of(s));
                    assert(row_of_key(facts, keys[j], to) == Some(row_of(s)));
                }
                if s is Plus && exists|j: int|
                    0 <= j < i + 1 && row_of_key(facts, #[trigger] keys[j], to) == Some(
                        row_of(s),
                    ) {
                    let j = choose|j: int|
                        0 <= j < i + 1 && row_of_key(facts, #[trigger] keys[j], to) == Some(
                            row_of(s),
                        );
                    if j < i {
                        assert(was);
                    } else {
                        assert(here);
                    }
                }
            }
        }
        i = i + 1;
    }
    let patch = compose(&from_patch, &to_patch);
    proof {
        let a = filed_rows(facts, ps, n, lo, hi, from);
        let b = filed_rows(facts, ps, n, lo, hi, to);
        assert forall|k: Row| filed(ps, n, lo, hi, k) == keys.contains(k) by {
            assert(candidates.deep_view().contains(k) == filed(ps, n, lo, hi, k));
        }
        assert forall|t: Row| #[trigger]
            a.contains(t) == from_patch.deep_view().contains(Signed::Minus(t)) by {
            if a.contains(t) {
                let k = choose|k: Row| #[trigger]
                    filed(ps, n, lo, hi, k) && row_of_key(facts, k, from) == Some(t);
                assert(keys.contains(k));
                let j = choose|j: int| 0 <= j < keys.len() && keys[j] == k;
                assert(row_of_key(facts, keys[j], from) == Some(row_of(Signed::Minus(t))));
            }
            if from_patch.deep_view().contains(Signed::Minus(t)) {
                let j = choose|j: int|
                    0 <= j < i && row_of_key(facts, #[trigger] keys[j], from) == Some(t);
                assert(keys.contains(keys[j]));
                assert(filed(ps, n, lo, hi, keys[j]));
            }
        }
        assert forall|t: Row| #[trigger]
            b.contains(t) == to_patch.deep_view().contains(Signed::Plus(t)) by {
            if b.contains(t) {
                let k = choose|k: Row| #[trigger]
                    filed(ps, n, lo, hi, k) && row_of_key(facts, k, to) == Some(t);
                assert(keys.contains(k));
                let j = choose|j: int| 0 <= j < keys.len() && keys[j] == k;
                assert(row_of_key(facts, keys[j], to) == Some(row_of(Signed::Plus(t))));
            }
            if to_patch.deep_view().contains(Signed::Plus(t)) {
                let j = choose|j: int|
                    0 <= j < i && row_of_key(facts, #[trigger] keys[j], to) == Some(t);
                assert(keys.contains(keys[j]));
                assert(filed(ps, n, lo, hi, keys[j]));
            }
        }
        assert forall|s: Signed| patch.deep_view().contains(s) == diff(a, b).contains(s) by {
            let t = row_of(s);
            assert(a.contains(t) == from_patch.deep_view().contains(Signed::Minus(t)));
            assert(b.contains(t) == to_patch.deep_view().contains(Signed::Plus(t)));
            assert(!from_patch.deep_view().contains(Signed::Plus(t)));
            assert(!to_patch.deep_view().contains(Signed::Minus(t)));
        }
        assert(patch.deep_view() =~= diff(a, b));
    }
    Ok(patch)
}

/// A row of a snapshot belongs to a fact, and to each fact its row.
pub proof fn lemma_snapshot_row(facts: Seq<FactModel>, at: AsOf, t: Row)
    ensures
        snapshot(facts, at).contains(t) == exists|i: int|
            0 <= i < facts.len() && fact_at(#[trigger] facts[i], at) == Some(t),
    decreases facts.len(),
{
    let whole = snapshot(facts, at);
    if facts.len() > 0 {
        let rest = facts.drop_last();
        let last = facts.last();
        lemma_snapshot_row(rest, at, t);
        let part = snapshot(rest, at);
        if whole.contains(t) {
            let k = choose|k: int| 0 <= k < whole.len() && whole[k] == t;
            if k < part.len() {
                assert(part[k] == t);
                let i = choose|i: int|
                    0 <= i < rest.len() && fact_at(#[trigger] rest[i], at) == Some(t);
                assert(fact_at(facts[i], at) == Some(t));
            } else {
                assert(fact_at(facts[facts.len() - 1], at) == Some(t));
            }
        }
        if exists|i: int| 0 <= i < facts.len() && fact_at(#[trigger] facts[i], at) == Some(t) {
            let i = choose|i: int|
                0 <= i < facts.len() && fact_at(#[trigger] facts[i], at) == Some(t);
            if i < rest.len() {
                assert(fact_at(rest[i], at) == Some(t));
                let k = choose|k: int| 0 <= k < part.len() && part[k] == t;
                assert(whole[k] == t);
            } else {
                assert(fact_at(last, at) == Some(t));
                assert(whole[part.len() as int] == t);
            }
        }
    }
}

/// Distinct facts have distinct keys, all of the declared width.
pub open spec fn keyed(facts: Seq<FactModel>, key_len: int) -> bool {
    &&& forall|i: int| 0 <= i < facts.len() ==> (#[trigger] facts[i]).key.len() == key_len
    &&& forall|i: int, j: int|
        0 <= i < facts.len() && 0 <= j < facts.len() && (#[trigger] facts[i]).key == (
        #[trigger] facts[j]).key ==> i == j
}

/// The facts of a well-formed relation have distinct keys of its key width.
pub proof fn lemma_table_keyed(table: &FactTable)
    requires
        table.wf(),
    ensures
        keyed(table.model(), table.key_len as int),
{
    let ks = table.facts.keys.deep_view();
    crate::order::lemma_sorted_no_duplicates::<Tuple>(ks);
    let facts = table.model();
    assert forall|i: int, j: int|
        0 <= i < facts.len() && 0 <= j < facts.len() && (#[trigger] facts[i]).key == (
        #[trigger] facts[j]).key implies i == j by {
        assert(ks[i] == ks[j]);
    }
}

/// Where the posting index covers the window between two valid instants of one
/// system snapshot, the patch over the filed keys is the patch between the
/// full snapshots.
pub proof fn law_posting_agrees_with_snapshots(
    facts: Seq<FactModel>,
    postings: Set<Row>,
    key_len: int,
    from: AsOf,
    to: AsOf,
)
    requires
        keyed(facts, key_len),
        from.sys == to.sys,
        posting_covers(
            facts,
            postings,
            key_len,
            earlier(from.valid, to.valid),
            later(from.valid, to.valid),
        ),
    ensures
        ({
            let lo = earlier(from.valid, to.valid);
            let hi = later(from.valid, to.valid);
            diff(
                filed_rows(facts, postings, key_len, lo, hi, from),
                filed_rows(facts, postings, key_len, lo, hi, to),
            ) == diff(snapshot(facts, from).to_set(), snapshot(facts, to).to_set())
        }),
{
    let lo = earlier(from.valid, to.valid);
    let hi = later(from.valid, to.valid);
    let a = filed_rows(facts, postings, key_len, lo, hi, from);
    let b = filed_rows(facts, postings, key_len, lo, hi, to);
    let x = snapshot(facts, from).to_set();
    let y = snapshot(facts, to).to_set();
    assert(diff(a, b) =~= diff(x, y)) by {
        assert forall|s: Signed| diff(a, b).contains(s) == diff(x, y).contains(s) by {
            let t = row_of(s);
            lemma_filed_side(facts, postings, key_len, lo, hi, from, to, t);
            lemma_filed_side(facts, postings, key_len, lo, hi, to, from, t);
        }
    }
}

/// A row that only one of two snapshots has is a row of a filed key, and the
/// other snapshot has it for no filed key either.
proof fn lemma_filed_side(
    facts: Seq<FactModel>,
    postings: Set<Row>,
    key_len: int,
    lo: i64,
    hi: i64,
    one: AsOf,
    other: AsOf,
    t: Row,
)
    requires
        keyed(facts, key_len),
        one.sys == other.sys,
        lo == earlier(one.valid, other.valid),
        hi == later(one.valid, other.valid),
        posting_covers(facts, postings, key_len, lo, hi),
    ensures
        (snapshot(facts, one).to_set().contains(t) && !snapshot(facts, other).to_set().contains(t))
            == (filed_rows(facts, postings, key_len, lo, hi, one).contains(t) && !filed_rows(
            facts,
            postings,
            key_len,
            lo,
            hi,
            other,
        ).contains(t)),
{
    let a = filed_rows(facts, postings, key_len, lo, hi, one);
    let b = filed_rows(facts, postings, key_len, lo, hi, other);
    lemma_snapshot_row(facts, one, t);
    lemma_snapshot_row(facts, other, t);
    if snapshot(facts, one).contains(t) && !snapshot(facts, other).contains(t) {
        let i = choose|i: int|
            0 <= i < facts.len() && fact_at(#[trigger] facts[i], one) == Some(t);
        let f = facts[i];
        if !filed(postings, key_len, lo, hi, f.key) {
            assert forall|j: int| 0 <= j < f.versions.len() implies !(lo < (
            #[trigger] f.versions[j]).valid <= hi) by {
                assert(facts[i].versions[j] == f.versions[j]);
            }
            lemma_resolve_between(f.versions, lo as int, hi as int, one.sys as int);
            assert(fact_at(facts[i], other) == Some(t));
        }
        lemma_row_of_fact(facts, key_len, i, one);
        assert(a.contains(t));
        if b.contains(t) {
            let k = choose|k: Row| #[trigger]
                filed(postings, key_len, lo, hi, k) && row_of_key(facts, k, other) == Some(t);
            let c = choose|c: int| is_fact_key(facts, c, k);
            assert(fact_at(facts[c], other) == Some(t));
        }
    }
    if a.contains(t) && !b.contains(t) {
        let k = choose|k: Row| #[trigger]
            filed(postings, key_len, lo, hi, k) && row_of_key(facts, k, one) == Some(t);
        let c = choose|c: int| is_fact_key(facts, c, k);
        assert(fact_at(facts[c], one) == Some(t));
        if snapshot(facts, other).contains(t) {
            let d = choose|d: int|
                0 <= d < facts.len() && fact_at(#[trigger] facts[d], other) == Some(t);
            assert(facts[d].key =~= t.take(key_len));
            assert(facts[c].key =~= t.take(key_len));
            assert(facts[c].key == facts[d].key);
            lemma_row_of_fact(facts, key_len, d, other);
            assert(b.contains(t));
        }
    }
}

/// The row of a fact's key is the fact's row.
proof fn lemma_row_of_fact(facts: Seq<FactModel>, key_len: int, i: int, at: AsOf)
    requires
        keyed(facts, key_len),
        0 <= i < facts.len(),
    ensures
        row_of_key(facts, facts[i].key, at) == fact_at(facts[i], at),
{
    assert(is_fact_key(facts, i, facts[i].key));
    let c = choose|c: int| is_fact_key(facts, c, facts[i].key);
    assert(facts[c].key == facts[i].key);
}

/// The sign column of a row that is new.
pub const SIGN_PLUS: i64 = 1;

/// The sign column of a row that is gone.
pub const SIGN_MINUS: i64 = -1;

/// A signed fact as a row: the fact's row and its sign.
pub open spec fn signed_row(s: Signed) -> Row {
    match s {
        Signed::Plus(t) => t.push(Val::Num(SIGN_PLUS)),
        Signed::Minus(t) => t.push(Val::Num(SIGN_MINUS)),
    }
}

/// The rows of a patch, in row order, the sign column last.
pub fn signed_rows(patch: &OrderedSet<SignedFact>) -> (r: Vec<Tuple>)
    requires
        patch.wf(),
    ensures
        strictly_sorted::<Tuple>(r.deep_view()),
        forall|t: Row| #[trigger]
            r.deep_view().contains(t) == exists|s: Signed| #[trigger]
                patch.deep_view().contains(s) && t == signed_row(s),
{
    let mut rows: OrderedSet<Tuple> = OrderedSet::new();
    let ghost facts = patch.items.deep_view();
    let mut i: usize = 0;
    while i < patch.items.len()
        invariant
            i <= patch.items@.len(),
            facts == patch.items.deep_view(),
            rows.wf(),
            forall|t: Row| #[trigger]
                rows.deep_view().contains(t) == exists|j: int|
                    0 <= j < i && t == signed_row(#[trigger] facts[j]),
        decreases patch.items.len() - i,
    {
        let fact = &patch.items[i];
        assert(facts[i as int] == fact.deep_view());
        let sign: i64 = match fact {
            SignedFact::Plus(_) => SIGN_PLUS,
            SignedFact::Minus(_) => SIGN_MINUS,
        };
        let mut row = copy_row(fact.tuple());
        let ghost bare = row.deep_view();
        row.push(DataValue::Num(sign));
        assert(row.deep_view() =~= bare.push(Val::Num(sign)));
        let ghost before = rows.deep_view();
        let ghost model = row.deep_view();
        rows.insert(row);
        proof {
            assert forall|t: Row| #[trigger]
                rows.deep_view().contains(t) == exists|j: int|
                    0 <= j < i + 1 && t == signed_row(#[trigger] facts[j]) by {
                if before.contains(t) {
                    let j = choose|j: int| 0 <= j < i && t == signed_row(#[trigger] facts[j]);
                    assert(t == signed_row(facts[j]));
                }
                if t == model {
                    assert(t == signed_row(facts[i as int]));
                }
                if exists|j: int| 0 <= j < i + 1 && t == signed_row(#[trigger] facts[j]) {
                    let j = choose|j: int| 0 <= j < i + 1 && t == signed_row(#[trigger] facts[j]);
                    if j < i {
                        assert(before.contains(t));
                    }
                }
            }
        }
        i = i + 1;
    }
    let ghost members = rows.deep_view();
    let r = rows.items;
    proof {
        assert forall|t: Row| #[trigger] r.deep_view().contains(t) == exists|s: Signed| #[trigger]
            patch.deep_view().contains(s) && t == signed_row(s) by {
            assert(members.contains(t) == r.deep_view().contains(t));
            if members.contains(t) {
                let j = choose|j: int| 0 <= j < i && t == signed_row(#[trigger] facts[j]);
                assert(patch.deep_view().contains(facts[j]));
            }
            if exists|s: Signed| #[trigger] patch.deep_view().contains(s) && t == signed_row(s) {
                let s = choose|s: Signed| #[trigger]
                    patch.deep_view().contains(s) && t == signed_row(s);
                assert(facts.contains(s));
                let j = choose|j: int| 0 <= j < facts.len() && facts[j] == s;
                assert(t == signed_row(facts[j]));
            }
        }
    }
    r
}

} // verus!
