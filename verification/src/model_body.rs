//! The derivations of one rule: its body matched literal by literal against
//! stored facts and the stores of derived relations.

use vstd::prelude::*;
use crate::epoch::{lemma_ordered, ordered, starts_with, EpochStore};
use crate::meaning::Stores;
use crate::names::Name;
use crate::order::{OrderedMap, OrderedSet};
use crate::program::{stored_rows, Literal, LiteralModel, Program, ProgramModel, Term, TermModel};
use crate::unify::{
    all_bound, bound, copy_bindings, ground, grounded, lemma_unified, occurs, unified, unify,
    Bindings,
};
use crate::value::{copy_row, copy_rows, lemma_rows_sorted, row_before, same_row, Row, Tuple, Val};

verus! {

/// What a rule body reads: stored facts, and the totals and deltas of the
/// relations that rules define.
pub struct World {
    pub facts: Map<Name, Set<Row>>,
    pub defined: Set<Name>,
    pub totals: Map<Name, Set<Row>>,
    pub deltas: Map<Name, Set<Row>>,
}

/// The rows of a relation: of a defined one its total, or its delta; of
/// another its stored facts.
pub open spec fn read(w: World, rel: Name, use_delta: bool) -> Set<Row> {
    if w.defined.contains(rel) {
        if use_delta {
            w.deltas[rel]
        } else {
            w.totals[rel]
        }
    } else {
        stored_rows(w.facts, rel)
    }
}

/// What a rule body reads, given the facts of a program and its stores.
pub open spec fn world_of(p: ProgramModel, defined: Set<Name>, stores: Map<Name, EpochStore>) -> World {
    World {
        facts: p.facts,
        defined,
        totals: stores.map_values(|s: EpochStore| s.rows()),
        deltas: stores.map_values(|s: EpochStore| s.delta_rows()),
    }
}

/// A match of some literals: the values of their variables, and the rows that
/// the positive ones met.
pub struct Partial {
    pub bound: Map<Name, Val>,
    pub premises: Seq<Row>,
}

/// A match with no literal.
pub open spec fn unmatched() -> Partial {
    Partial { bound: Map::empty(), premises: Seq::empty() }
}

/// The ways to continue a match with a row of a list.
pub open spec fn continued(m: Partial, l: LiteralModel, rows: Seq<Row>, want: bool) -> Seq<Partial>
    decreases rows.len(),
{
    if rows.len() == 0 {
        Seq::empty()
    } else {
        let front = continued(m, l, rows.drop_last(), want);
        match unified(l.args, rows.last(), m.bound) {
            None => front,
            Some(b) => front.push(
                Partial {
                    bound: b,
                    premises: if want {
                        m.premises.push(rows.last())
                    } else {
                        m.premises
                    },
                },
            ),
        }
    }
}

/// The ways to continue each of some matches.
pub open spec fn all_continued(
    ms: Seq<Partial>,
    l: LiteralModel,
    rows: Seq<Row>,
    want: bool,
) -> Seq<Partial>
    decreases ms.len(),
{
    if ms.len() == 0 {
        Seq::empty()
    } else {
        all_continued(ms.drop_last(), l, rows, want) + continued(ms.last(), l, rows, want)
    }
}

/// The matches of the positive literals among the first `k`, in body order.
pub open spec fn positive_matches(
    w: World,
    body: Seq<LiteralModel>,
    delta_from: Option<int>,
    want: bool,
    k: int,
) -> Seq<Partial>
    decreases k,
{
    if k <= 0 {
        seq![unmatched()]
    } else {
        let prev = positive_matches(w, body, delta_from, want, k - 1);
        let l = body[k - 1];
        if l.negated {
            prev
        } else {
            all_continued(prev, l, ordered(read(w, l.rel, delta_from == Some(k - 1))), want)
        }
    }
}

/// Whether a negated literal holds of a match.
pub open spec fn absent(w: World, l: LiteralModel, m: Partial) -> bool {
    !read(w, l.rel, false).contains(grounded(l.args, m.bound))
}

/// The matches that are left once the negated literals among the first `k`
/// are looked at.
pub open spec fn sifted_matches(
    w: World,
    body: Seq<LiteralModel>,
    delta_from: Option<int>,
    want: bool,
    k: int,
) -> Seq<Partial>
    decreases k,
{
    if k <= 0 {
        positive_matches(w, body, delta_from, want, body.len() as int)
    } else {
        let prev = sifted_matches(w, body, delta_from, want, k - 1);
        let l = body[k - 1];
        if l.negated {
            prev.filter(|m: Partial| absent(w, l, m))
        } else {
            prev
        }
    }
}

/// The model of a [`Derivation`].
pub struct DerivationModel {
    pub head: Row,
    pub premises: Seq<Row>,
}

/// The derivations of a rule, in the order in which its body is matched.
pub open spec fn derivations(
    w: World,
    head: Seq<TermModel>,
    body: Seq<LiteralModel>,
    delta_from: Option<int>,
    want: bool,
) -> Seq<DerivationModel> {
    let ms = sifted_matches(w, body, delta_from, want, body.len() as int);
    Seq::new(
        ms.len(),
        |i: int| DerivationModel { head: grounded(head, ms[i].bound), premises: ms[i].premises },
    )
}

/// Whether a variable occurs in a positive literal.
pub open spec fn is_ranged(body: Seq<LiteralModel>, x: Name) -> bool {
    exists|j: int| 0 <= j < body.len() && !(#[trigger] body[j]).negated && occurs(body[j].args, x)
}

/// Whether every variable of some terms occurs in a positive literal.
pub open spec fn all_ranged(body: Seq<LiteralModel>, args: Seq<TermModel>) -> bool {
    forall|x: Name| occurs(args, x) ==> #[trigger] is_ranged(body, x)
}

/// Whether the variables of the head and of the negated literals all occur in
/// positive literals.
pub open spec fn is_safe(head: Seq<TermModel>, body: Seq<LiteralModel>) -> bool {
    &&& all_ranged(body, head)
    &&& forall|j: int|
        0 <= j < body.len() && (#[trigger] body[j]).negated ==> all_ranged(body, body[j].args)
}

/// Matches whose variables are those of the positive literals among the first
/// `k`.
spec fn ranged_to(ms: Seq<Partial>, body: Seq<LiteralModel>, k: int) -> bool {
    forall|i: int, x: Name|
        0 <= i < ms.len() ==> (#[trigger] ms[i]).bound.contains_key(x) == #[trigger] is_ranged(
            body.take(k),
            x,
        )
}

proof fn lemma_continued_ranges(
    m: Partial,
    l: LiteralModel,
    rows: Seq<Row>,
    want: bool,
    i: int,
    x: Name,
)
    requires
        0 <= i < continued(m, l, rows, want).len(),
    ensures
        continued(m, l, rows, want)[i].bound.contains_key(x) == (m.bound.contains_key(x) || occurs(
            l.args,
            x,
        )),
    decreases rows.len(),
{
    if rows.len() > 0 {
        let front = continued(m, l, rows.drop_last(), want);
        lemma_unified(l.args, rows.last(), m.bound);
        if i < front.len() {
            lemma_continued_ranges(m, l, rows.drop_last(), want, i, x);
        } else {
            let b = unified(l.args, rows.last(), m.bound)->Some_0;
            assert(b.contains_key(x) == (m.bound.contains_key(x) || occurs(l.args, x)));
        }
    }
}

proof fn lemma_all_continued_ranges(
    ms: Seq<Partial>,
    l: LiteralModel,
    rows: Seq<Row>,
    want: bool,
    ranged: bool,
    i: int,
    x: Name,
)
    requires
        forall|j: int| 0 <= j < ms.len() ==> (#[trigger] ms[j]).bound.contains_key(x) == ranged,
        0 <= i < all_continued(ms, l, rows, want).len(),
    ensures
        all_continued(ms, l, rows, want)[i].bound.contains_key(x) == (ranged || occurs(l.args, x)),
    decreases ms.len(),
{
    if ms.len() > 0 {
        let less = ms.drop_last();
        let front = all_continued(less, l, rows, want);
        if i < front.len() {
            lemma_all_continued_ranges(less, l, rows, want, ranged, i, x);
        } else {
            assert(ms[ms.len() - 1].bound.contains_key(x) == ranged);
            lemma_continued_ranges(ms.last(), l, rows, want, i - front.len(), x);
        }
    }
}

proof fn lemma_ranged_step(body: Seq<LiteralModel>, k: int, x: Name)
    requires
        0 <= k < body.len(),
    ensures
        is_ranged(body.take(k + 1), x) == (is_ranged(body.take(k), x) || (!body[k].negated
            && occurs(body[k].args, x))),
{
    let less = body.take(k);
    let more = body.take(k + 1);
    if is_ranged(less, x) {
        let j = choose|j: int|
            0 <= j < less.len() && !(#[trigger] less[j]).negated && occurs(less[j].args, x);
        assert(more[j] == less[j]);
    }
    if is_ranged(more, x) {
        let j = choose|j: int|
            0 <= j < more.len() && !(#[trigger] more[j]).negated && occurs(more[j].args, x);
        if j < k {
            assert(less[j] == more[j]);
        }
    }
    if !body[k].negated && occurs(body[k].args, x) {
        assert(more[k] == body[k]);
    }
}

proof fn lemma_positive_ranged(
    w: World,
    body: Seq<LiteralModel>,
    delta_from: Option<int>,
    want: bool,
    k: int,
)
    requires
        0 <= k <= body.len(),
    ensures
        ranged_to(positive_matches(w, body, delta_from, want, k), body, k),
    decreases k,
{
    let ms = positive_matches(w, body, delta_from, want, k);
    if k > 0 {
        let prev = positive_matches(w, body, delta_from, want, k - 1);
        lemma_positive_ranged(w, body, delta_from, want, k - 1);
        let l = body[k - 1];
        let less = body.take(k - 1);
        assert forall|i: int, x: Name| 0 <= i < ms.len() implies (#[trigger] ms[i]).bound
            .contains_key(x) == #[trigger] is_ranged(body.take(k), x) by {
            lemma_ranged_step(body, k - 1, x);
            if !l.negated {
                assert forall|j: int| 0 <= j < prev.len() implies (#[trigger] prev[j]).bound
                    .contains_key(x) == is_ranged(less, x) by {}
                lemma_all_continued_ranges(
                    prev,
                    l,
                    ordered(read(w, l.rel, delta_from == Some(k - 1))),
                    want,
                    is_ranged(less, x),
                    i,
                    x,
                );
            }
        }
    } else {
        assert forall|i: int, x: Name| 0 <= i < ms.len() implies (#[trigger] ms[i]).bound
            .contains_key(x) == #[trigger] is_ranged(body.take(k), x) by {}
    }
}

pub proof fn lemma_sifted_within(
    w: World,
    body: Seq<LiteralModel>,
    delta_from: Option<int>,
    want: bool,
    k: int,
    i: int,
)
    requires
        0 <= k <= body.len(),
        0 <= i < sifted_matches(w, body, delta_from, want, k).len(),
    ensures
        positive_matches(w, body, delta_from, want, body.len() as int).contains(
            sifted_matches(w, body, delta_from, want, k)[i],
        ),
    decreases k,
{
    if k > 0 {
        let prev = sifted_matches(w, body, delta_from, want, k - 1);
        let l = body[k - 1];
        let ms = sifted_matches(w, body, delta_from, want, k);
        if l.negated {
            let keep = |m: Partial| absent(w, l, m);
            assert(prev.filter(keep).contains(ms[i]));
            prev.lemma_filter_contains_rev(keep, ms[i]);
            let j = choose|j: int| 0 <= j < prev.len() && prev[j] == ms[i];
            lemma_sifted_within(w, body, delta_from, want, k - 1, j);
        } else {
            lemma_sifted_within(w, body, delta_from, want, k - 1, i);
        }
    }
}

/// The matches of a body bind the variables of its positive literals.
pub proof fn lemma_sifted_ranged(
    w: World,
    body: Seq<LiteralModel>,
    delta_from: Option<int>,
    want: bool,
    k: int,
    i: int,
    x: Name,
)
    requires
        0 <= k <= body.len(),
        0 <= i < sifted_matches(w, body, delta_from, want, k).len(),
    ensures
        sifted_matches(w, body, delta_from, want, k)[i].bound.contains_key(x) == is_ranged(body, x),
{
    lemma_sifted_within(w, body, delta_from, want, k, i);
    let all = positive_matches(w, body, delta_from, want, body.len() as int);
    let m = sifted_matches(w, body, delta_from, want, k)[i];
    let j = choose|j: int| 0 <= j < all.len() && all[j] == m;
    lemma_positive_ranged(w, body, delta_from, want, body.len() as int);
    assert(body.take(body.len() as int) =~= body);
    assert(all[j].bound.contains_key(x) == is_ranged(body.take(body.len() as int), x));
}

/// One derivation: the head row, and the rows of the positive literals if
/// they were asked for.
#[derive(Debug)]
pub struct Derivation {
    pub head: Tuple,
    pub premises: Vec<Tuple>,
}

impl DeepView for Derivation {
    type V = DerivationModel;

    open spec fn deep_view(&self) -> DerivationModel {
        DerivationModel { head: self.head.deep_view(), premises: self.premises.deep_view() }
    }
}

/// A match under way.
struct Match {
    bound: Bindings,
    premises: Vec<Tuple>,
}

spec fn match_model(m: Match) -> Partial {
    Partial { bound: bound(m.bound), premises: m.premises.deep_view() }
}

spec fn match_models(ms: Seq<Match>) -> Seq<Partial> {
    Seq::new(ms.len(), |i: int| match_model(ms[i]))
}

spec fn matches_wf(ms: Seq<Match>) -> bool {
    forall|i: int| 0 <= i < ms.len() ==> (#[trigger] ms[i]).bound.wf()
}

fn continue_match(m: &Match, l: &Literal, rows: &Vec<Tuple>, want: bool, out: &mut Vec<Match>)
    requires
        m.bound.wf(),
        matches_wf(old(out)@),
    ensures
        matches_wf(final(out)@),
        match_models(final(out)@) == match_models(old(out)@) + continued(
            match_model(*m),
            l.deep_view(),
            rows.deep_view(),
            want,
        ),
{
    let ghost start = match_models(out@);
    let ghost mm = match_model(*m);
    let ghost lm = l.deep_view();
    let ghost all = rows.deep_view();
    let mut i: usize = 0;
    proof {
        assert(all.len() == rows@.len());
        assert(start + continued(mm, lm, all.take(0), want) =~= start);
    }
    while i < rows.len()
        invariant
            i <= rows@.len(),
            m.bound.wf(),
            mm == match_model(*m),
            lm == l.deep_view(),
            all == rows.deep_view(),
            all.len() == rows@.len(),
            matches_wf(out@),
            match_models(out@) == start + continued(mm, lm, all.take(i as int), want),
        decreases rows.len() - i,
    {
        let ghost before = out@;
        proof {
            assert(all.take(i + 1).drop_last() =~= all.take(i as int));
            assert(all.take(i + 1).last() == rows@[i as int].deep_view());
        }
        match unify(&l.args, &rows[i], &m.bound) {
            Some(b) => {
                let mut premises = copy_rows(&m.premises);
                if want {
                    let ghost held = premises.deep_view();
                    premises.push(copy_row(&rows[i]));
                    proof {
                        assert(premises.deep_view() =~= held.push(rows@[i as int].deep_view()));
                    }
                }
                out.push(Match { bound: b, premises });
                proof {
                    let front = continued(mm, lm, all.take(i as int), want);
                    let x = match_model(out@[before.len() as int]);
                    assert(match_models(out@) =~= match_models(before).push(x));
                    assert(continued(mm, lm, all.take(i + 1), want) == front.push(x));
                    assert(start + front.push(x) =~= (start + front).push(x));
                }
            },
            None => {},
        }
        i = i + 1;
    }
    proof {
        assert(all.take(i as int) =~= all);
    }
}

fn continue_all(ms: &Vec<Match>, l: &Literal, rows: &Vec<Tuple>, want: bool) -> (r: Vec<Match>)
    requires
        matches_wf(ms@),
    ensures
        matches_wf(r@),
        match_models(r@) == all_continued(
            match_models(ms@),
            l.deep_view(),
            rows.deep_view(),
            want,
        ),
{
    let ghost mm = match_models(ms@);
    let mut out: Vec<Match> = Vec::new();
    let mut i: usize = 0;
    proof {
        assert(match_models(out@) =~= Seq::<Partial>::empty());
    }
    while i < ms.len()
        invariant
            i <= ms@.len(),
            mm == match_models(ms@),
            matches_wf(ms@),
            matches_wf(out@),
            match_models(out@) == all_continued(
                mm.take(i as int),
                l.deep_view(),
                rows.deep_view(),
                want,
            ),
        decreases ms.len() - i,
    {
        proof {
            assert(mm.take(i + 1).drop_last() =~= mm.take(i as int));
            assert(mm.take(i + 1).last() == match_model(ms@[i as int]));
        }
        continue_match(&ms[i], l, rows, want, &mut out);
        i = i + 1;
    }
    proof {
        assert(mm.take(i as int) =~= mm);
    }
    out
}

/// An occurrence of a defined relation in a rule body.
#[derive(Debug)]
pub struct Occurrence {
    pub at: usize,
    pub rel: String,
}

/// The occurrences of defined relations among the first `k` literals.
pub open spec fn occurrences(body: Seq<LiteralModel>, defined: Set<Name>, k: int) -> Seq<(int, Name)>
    decreases k,
{
    if k <= 0 {
        Seq::empty()
    } else if defined.contains(body[k - 1].rel) {
        occurrences(body, defined, k - 1).push((k - 1, body[k - 1].rel))
    } else {
        occurrences(body, defined, k - 1)
    }
}

/// Occurrences as places and names.
pub open spec fn occurrence_models(v: Seq<Occurrence>) -> Seq<(int, Name)> {
    Seq::new(v.len(), |i: int| (v[i].at as int, v[i].rel@))
}

/// A rule, ready to be matched.
#[derive(Debug)]
pub struct ModelBody<'a> {
    pub head: Vec<Term>,
    pub body: Vec<Literal>,
    pub program: &'a Program,
    /// The relations that rules define.
    pub idb: &'a OrderedSet<String>,
    /// Where the body reads a defined relation, positive or negated.
    pub contained: Vec<Occurrence>,
}

impl<'a> ModelBody<'a> {
    pub open spec fn wf(&self) -> bool {
        &&& self.program.wf()
        &&& self.idb.wf()
        &&& occurrence_models(self.contained@) == occurrences(
            self.body.deep_view(),
            self.idb.deep_view(),
            self.body@.len() as int,
        )
    }

    /// What the rule reads from stores.
    pub open spec fn world(&self, stores: Stores) -> World {
        world_of(self.program.deep_view(), self.idb.deep_view(), stores@)
    }

    /// Whether stores hold every defined relation that the body reads.
    pub open spec fn served_by(&self, stores: Stores) -> bool {
        &&& stores.wf()
        &&& forall|j: int|
            0 <= j < self.body@.len() && self.idb.deep_view().contains(
                (#[trigger] self.body@[j]).rel@,
            ) ==> stores@.contains_key(self.body@[j].rel@)
    }

    pub fn new(
        head: Vec<Term>,
        body: Vec<Literal>,
        program: &'a Program,
        idb: &'a OrderedSet<String>,
    ) -> (r: Self)
        requires
            program.wf(),
            idb.wf(),
        ensures
            r.wf(),
            r.head == head,
            r.body == body,
            r.program == program,
            r.idb == idb,
    {
        let mut contained: Vec<Occurrence> = Vec::new();
        let ghost bm = body.deep_view();
        let ghost defined = idb.deep_view();
        let mut i: usize = 0;
        proof {
            assert(occurrence_models(contained@) =~= occurrences(bm, defined, 0));
        }
        while i < body.len()
            invariant
                i <= body@.len(),
                bm == body.deep_view(),
                idb.wf(),
                defined == idb.deep_view(),
                occurrence_models(contained@) == occurrences(bm, defined, i as int),
            decreases body.len() - i,
        {
            proof {
                assert(bm[i as int] == body@[i as int].deep_view());
            }
            if idb.contains(&body[i].rel) {
                let ghost prev = occurrence_models(contained@);
                contained.push(Occurrence { at: i, rel: body[i].rel.clone() });
                proof {
                    assert(occurrence_models(contained@) =~= prev.push(
                        (i as int, body@[i as int].rel@),
                    ));
                }
            }
            i = i + 1;
        }
        ModelBody { head, body, program, idb, contained }
    }

    /// The rows of a relation, in tuple order: of a defined one those of its
    /// total, or its delta; of another its stored facts.
    pub fn rows_of(&self, stores: &Stores, rel: &String, use_delta: bool) -> (r: Vec<Tuple>)
        requires
            self.wf(),
            stores.wf(),
            self.idb.deep_view().contains(rel@) ==> stores@.contains_key(rel@),
        ensures
            r.deep_view() == ordered(read(self.world(*stores), rel@, use_delta)),
            r.deep_view().to_set() == read(self.world(*stores), rel@, use_delta),
    {
        if self.idb.contains(rel) {
            match stores.get(rel) {
                Some(store) => {
                    if use_delta {
                        let found = store.delta_all_iter();
                        crate::probe::own_rows(&found)
                    } else {
                        let found = store.all_iter();
                        crate::probe::own_rows(&found)
                    }
                },
                None => Vec::new(),
            }
        } else {
            match self.program.facts.get(rel) {
                Some(set) => {
                    proof {
                        lemma_ordered(set.items.deep_view());
                    }
                    copy_rows(&set.items)
                },
                None => {
                    let none: Vec<Tuple> = Vec::new();
                    proof {
                        assert(none.deep_view().to_set() =~= Set::<Row>::empty());
                        lemma_ordered(none.deep_view());
                    }
                    none
                },
            }
        }
    }

    /// Whether a relation holds a row.
    pub fn negated_probe_hits(&self, stores: &Stores, rel: &String, probe: &Tuple) -> (r: bool)
        requires
            self.wf(),
            stores.wf(),
            self.idb.deep_view().contains(rel@) ==> stores@.contains_key(rel@),
        ensures
            r == read(self.world(*stores), rel@, false).contains(probe.deep_view()),
    {
        if self.idb.contains(rel) {
            match stores.get(rel) {
                Some(store) => {
                    let found = store.prefix_iter(probe);
                    proof {
                        lemma_prefix_finds(store.rows(), found.deep_view(), probe.deep_view());
                        assert(found.deep_view().len() == found@.len());
                    }
                    if found.len() == 0 {
                        false
                    } else {
                        let first = found[0].into_tuple();
                        same_row(&first, probe)
                    }
                },
                None => false,
            }
        } else {
            match self.program.facts.get(rel) {
                Some(set) => set.contains(probe),
                None => false,
            }
        }
    }

    fn sift(&self, stores: &Stores, ms: Vec<Match>, l: &Literal) -> (r: Vec<Match>)
        requires
            self.wf(),
            stores.wf(),
            self.idb.deep_view().contains(l.rel@) ==> stores@.contains_key(l.rel@),
            matches_wf(ms@),
            forall|i: int|
                0 <= i < ms@.len() ==> all_bound(
                    l.args.deep_view(),
                    bound((#[trigger] ms@[i]).bound),
                ),
        ensures
            matches_wf(r@),
            match_models(r@) == match_models(ms@).filter(
                |m: Partial| absent(self.world(*stores), l.deep_view(), m),
            ),
    {
        let ghost w = self.world(*stores);
        let ghost lm = l.deep_view();
        let ghost keep = |m: Partial| absent(w, lm, m);
        let ghost mm = match_models(ms@);
        let mut out: Vec<Match> = Vec::new();
        let mut i: usize = 0;
        proof {
            reveal(Seq::filter);
            assert(mm.take(0).filter(keep) =~= Seq::<Partial>::empty());
            assert(match_models(out@) =~= Seq::<Partial>::empty());
        }
        while i < ms.len()
            invariant
                i <= ms@.len(),
                self.wf(),
                stores.wf(),
                self.idb.deep_view().contains(l.rel@) ==> stores@.contains_key(l.rel@),
                w == self.world(*stores),
                lm == l.deep_view(),
                keep == (|m: Partial| absent(w, lm, m)),
                mm == match_models(ms@),
                matches_wf(ms@),
                matches_wf(out@),
                forall|j: int|
                    0 <= j < ms@.len() ==> all_bound(
                        l.args.deep_view(),
                        bound((#[trigger] ms@[j]).bound),
                    ),
                match_models(out@) == mm.take(i as int).filter(keep),
            decreases ms.len() - i,
        {
            let probe = ground(&l.args, &ms[i].bound);
            let hit = self.negated_probe_hits(stores, &l.rel, &probe);
            let ghost before = out@;
            proof {
                reveal(Seq::filter);
                assert(mm.take(i + 1).drop_last() =~= mm.take(i as int));
                assert(mm.take(i + 1).last() == match_model(ms@[i as int]));
                assert(keep(match_model(ms@[i as int])) == !hit);
            }
            if !hit {
                out.push(
                    Match {
                        bound: copy_bindings(&ms[i].bound),
                        premises: copy_rows(&ms[i].premises),
                    },
                );
                proof {
                    assert(match_models(out@) =~= match_models(before).push(
                        match_model(ms@[i as int]),
                    ));
                }
            }
            i = i + 1;
        }
        proof {
            assert(mm.take(i as int) =~= mm);
        }
        out
    }

    /// The matches of the positive literals, in body order.
    fn match_positives(&self, stores: &Stores, delta_from: Option<usize>, want: bool) -> (r: Vec<
        Match,
    >)
        requires
            self.wf(),
            self.served_by(*stores),
        ensures
            matches_wf(r@),
            match_models(r@) == positive_matches(
                self.world(*stores),
                self.body.deep_view(),
                place_model(delta_from),
                want,
                self.body@.len() as int,
            ),
    {
        let ghost w = self.world(*stores);
        let ghost bm = self.body.deep_view();
        let ghost from = place_model(delta_from);
        let mut ms: Vec<Match> = Vec::new();
        ms.push(Match { bound: OrderedMap::new(), premises: Vec::new() });
        proof {
            assert(bound(ms@[0].bound) =~= Map::<Name, Val>::empty());
            assert(ms@[0].premises.deep_view() =~= Seq::<Row>::empty());
            assert(match_models(ms@) =~= seq![unmatched()]);
        }
        let mut k: usize = 0;
        while k < self.body.len()
            invariant
                k <= self.body@.len(),
                self.wf(),
                self.served_by(*stores),
                w == self.world(*stores),
                bm == self.body.deep_view(),
                from == place_model(delta_from),
                matches_wf(ms@),
                match_models(ms@) == positive_matches(w, bm, from, want, k as int),
            decreases self.body.len() - k,
        {
            let l = &self.body[k];
            proof {
                assert(bm[k as int] == l.deep_view());
            }
            if !l.negated {
                let is_delta = match delta_from {
                    Some(at) => at == k,
                    None => false,
                };
                let rows = self.rows_of(stores, &l.rel, is_delta);
                ms = continue_all(&ms, l, &rows, want);
            }
            k = k + 1;
        }
        ms
    }

    /// The derivations of the rule. A literal reads the delta of its relation
    /// if the delta is asked for at its place, and the total otherwise.
    pub fn for_each_derivation(
        &self,
        stores: &Stores,
        delta_from: Option<usize>,
        want_premises: bool,
    ) -> (r: Vec<Derivation>)
        requires
            self.wf(),
            self.served_by(*stores),
            is_safe(self.head.deep_view(), self.body.deep_view()) || positive_matches(
                self.world(*stores),
                self.body.deep_view(),
                place_model(delta_from),
                want_premises,
                self.body@.len() as int,
            ).len() == 0,
        ensures
            r.deep_view() == derivations(
                self.world(*stores),
                self.head.deep_view(),
                self.body.deep_view(),
                place_model(delta_from),
                want_premises,
            ),
    {
        let ghost w = self.world(*stores);
        let ghost bm = self.body.deep_view();
        let ghost hm = self.head.deep_view();
        let ghost from = place_model(delta_from);
        let ghost n = self.body@.len() as int;
        let mut ms = self.match_positives(stores, delta_from, want_premises);
        let mut k: usize = 0;
        proof {
            assert(bm.len() == n);
        }
        while k < self.body.len()
            invariant
                k <= self.body@.len(),
                self.wf(),
                self.served_by(*stores),
                w == self.world(*stores),
                bm == self.body.deep_view(),
                hm == self.head.deep_view(),
                from == place_model(delta_from),
                n == self.body@.len(),
                bm.len() == n,
                is_safe(hm, bm) || positive_matches(w, bm, from, want_premises, n).len() == 0,
                matches_wf(ms@),
                match_models(ms@) == sifted_matches(w, bm, from, want_premises, k as int),
            decreases self.body.len() - k,
        {
            let l = &self.body[k];
            proof {
                assert(bm[k as int] == l.deep_view());
                if l.negated {
                    lemma_sifted_bound(w, hm, bm, from, want_premises, k as int, l.args.deep_view());
                    assert forall|i: int| 0 <= i < ms@.len() implies all_bound(
                        l.args.deep_view(),
                        bound((#[trigger] ms@[i]).bound),
                    ) by {
                        assert(match_models(ms@)[i] == match_model(ms@[i]));
                    }
                }
            }
            if l.negated {
                ms = self.sift(stores, ms, l);
            }
            k = k + 1;
        }
        proof {
            lemma_sifted_bound(w, hm, bm, from, want_premises, n, hm);
        }
        let ghost whole = derivations(w, hm, bm, from, want_premises);
        let ghost found = match_models(ms@);
        let mut out: Vec<Derivation> = Vec::new();
        let mut i: usize = 0;
        proof {
            assert(out.deep_view() =~= whole.take(0));
        }
        while i < ms.len()
            invariant
                i <= ms@.len(),
                self.wf(),
                hm == self.head.deep_view(),
                matches_wf(ms@),
                found == match_models(ms@),
                found == sifted_matches(w, bm, from, want_premises, n),
                bm.len() == n,
                whole == derivations(w, hm, bm, from, want_premises),
                forall|j: int| 0 <= j < found.len() ==> all_bound(hm, (#[trigger] found[j]).bound),
                out.deep_view() == whole.take(i as int),
            decreases ms.len() - i,
        {
            let ghost prev = out.deep_view();
            proof {
                assert(found[i as int] == match_model(ms@[i as int]));
            }
            let head = ground(&self.head, &ms[i].bound);
            let d = Derivation { head, premises: copy_rows(&ms[i].premises) };
            let ghost m = d.deep_view();
            out.push(d);
            proof {
                assert(m == whole[i as int]);
                assert(out.deep_view() =~= prev.push(m));
                assert(whole.take(i + 1) =~= prev.push(m));
            }
            i = i + 1;
        }
        proof {
            assert(whole.take(i as int) =~= whole);
        }
        out
    }

    /// Where the body reads a defined relation.
    pub fn contained_rules(&self) -> (r: &Vec<Occurrence>)
        requires
            self.wf(),
        ensures
            occurrence_models(r@) == occurrences(
                self.body.deep_view(),
                self.idb.deep_view(),
                self.body@.len() as int,
            ),
    {
        &self.contained
    }
}

/// A place in a rule body.
pub open spec fn place_model(at: Option<usize>) -> Option<int> {
    match at {
        Some(k) => Some(k as int),
        None => None,
    }
}

/// The matches of a body bind the variables of what a safe rule looks at.
proof fn lemma_sifted_bound(
    w: World,
    head: Seq<TermModel>,
    body: Seq<LiteralModel>,
    delta_from: Option<int>,
    want: bool,
    k: int,
    args: Seq<TermModel>,
)
    requires
        0 <= k <= body.len(),
        is_safe(head, body) || positive_matches(w, body, delta_from, want, body.len() as int).len()
            == 0,
        args == head || (k < body.len() && body[k].negated && args == body[k].args),
    ensures
        forall|i: int|
            0 <= i < sifted_matches(w, body, delta_from, want, k).len() ==> all_bound(
                args,
                (#[trigger] sifted_matches(w, body, delta_from, want, k)[i]).bound,
            ),
{
    let ms = sifted_matches(w, body, delta_from, want, k);
    assert forall|i: int| 0 <= i < ms.len() implies all_bound(args, (#[trigger] ms[i]).bound) by {
        lemma_sifted_within(w, body, delta_from, want, k, i);
        assert(is_safe(head, body));
        assert(all_ranged(body, args));
        assert forall|x: Name| occurs(args, x) implies #[trigger] ms[i].bound.contains_key(x) by {
            assert(is_ranged(body, x));
            lemma_sifted_ranged(w, body, delta_from, want, k, i, x);
        }
    }
}

/// The first row that begins with a probe is the probe, if it is there.
proof fn lemma_prefix_finds(rows: Set<Row>, found: Seq<Row>, probe: Row)
    requires
        crate::order::strictly_sorted::<Tuple>(found),
        forall|row: Row| #[trigger]
            found.contains(row) == (rows.contains(row) && starts_with(row, probe)),
    ensures
        rows.contains(probe) == (found.len() > 0 && found[0] == probe),
{
    if found.len() > 0 && found[0] == probe {
        assert(found.contains(found[0]));
    }
    if rows.contains(probe) {
        assert(probe.take(probe.len() as int) =~= probe);
        assert(found.contains(probe));
        let k = choose|k: int| 0 <= k < found.len() && found[k] == probe;
        lemma_rows_sorted(found);
        if k > 0 {
            assert(row_before(found[0], found[k]));
            assert(found.contains(found[0]));
            crate::steps::lemma_starts_not_before(found[0], probe);
        }
    }
}

} // verus!
