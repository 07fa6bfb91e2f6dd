//! Standing queries: how the commits on the relations a query depends on are
//! folded into one signed patch.

use vstd::prelude::*;
use crate::delta::{diff, diff_sets, patched, Signed, SignedFact};
use crate::names::{copy_names, names, Name};
use crate::order::OrderedSet;
use crate::value::{copy_row, copy_rows, Row, Tuple};

verus! {

/// What a commit did to a relation.
#[derive(Clone, Copy, Debug, PartialEq, Eq, Structural)]
pub enum CallbackOp {
    Put,
    Rm,
}

/// A commit on a relation. A put tells the rows it wrote and the rows they
/// replaced; a removal tells bare keys as new, and the rows it removed as old.
#[derive(Debug)]
pub struct CallbackEvent {
    pub op: CallbackOp,
    pub new: Vec<Tuple>,
    pub old: Vec<Tuple>,
}

/// What a commit changes: of a put, the rows on one side only; of a removal,
/// the rows removed.
pub open spec fn event_patch(e: CallbackEvent) -> Set<Signed> {
    match e.op {
        CallbackOp::Put => diff(e.old.deep_view().to_set(), e.new.deep_view().to_set()),
        CallbackOp::Rm => diff(e.old.deep_view().to_set(), Set::empty()),
    }
}

/// The same row with the other sign.
pub open spec fn flipped(s: Signed) -> Signed {
    match s {
        Signed::Plus(t) => Signed::Minus(t),
        Signed::Minus(t) => Signed::Plus(t),
    }
}

/// One patch after another: of a row that both speak of, the later one decides
/// whether it is there in the end.
pub open spec fn overlaid(first: Set<Signed>, second: Set<Signed>) -> Set<Signed> {
    Set::new(
        |s: Signed| second.contains(s) || (first.contains(s) && !second.contains(flipped(s))),
    )
}

/// What commits change, all in one patch: the last word on every row.
pub open spec fn folded(events: Seq<CallbackEvent>) -> Set<Signed>
    decreases events.len(),
{
    if events.len() == 0 {
        Set::empty()
    } else {
        overlaid(folded(events.drop_last()), event_patch(events.last()))
    }
}

/// Writing a row that is already there, unchanged, changes nothing.
pub proof fn law_redundant_put_changes_nothing(e: CallbackEvent)
    requires
        e.op == CallbackOp::Put,
        e.new.deep_view().to_set() == e.old.deep_view().to_set(),
    ensures
        event_patch(e) == Set::<Signed>::empty(),
{
    assert(event_patch(e) =~= Set::<Signed>::empty());
}

/// A put takes the rows it replaces out and puts the rows it writes in.
pub proof fn law_put_replaces(e: CallbackEvent, rows: Set<Row>)
    requires
        e.op == CallbackOp::Put,
        e.old.deep_view().to_set().subset_of(rows),
    ensures
        patched(rows, event_patch(e)) == rows.difference(e.old.deep_view().to_set()).union(
            e.new.deep_view().to_set(),
        ),
{
    assert(patched(rows, event_patch(e)) =~= rows.difference(e.old.deep_view().to_set()).union(
        e.new.deep_view().to_set(),
    ));
}

/// A removal takes the rows it removed out.
pub proof fn law_removal_takes_out(e: CallbackEvent, rows: Set<Row>)
    requires
        e.op == CallbackOp::Rm,
    ensures
        patched(rows, event_patch(e)) == rows.difference(e.old.deep_view().to_set()),
{
    assert(patched(rows, event_patch(e)) =~= rows.difference(e.old.deep_view().to_set()));
}

/// A commit that the rows already reflect changes nothing more.
pub proof fn law_reflected_commit_is_absorbed(e: CallbackEvent, rows: Set<Row>)
    ensures
        patched(patched(rows, event_patch(e)), event_patch(e)) == patched(rows, event_patch(e)),
{
    assert(patched(patched(rows, event_patch(e)), event_patch(e)) =~= patched(
        rows,
        event_patch(e),
    ));
}

/// The rows after commits, one after the other.
pub open spec fn after(rows: Set<Row>, events: Seq<CallbackEvent>) -> Set<Row>
    decreases events.len(),
{
    if events.len() == 0 {
        rows
    } else {
        patched(after(rows, events.drop_last()), event_patch(events.last()))
    }
}

/// A patch in which no row both comes and goes.
pub open spec fn one_way(patch: Set<Signed>) -> bool {
    forall|s: Signed| !(#[trigger] patch.contains(s) && patch.contains(flipped(s)))
}

/// Commits may be folded into one patch: from any rows it leads where the
/// commits lead one after the other, so that no commit is lost. No row both
/// comes and goes in it.
pub proof fn law_commits_fold(rows: Set<Row>, events: Seq<CallbackEvent>)
    ensures
        patched(rows, folded(events)) == after(rows, events),
        one_way(folded(events)),
    decreases events.len(),
{
    if events.len() == 0 {
        assert(patched(rows, folded(events)) =~= rows);
    } else {
        let less = folded(events.drop_last());
        let last = event_patch(events.last());
        let all = folded(events);
        law_commits_fold(rows, events.drop_last());
        assert forall|t: Row| patched(rows, all).contains(t) == patched(
            patched(rows, less),
            last,
        ).contains(t) by {
            assert(flipped(Signed::Plus(t)) == Signed::Minus(t));
            assert(flipped(Signed::Minus(t)) == Signed::Plus(t));
            assert(!(less.contains(Signed::Plus(t)) && less.contains(flipped(Signed::Plus(t)))));
        }
        assert(patched(rows, all) =~= patched(patched(rows, less), last));
        assert forall|s: Signed| !(#[trigger] all.contains(s) && all.contains(flipped(s))) by {
            assert(flipped(flipped(s)) == s);
            assert(!(less.contains(s) && less.contains(flipped(s))));
        }
    }
}

/// A row that commits do not speak of is not spoken of by the first of them.
proof fn lemma_touched(events: Seq<CallbackEvent>, k: int, t: Row)
    requires
        0 <= k <= events.len(),
        !folded(events).contains(Signed::Plus(t)),
        !folded(events).contains(Signed::Minus(t)),
    ensures
        !folded(events.take(k)).contains(Signed::Plus(t)),
        !folded(events.take(k)).contains(Signed::Minus(t)),
    decreases events.len(),
{
    if k == events.len() {
        assert(events.take(k) =~= events);
    } else {
        let less = events.drop_last();
        let last = event_patch(events.last());
        assert(flipped(Signed::Plus(t)) == Signed::Minus(t));
        assert(flipped(Signed::Minus(t)) == Signed::Plus(t));
        assert(!last.contains(Signed::Plus(t)) && !last.contains(Signed::Minus(t)));
        lemma_touched(less, k, t);
        assert(less.take(k) =~= events.take(k));
    }
}

/// Rows that already reflect the first of the commits, as a read taken after
/// the subscription may, are brought to the same end by the patch of them all.
pub proof fn law_reads_may_be_ahead(rows: Set<Row>, events: Seq<CallbackEvent>, k: int)
    requires
        0 <= k <= events.len(),
    ensures
        patched(after(rows, events.take(k)), folded(events)) == after(rows, events),
{
    let all = folded(events);
    let some = folded(events.take(k));
    law_commits_fold(rows, events);
    law_commits_fold(rows, events.take(k));
    assert forall|t: Row| patched(patched(rows, some), all).contains(t) == patched(
        rows,
        all,
    ).contains(t) by {
        if !all.contains(Signed::Plus(t)) && !all.contains(Signed::Minus(t)) {
            lemma_touched(events, k, t);
        }
    }
    assert(patched(patched(rows, some), all) =~= patched(rows, all));
}

/// A query that has caught up holds of a stored relation what a query that is
/// registered afresh holds.
pub proof fn law_caught_up_is_fresh(rows: Set<Row>, events: Seq<CallbackEvent>)
    ensures
        patched(patched(Set::empty(), diff(Set::empty(), rows)), folded(events)) == patched(
            Set::empty(),
            diff(Set::empty(), after(rows, events)),
        ),
{
    let now = after(rows, events);
    law_commits_fold(rows, events);
    assert(patched(Set::empty(), diff(Set::empty(), rows)) =~= rows);
    assert(patched(Set::empty(), diff(Set::empty(), now)) =~= now);
}

/// A set of copies of rows.
fn row_set(rows: &Vec<Tuple>) -> (r: OrderedSet<Tuple>)
    ensures
        r.wf(),
        r.deep_view() == rows.deep_view().to_set(),
{
    OrderedSet::from_vec(copy_rows(rows))
}

/// Lay one patch over another.
fn overlay(patch: &mut OrderedSet<SignedFact>, more: OrderedSet<SignedFact>)
    requires
        old(patch).wf(),
        more.wf(),
        one_way(more.deep_view()),
    ensures
        final(patch).wf(),
        final(patch).deep_view() == overlaid(old(patch).deep_view(), more.deep_view()),
{
    let ghost before = patch.deep_view();
    let ghost all = more.items.deep_view();
    let mut i: usize = 0;
    proof {
        assert(patch.deep_view() =~= overlaid(before, all.take(0).to_set()));
    }
    while i < more.items.len()
        invariant
            i <= more.items@.len(),
            patch.wf(),
            all == more.items.deep_view(),
            all.len() == more.items@.len(),
            one_way(all.to_set()),
            patch.deep_view() == overlaid(before, all.take(i as int).to_set()),
        decreases more.items.len() - i,
    {
        let (fact, other) = match &more.items[i] {
            SignedFact::Plus(t) => (
                SignedFact::Plus(copy_row(t)),
                SignedFact::Minus(copy_row(t)),
            ),
            SignedFact::Minus(t) => (
                SignedFact::Minus(copy_row(t)),
                SignedFact::Plus(copy_row(t)),
            ),
        };
        let ghost f = all[i as int];
        let ghost done = all.take(i as int).to_set();
        proof {
            assert(f == more.items@[i as int].deep_view());
            assert(fact.deep_view() == f && other.deep_view() == flipped(f));
        }
        patch.remove(&other);
        patch.insert(fact);
        proof {
            let next = all.take(i + 1).to_set();
            assert(all.take(i + 1) =~= all.take(i as int).push(f));
            assert forall|s: Signed| next.contains(s) == (s == f || done.contains(s)) by {
                if done.contains(s) {
                    let k = all.take(i as int).index_of(s);
                    assert(all.take(i + 1)[k] == s);
                }
                if s == f {
                    assert(all.take(i + 1)[i as int] == s);
                }
                if next.contains(s) && s != f {
                    let k = all.take(i + 1).index_of(s);
                    assert(all.take(i as int)[k] == s);
                }
            }
            assert(!done.contains(flipped(f))) by {
                if done.contains(flipped(f)) {
                    let k = all.take(i as int).index_of(flipped(f));
                    assert(all[k] == flipped(f));
                    assert(all.to_set().contains(f) && all.to_set().contains(flipped(f)));
                }
            }
            assert forall|s: Signed| patch.deep_view().contains(s) == overlaid(
                before,
                next,
            ).contains(s) by {
                assert(flipped(flipped(s)) == s);
            }
            assert(patch.deep_view() =~= overlaid(before, next));
        }
        i = i + 1;
    }
    proof {
        assert(all.take(i as int) =~= all);
        assert(more.deep_view() =~= all.to_set());
    }
}

/// Fold commits on one relation into a patch.
pub fn fold_events(events: &Vec<CallbackEvent>) -> (r: OrderedSet<SignedFact>)
    ensures
        r.wf(),
        r.deep_view() == folded(events@),
        forall|rows: Set<Row>| #[trigger]
            patched(rows, r.deep_view()) == after(rows, events@),
{
    let mut patch: OrderedSet<SignedFact> = OrderedSet::new();
    let mut i: usize = 0;
    proof {
        assert(events@.take(0) =~= Seq::<CallbackEvent>::empty());
    }
    while i < events.len()
        invariant
            i <= events@.len(),
            patch.wf(),
            patch.deep_view() == folded(events@.take(i as int)),
        decreases events.len() - i,
    {
        let event = &events[i];
        let was = row_set(&event.old);
        let more = match event.op {
            CallbackOp::Put => {
                let now = row_set(&event.new);
                diff_sets(&was, &now)
            },
            CallbackOp::Rm => {
                let now: OrderedSet<Tuple> = OrderedSet::new();
                diff_sets(&was, &now)
            },
        };
        proof {
            assert(one_way(more.deep_view()));
        }
        overlay(&mut patch, more);
        proof {
            assert(events@.take(i + 1).drop_last() =~= events@.take(i as int));
            assert(events@.take(i + 1).last() == events@[i as int]);
        }
        i = i + 1;
    }
    proof {
        assert(events@.take(i as int) =~= events@);
        assert forall|rows: Set<Row>| #[trigger]
            patched(rows, patch.deep_view()) == after(rows, events@) by {
            law_commits_fold(rows, events@);
        }
    }
    patch
}

/// The patches of relations, in the order of the relations.
#[derive(Debug)]
pub struct Patches {
    pub relations: Vec<String>,
    pub patches: Vec<OrderedSet<SignedFact>>,
}

/// Fold what is pending on every relation into patches. Nothing where no
/// commit changes anything.
pub fn pending_patches(relations: &Vec<String>, pending: &Vec<Vec<CallbackEvent>>) -> (r: Option<
    Patches,
>)
    requires
        relations@.len() == pending@.len(),
    ensures
        match r {
            Some(p) => {
                &&& names(p.relations@) == names(relations@)
                &&& p.patches@.len() == pending@.len()
                &&& forall|i: int|
                    0 <= i < pending@.len() ==> (#[trigger] p.patches@[i]).wf()
                        && p.patches@[i].deep_view() == folded(pending@[i]@)
                &&& forall|i: int, rows: Set<Row>|
                    0 <= i < pending@.len() ==> #[trigger] patched(
                        rows,
                        p.patches@[i].deep_view(),
                    ) == after(rows, pending@[i]@)
                &&& exists|i: int|
                    0 <= i < pending@.len() && folded((#[trigger] pending@[i])@) != Set::<
                        Signed,
                    >::empty()
            },
            None => {
                &&& forall|i: int|
                    0 <= i < pending@.len() ==> folded((#[trigger] pending@[i])@) == Set::<
                        Signed,
                    >::empty()
                &&& forall|i: int, rows: Set<Row>|
                    0 <= i < pending@.len() ==> #[trigger] after(rows, pending@[i]@) == rows
            },
        },
{
    let mut patches: Vec<OrderedSet<SignedFact>> = Vec::new();
    let mut some = false;
    let mut i: usize = 0;
    while i < pending.len()
        invariant
            i <= pending@.len(),
            patches@.len() == i,
            forall|j: int|
                0 <= j < i ==> (#[trigger] patches@[j]).wf() && patches@[j].deep_view() == folded(
                    pending@[j]@,
                ),
            some == exists|j: int|
                0 <= j < i && folded((#[trigger] pending@[j])@) != Set::<Signed>::empty(),
        decreases pending.len() - i,
    {
        let patch = fold_events(&pending[i]);
        let n: usize = patch.len();
        proof {
            if n == 0 {
                assert(patch.deep_view() =~= Set::<Signed>::empty());
            }
            assert(folded(pending@[i as int]@) == patch.deep_view());
        }
        if n > 0 {
            proof {
                assert(patch.deep_view() != Set::<Signed>::empty());
            }
            some = true;
        }
        patches.push(patch);
        i = i + 1;
    }
    proof {
        assert forall|j: int, rows: Set<Row>| 0 <= j < pending@.len() implies #[trigger] patched(
            rows,
            patches@[j].deep_view(),
        ) == after(rows, pending@[j]@) by {
            law_commits_fold(rows, pending@[j]@);
        }
        if !some {
            assert forall|j: int, rows: Set<Row>| 0 <= j < pending@.len() implies #[trigger] after(
                rows,
                pending@[j]@,
            ) == rows by {
                law_commits_fold(rows, pending@[j]@);
                assert(folded(pending@[j]@) == Set::<Signed>::empty());
                assert(patched(rows, Set::empty()) =~= rows);
            }
        }
    }
    if some {
        Some(Patches { relations: copy_names(relations), patches })
    } else {
        None
    }
}

/// Bring rows up to date with a patch.
pub fn patch_rows(rows: &OrderedSet<Tuple>, patch: &OrderedSet<SignedFact>) -> (r: OrderedSet<
    Tuple,
>)
    requires
        rows.wf(),
        patch.wf(),
    ensures
        r.wf(),
        r.deep_view() == patched(rows.deep_view(), patch.deep_view()),
{
    let mut out: OrderedSet<Tuple> = OrderedSet::from_vec(copy_rows(&rows.items));
    let ghost facts = patch.items.deep_view();
    let ghost start = rows.deep_view();
    let mut i: usize = 0;
    proof {
        assert(facts.len() == patch.items@.len());
        assert(out.deep_view() == start);
    }
    while i < patch.items.len()
        invariant
            i <= patch.items@.len(),
            facts == patch.items.deep_view(),
            facts.len() == patch.items@.len(),
            out.wf(),
            forall|t: Row| #[trigger]
                out.deep_view().contains(t) == (start.contains(t) && !facts.take(
                    i as int,
                ).contains(Signed::Minus(t))),
        decreases patch.items.len() - i,
    {
        let ghost f = facts[i as int];
        proof {
            assert(f == patch.items@[i as int].deep_view());
            assert(facts.take(i + 1) =~= facts.take(i as int).push(f));
            assert forall|s: Signed| facts.take(i + 1).contains(s) == (s == f || facts.take(
                i as int,
            ).contains(s)) by {
                lemma_push_has(facts.take(i as int), f, s);
            }
        }
        match &patch.items[i] {
            SignedFact::Plus(_) => {},
            SignedFact::Minus(t) => {
                out.remove(t);
            },
        }
        i = i + 1;
    }
    let ghost left = out.deep_view();
    proof {
        assert(facts.take(i as int) =~= facts);
    }
    i = 0;
    while i < patch.items.len()
        invariant
            i <= patch.items@.len(),
            facts == patch.items.deep_view(),
            facts.len() == patch.items@.len(),
            out.wf(),
            forall|t: Row| #[trigger]
                out.deep_view().contains(t) == (left.contains(t) || facts.take(
                    i as int,
                ).contains(Signed::Plus(t))),
        decreases patch.items.len() - i,
    {
        let ghost f = facts[i as int];
        proof {
            assert(f == patch.items@[i as int].deep_view());
            assert(facts.take(i + 1) =~= facts.take(i as int).push(f));
            assert forall|s: Signed| facts.take(i + 1).contains(s) == (s == f || facts.take(
                i as int,
            ).contains(s)) by {
                lemma_push_has(facts.take(i as int), f, s);
            }
        }
        match &patch.items[i] {
            SignedFact::Plus(t) => {
                out.insert(copy_row(t));
            },
            SignedFact::Minus(_) => {},
        }
        i = i + 1;
    }
    proof {
        assert(facts.take(i as int) =~= facts);
        assert(out.deep_view() =~= patched(start, patch.deep_view()));
    }
    out
}

proof fn lemma_push_has(v: Seq<Signed>, f: Signed, s: Signed)
    ensures
        v.push(f).contains(s) == (s == f || v.contains(s)),
{
    if v.contains(s) {
        assert(v.push(f)[v.index_of(s)] == s);
    }
    if s == f {
        assert(v.push(f)[v.len() as int] == s);
    }
    if v.push(f).contains(s) && s != f {
        assert(v[v.push(f).index_of(s)] == s);
    }
}

/// The first patch of a relation: every row it holds is new.
pub fn seed_patch(rows: &OrderedSet<Tuple>) -> (r: OrderedSet<SignedFact>)
    requires
        rows.wf(),
    ensures
        r.wf(),
        r.deep_view() == diff(Set::empty(), rows.deep_view()),
{
    let nothing: OrderedSet<Tuple> = OrderedSet::new();
    diff_sets(&nothing, rows)
}

/// The subscription of a standing query to the commits on one relation.
#[derive(Debug)]
pub struct Subscription {
    pub relation: String,
    pub id: u32,
}

/// A standing query: what it subscribes to, the rows of the stored relations
/// behind the subscriptions, and the rows of the relations it derives.
#[derive(Debug)]
pub struct StandingQuery {
    pub subscriptions: Vec<Subscription>,
    /// The rows of each subscribed relation.
    pub stored: Vec<OrderedSet<Tuple>>,
    pub heads: Vec<String>,
    /// The rows of each derived relation.
    pub derived: Vec<OrderedSet<Tuple>>,
}

impl StandingQuery {
    pub open spec fn wf(&self) -> bool {
        &&& self.subscriptions@.len() == self.stored@.len()
        &&& self.heads@.len() == self.derived@.len()
        &&& forall|i: int| 0 <= i < self.stored@.len() ==> (#[trigger] self.stored@[i]).wf()
        &&& forall|i: int| 0 <= i < self.derived@.len() ==> (#[trigger] self.derived@[i]).wf()
    }

    /// Whether the query subscribes to a relation at a place, and at none before.
    pub open spec fn stored_at(&self, relation: Name, i: int) -> bool {
        &&& 0 <= i < self.subscriptions@.len()
        &&& self.subscriptions@[i].relation@ == relation
        &&& forall|j: int|
            0 <= j < i ==> (#[trigger] self.subscriptions@[j]).relation@ != relation
    }

    /// Whether the query derives a relation at a place, and at none before, and
    /// does not subscribe to it.
    pub open spec fn derived_at(&self, relation: Name, i: int) -> bool {
        &&& 0 <= i < self.heads@.len()
        &&& self.heads@[i]@ == relation
        &&& forall|j: int| 0 <= j < i ==> (#[trigger] self.heads@[j])@ != relation
        &&& forall|j: int|
            0 <= j < self.subscriptions@.len() ==> (#[trigger] self.subscriptions@[j]).relation@
                != relation
    }

    /// The rows kept for a relation, if the query has a part in it.
    pub open spec fn holding(&self, relation: Name) -> Option<Set<Row>> {
        if exists|i: int| self.stored_at(relation, i) {
            Some(self.stored@[choose|i: int| self.stored_at(relation, i)].deep_view())
        } else if exists|i: int| self.derived_at(relation, i) {
            Some(self.derived@[choose|i: int| self.derived_at(relation, i)].deep_view())
        } else {
            None
        }
    }

    /// The rows kept for a relation. `None` for one the query has no part in.
    pub fn current(&self, relation: &String) -> (r: Option<&OrderedSet<Tuple>>)
        requires
            self.wf(),
        ensures
            match r {
                Some(rows) => self.holding(relation@) == Some(rows.deep_view()),
                None => self.holding(relation@) is None,
            },
    {
        let mut i: usize = 0;
        while i < self.subscriptions.len()
            invariant
                i <= self.subscriptions@.len(),
                self.wf(),
                forall|j: int|
                    0 <= j < i ==> (#[trigger] self.subscriptions@[j]).relation@ != relation@,
            decreases self.subscriptions.len() - i,
        {
            if self.subscriptions[i].relation == *relation {
                proof {
                    assert(self.stored_at(relation@, i as int));
                    let c = choose|c: int| self.stored_at(relation@, c);
                    assert(self.stored_at(relation@, c));
                    assert(c == i) by {
                        if c < i {
                            assert(self.subscriptions@[c].relation@ != relation@);
                        } else if i < c {
                            assert(self.subscriptions@[i as int].relation@ != relation@);
                        }
                    }
                }
                return Some(&self.stored[i]);
            }
            i = i + 1;
        }
        i = 0;
        while i < self.heads.len()
            invariant
                i <= self.heads@.len(),
                self.wf(),
                forall|j: int|
                    0 <= j < self.subscriptions@.len() ==> (
                    #[trigger] self.subscriptions@[j]).relation@ != relation@,
                forall|j: int| 0 <= j < i ==> (#[trigger] self.heads@[j])@ != relation@,
            decreases self.heads.len() - i,
        {
            if self.heads[i] == *relation {
                proof {
                    assert(self.derived_at(relation@, i as int));
                    let c = choose|c: int| self.derived_at(relation@, c);
                    assert(self.derived_at(relation@, c));
                    assert(c == i) by {
                        if c < i {
                            assert(self.heads@[c]@ != relation@);
                        } else if i < c {
                            assert(self.heads@[i as int]@ != relation@);
                        }
                    }
                }
                return Some(&self.derived[i]);
            }
            i = i + 1;
        }
        None
    }

    /// Begin a query on the relations it reads, given the subscription to each
    /// and the rows each holds. Nothing is derived yet; what is to be evaluated
    /// first is the patch that brings in every row.
    pub fn register(edb: Vec<String>, ids: Vec<u32>, snapshot: Vec<OrderedSet<Tuple>>) -> (r: (
        Self,
        Patches,
    ))
        requires
            edb@.len() == ids@.len(),
            edb@.len() == snapshot@.len(),
            forall|i: int| 0 <= i < snapshot@.len() ==> (#[trigger] snapshot@[i]).wf(),
        ensures
            r.0.wf(),
            r.0.stored == snapshot,
            r.0.heads@.len() == 0,
            r.0.subscriptions@.len() == edb@.len(),
            forall|i: int|
                0 <= i < edb@.len() ==> (#[trigger] r.0.subscriptions@[i]).relation@ == edb@[i]@
                    && r.0.subscriptions@[i].id == ids@[i],
            names(r.1.relations@) == names(edb@),
            r.1.patches@.len() == edb@.len(),
            forall|i: int|
                0 <= i < edb@.len() ==> (#[trigger] r.1.patches@[i]).wf()
                    && r.1.patches@[i].deep_view() == diff(Set::empty(), snapshot@[i].deep_view()),
    {
        let mut subscriptions: Vec<Subscription> = Vec::new();
        let mut patches: Vec<OrderedSet<SignedFact>> = Vec::new();
        let mut i: usize = 0;
        while i < edb.len()
            invariant
                i <= edb@.len(),
                edb@.len() == ids@.len(),
                edb@.len() == snapshot@.len(),
                forall|j: int| 0 <= j < snapshot@.len() ==> (#[trigger] snapshot@[j]).wf(),
                subscriptions@.len() == i,
                patches@.len() == i,
                forall|j: int|
                    0 <= j < i ==> (#[trigger] subscriptions@[j]).relation@ == edb@[j]@
                        && subscriptions@[j].id == ids@[j],
                forall|j: int|
                    0 <= j < i ==> (#[trigger] patches@[j]).wf() && patches@[j].deep_view() == diff(
                        Set::empty(),
                        snapshot@[j].deep_view(),
                    ),
            decreases edb.len() - i,
        {
            subscriptions.push(Subscription { relation: edb[i].clone(), id: ids[i] });
            patches.push(seed_patch(&snapshot[i]));
            i = i + 1;
        }
        (
            StandingQuery {
                subscriptions,
                stored: snapshot,
                heads: Vec::new(),
                derived: Vec::new(),
            },
            Patches { relations: edb, patches },
        )
    }

    /// What the commits pending on each subscription change, for the
    /// evaluation that brings the query up to date. Nothing where they change
    /// nothing.
    pub fn apply_pending(&self, pending: &Vec<Vec<CallbackEvent>>) -> (r: Option<Patches>)
        requires
            pending@.len() == self.subscriptions@.len(),
        ensures
            match r {
                Some(p) => {
                    &&& p.relations@.len() == self.subscriptions@.len()
                    &&& p.patches@.len() == self.subscriptions@.len()
                    &&& forall|i: int|
                        0 <= i < self.subscriptions@.len() ==> (#[trigger] p.relations@[i])@
                            == self.subscriptions@[i].relation@
                    &&& forall|i: int|
                        0 <= i < pending@.len() ==> (#[trigger] p.patches@[i]).wf()
                            && p.patches@[i].deep_view() == folded(pending@[i]@)
                    &&& forall|i: int, rows: Set<Row>|
                        0 <= i < pending@.len() ==> #[trigger] patched(
                            rows,
                            p.patches@[i].deep_view(),
                        ) == after(rows, pending@[i]@)
                    &&& exists|i: int|
                        0 <= i < pending@.len() && folded((#[trigger] pending@[i])@) != Set::<
                            Signed,
                        >::empty()
                },
                None => {
                    &&& forall|i: int|
                        0 <= i < pending@.len() ==> folded((#[trigger] pending@[i])@) == Set::<
                            Signed,
                        >::empty()
                    &&& forall|i: int, rows: Set<Row>|
                        0 <= i < pending@.len() ==> #[trigger] after(rows, pending@[i]@) == rows
                },
            },
    {
        let mut relations: Vec<String> = Vec::new();
        let mut i: usize = 0;
        while i < self.subscriptions.len()
            invariant
                i <= self.subscriptions@.len(),
                relations@.len() == i,
                forall|j: int|
                    0 <= j < i ==> (#[trigger] relations@[j])@ == self.subscriptions@[j].relation@,
            decreases self.subscriptions.len() - i,
        {
            relations.push(self.subscriptions[i].relation.clone());
            i = i + 1;
        }
        let r = pending_patches(&relations, pending);
        proof {
            if r is Some {
                let p = r->Some_0;
                assert(names(p.relations@).len() == names(relations@).len());
                assert forall|j: int| 0 <= j < self.subscriptions@.len() implies (
                #[trigger] p.relations@[j])@ == self.subscriptions@[j].relation@ by {
                    assert(names(p.relations@)[j] == names(relations@)[j]);
                    assert(relations@[j]@ == self.subscriptions@[j].relation@);
                }
            }
        }
        r
    }

    /// Keep what an evaluation of patches gave: the stored relations are brought
    /// up to date with the patches, and the derived ones replaced.
    pub fn settle(
        &mut self,
        patches: &Patches,
        heads: Vec<String>,
        derived: Vec<OrderedSet<Tuple>>,
    )
        requires
            old(self).wf(),
            patches.patches@.len() == old(self).stored@.len(),
            forall|i: int|
                0 <= i < patches.patches@.len() ==> (#[trigger] patches.patches@[i]).wf(),
            heads@.len() == derived@.len(),
            forall|i: int| 0 <= i < derived@.len() ==> (#[trigger] derived@[i]).wf(),
        ensures
            final(self).wf(),
            final(self).stored@.len() == old(self).stored@.len(),
            forall|i: int|
                0 <= i < old(self).stored@.len() ==> (#[trigger] final(self).stored@[i]).deep_view()
                    == patched(old(self).stored@[i].deep_view(), patches.patches@[i].deep_view()),
            final(self).derived == derived,
            final(self).heads == heads,
            final(self).subscriptions == old(self).subscriptions,
    {
        let mut stored: Vec<OrderedSet<Tuple>> = Vec::new();
        let mut i: usize = 0;
        while i < self.stored.len()
            invariant
                i <= self.stored@.len(),
                *self == *old(self),
                self.wf(),
                patches.patches@.len() == self.stored@.len(),
                forall|j: int|
                    0 <= j < patches.patches@.len() ==> (#[trigger] patches.patches@[j]).wf(),
                stored@.len() == i,
                forall|j: int|
                    0 <= j < i ==> (#[trigger] stored@[j]).wf() && stored@[j].deep_view()
                        == patched(
                        self.stored@[j].deep_view(),
                        patches.patches@[j].deep_view(),
                    ),
            decreases self.stored.len() - i,
        {
            stored.push(patch_rows(&self.stored[i], &patches.patches[i]));
            i = i + 1;
        }
        self.stored = stored;
        self.heads = heads;
        self.derived = derived;
    }

    /// End the query: the subscriptions to take back.
    pub fn teardown(self) -> (r: Vec<u32>)
        ensures
            r@ == Seq::new(self.subscriptions@.len(), |i: int| self.subscriptions@[i].id),
    {
        let mut ids: Vec<u32> = Vec::new();
        let mut i: usize = 0;
        while i < self.subscriptions.len()
            invariant
                i <= self.subscriptions@.len(),
                ids@ == Seq::new(i as nat, |j: int| self.subscriptions@[j].id),
            decreases self.subscriptions.len() - i,
        {
            ids.push(self.subscriptions[i].id);
            proof {
                assert(ids@ =~= Seq::new((i + 1) as nat, |j: int| self.subscriptions@[j].id));
            }
            i = i + 1;
        }
        ids
    }
}

} // verus!
