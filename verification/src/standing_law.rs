//! Laws of standing queries: one that has caught up holds what a fresh one
//! holds, and one that is torn down leaves no subscription behind.

use vstd::prelude::*;
use crate::delta::patched;
use crate::names::{names, Name};
use crate::order::OrderedSet;
use crate::standing::{after, folded, law_commits_fold, CallbackEvent, StandingQuery};
use crate::value::{Row, Tuple};

verus! {

/// The rows of each of several relations.
pub open spec fn rows_of_each(sets: Seq<OrderedSet<Tuple>>) -> Seq<Set<Row>> {
    Seq::new(sets.len(), |i: int| sets[i].deep_view())
}

/// A query that has taken in the commits pending on its relations holds, of
/// every relation, stored or derived, what a query registered afresh holds. The
/// derived relations are whatever the evaluation makes of the stored ones.
pub proof fn law_caught_up_holds_what_fresh_holds(
    was: StandingQuery,
    pending: Seq<Vec<CallbackEvent>>,
    now: StandingQuery,
    fresh: StandingQuery,
    evaluated: spec_fn(Seq<Set<Row>>) -> Seq<Set<Row>>,
)
    requires
        was.wf(),
        now.wf(),
        fresh.wf(),
        pending.len() == was.stored@.len(),
        now.stored@.len() == was.stored@.len(),
        fresh.stored@.len() == was.stored@.len(),
        forall|i: int|
            0 <= i < was.stored@.len() ==> (#[trigger] now.stored@[i]).deep_view() == patched(
                was.stored@[i].deep_view(),
                folded(pending[i]@),
            ),
        forall|i: int|
            0 <= i < was.stored@.len() ==> (#[trigger] fresh.stored@[i]).deep_view() == after(
                was.stored@[i].deep_view(),
                pending[i]@,
            ),
        forall|i: int|
            0 <= i < was.stored@.len() ==> (#[trigger] now.subscriptions@[i]).relation@
                == fresh.subscriptions@[i].relation@,
        names(now.heads@) == names(fresh.heads@),
        rows_of_each(now.derived@) == evaluated(rows_of_each(now.stored@)),
        rows_of_each(fresh.derived@) == evaluated(rows_of_each(fresh.stored@)),
    ensures
        forall|relation: Name| #[trigger] now.holding(relation) == fresh.holding(relation),
{
    assert forall|i: int| 0 <= i < was.stored@.len() implies rows_of_each(now.stored@)[i]
        == rows_of_each(fresh.stored@)[i] by {
        assert(now.stored@[i].deep_view() == patched(
            was.stored@[i].deep_view(),
            folded(pending[i]@),
        ));
        assert(fresh.stored@[i].deep_view() == after(was.stored@[i].deep_view(), pending[i]@));
        law_commits_fold(was.stored@[i].deep_view(), pending[i]@);
    }
    assert(rows_of_each(now.stored@) =~= rows_of_each(fresh.stored@));
    assert(rows_of_each(now.derived@) == rows_of_each(fresh.derived@));
    assert(names(now.heads@).len() == names(fresh.heads@).len());
    assert forall|relation: Name| #[trigger] now.holding(relation) == fresh.holding(relation) by {
        assert forall|i: int| now.stored_at(relation, i) == fresh.stored_at(relation, i) by {
            lemma_same_place(now, fresh, relation, i);
            lemma_same_place(fresh, now, relation, i);
        }
        assert forall|i: int| now.derived_at(relation, i) == fresh.derived_at(relation, i) by {
            lemma_same_head(now, fresh, relation, i);
            lemma_same_head(fresh, now, relation, i);
        }
        if exists|i: int| now.stored_at(relation, i) {
            let i = choose|i: int| now.stored_at(relation, i);
            let j = choose|j: int| fresh.stored_at(relation, j);
            assert(fresh.stored_at(relation, i));
            assert(i == j) by {
                if i < j {
                    assert(fresh.subscriptions@[i].relation@ != relation);
                } else if j < i {
                    assert(fresh.subscriptions@[j].relation@ != relation);
                }
            }
            assert(rows_of_each(now.stored@)[i] == rows_of_each(fresh.stored@)[i]);
        } else if exists|i: int| now.derived_at(relation, i) {
            let i = choose|i: int| now.derived_at(relation, i);
            let j = choose|j: int| fresh.derived_at(relation, j);
            assert(fresh.derived_at(relation, i));
            assert(i == j) by {
                if i < j {
                    assert(fresh.heads@[i]@ != relation);
                } else if j < i {
                    assert(fresh.heads@[j]@ != relation);
                }
            }
            assert(rows_of_each(now.derived@)[i] == rows_of_each(fresh.derived@)[i]);
        }
    }
}

proof fn lemma_same_place(a: StandingQuery, b: StandingQuery, relation: Name, i: int)
    requires
        a.subscriptions@.len() == b.subscriptions@.len(),
        forall|j: int|
            0 <= j < a.subscriptions@.len() ==> (#[trigger] a.subscriptions@[j]).relation@
                == b.subscriptions@[j].relation@,
    ensures
        a.stored_at(relation, i) ==> b.stored_at(relation, i),
{
    if a.stored_at(relation, i) {
        assert(a.subscriptions@[i].relation@ == b.subscriptions@[i].relation@);
        assert forall|j: int| 0 <= j < i implies (#[trigger] b.subscriptions@[j]).relation@
            != relation by {
            assert(a.subscriptions@[j].relation@ == b.subscriptions@[j].relation@);
        }
    }
}

proof fn lemma_same_head(a: StandingQuery, b: StandingQuery, relation: Name, i: int)
    requires
        a.subscriptions@.len() == b.subscriptions@.len(),
        forall|j: int|
            0 <= j < a.subscriptions@.len() ==> (#[trigger] a.subscriptions@[j]).relation@
                == b.subscriptions@[j].relation@,
        names(a.heads@) == names(b.heads@),
    ensures
        a.derived_at(relation, i) ==> b.derived_at(relation, i),
{
    assert(names(a.heads@).len() == a.heads@.len());
    assert(names(b.heads@).len() == b.heads@.len());
    assert forall|j: int| 0 <= j < a.heads@.len() implies (#[trigger] a.heads@[j])@
        == b.heads@[j]@ by {
        assert(names(a.heads@)[j] == a.heads@[j]@);
        assert(names(b.heads@)[j] == b.heads@[j]@);
    }
    if a.derived_at(relation, i) {
        assert(a.heads@[i]@ == b.heads@[i]@);
        assert forall|j: int| 0 <= j < i implies (#[trigger] b.heads@[j])@ != relation by {
            assert(a.heads@[j]@ == b.heads@[j]@);
        }
        assert forall|j: int| 0 <= j < b.subscriptions@.len() implies (
        #[trigger] b.subscriptions@[j]).relation@ != relation by {
            assert(a.subscriptions@[j].relation@ == b.subscriptions@[j].relation@);
        }
    }
}

/// The subscriptions that are left of the registered ones once some are taken
/// back. Taking one back succeeds where it is registered.
pub open spec fn taken_back(registered: Set<u32>, ids: Seq<u32>) -> Set<u32>
    decreases ids.len(),
{
    if ids.len() == 0 {
        registered
    } else {
        taken_back(registered, ids.drop_last()).remove(ids.last())
    }
}

/// Once what a teardown hands back is taken back, none of the query's
/// subscriptions is registered, and every other one still is.
pub proof fn law_teardown_leaves_no_subscription(
    registered: Set<u32>,
    query: StandingQuery,
    ids: Seq<u32>,
)
    requires
        ids == Seq::new(query.subscriptions@.len(), |i: int| query.subscriptions@[i].id),
    ensures
        forall|i: int|
            0 <= i < query.subscriptions@.len() ==> !taken_back(registered, ids).contains(
                (#[trigger] query.subscriptions@[i]).id,
            ),
        forall|id: u32|
            !ids.contains(id) ==> #[trigger] taken_back(registered, ids).contains(id)
                == registered.contains(id),
{
    lemma_taken_back(registered, ids);
    assert forall|i: int| 0 <= i < query.subscriptions@.len() implies !taken_back(
        registered,
        ids,
    ).contains((#[trigger] query.subscriptions@[i]).id) by {
        assert(ids[i] == query.subscriptions@[i].id);
        assert(ids.contains(ids[i]));
    }
}

proof fn lemma_taken_back(registered: Set<u32>, ids: Seq<u32>)
    ensures
        forall|id: u32| #[trigger]
            taken_back(registered, ids).contains(id) == (registered.contains(id) && !ids.contains(
                id,
            )),
    decreases ids.len(),
{
    if ids.len() > 0 {
        let rest = ids.drop_last();
        lemma_taken_back(registered, rest);
        let before = taken_back(registered, rest);
        assert(taken_back(registered, ids) == before.remove(ids.last()));
        assert forall|id: u32| #[trigger]
            taken_back(registered, ids).contains(id) == (registered.contains(id) && !ids.contains(
                id,
            )) by {
            assert(before.contains(id) == (registered.contains(id) && !rest.contains(id)));
            if ids.contains(id) {
                let k = ids.index_of(id);
                if k < rest.len() {
                    assert(rest[k] == id);
                    assert(rest.contains(id));
                }
            }
            if rest.contains(id) {
                let k = rest.index_of(id);
                assert(ids[k] == id);
            }
            assert(ids[ids.len() - 1] == ids.last());
        }
    }
}

} // verus!
