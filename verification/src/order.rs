//! Total orders on executable values, and ordered collections over them.

use vstd::prelude::*;

verus! {

/// The three outcomes of comparing two values.
#[derive(Clone, Copy, PartialEq, Eq, Structural, Debug)]
pub enum Rank {
    Before,
    Same,
    After,
}

/// A type whose models are strictly and totally ordered, with an executable
/// three-way comparison that agrees with the order.
pub trait Total: DeepView + Sized {
    /// The strict order on models.
    spec fn before(a: Self::V, b: Self::V) -> bool;

    proof fn before_irreflexive(a: Self::V)
        ensures
            !Self::before(a, a),
    ;

    proof fn before_transitive(a: Self::V, b: Self::V, c: Self::V)
        requires
            Self::before(a, b),
            Self::before(b, c),
        ensures
            Self::before(a, c),
    ;

    proof fn before_total(a: Self::V, b: Self::V)
        ensures
            a == b || Self::before(a, b) || Self::before(b, a),
    ;

    fn rank(&self, other: &Self) -> (r: Rank)
        ensures
            r == (if self.deep_view() == other.deep_view() {
                Rank::Same
            } else if Self::before(self.deep_view(), other.deep_view()) {
                Rank::Before
            } else {
                Rank::After
            }),
    ;
}

impl Total for i64 {
    open spec fn before(a: i64, b: i64) -> bool {
        a < b
    }

    proof fn before_irreflexive(a: i64) {
    }

    proof fn before_transitive(a: i64, b: i64, c: i64) {
    }

    proof fn before_total(a: i64, b: i64) {
    }

    fn rank(&self, other: &Self) -> Rank {
        if *self == *other {
            Rank::Same
        } else if *self < *other {
            Rank::Before
        } else {
            Rank::After
        }
    }
}

/// The members of a prefix one longer.
pub proof fn lemma_take_step<A>(s: Seq<A>, i: int)
    requires
        0 <= i < s.len(),
    ensures
        s.take(i + 1) == s.take(i).push(s[i]),
        s.take(i + 1).to_set() == s.take(i).to_set().insert(s[i]),
{
    assert(s.take(i + 1) =~= s.take(i).push(s[i]));
    let a = s.take(i);
    let b = a.push(s[i]);
    assert forall|x: A| b.to_set().contains(x) == a.to_set().insert(s[i]).contains(x) by {
        if b.contains(x) {
            let k = choose|k: int| 0 <= k < b.len() && b[k] == x;
            if k < a.len() {
                assert(a[k] == x);
            }
        }
        if a.contains(x) {
            let k = choose|k: int| 0 <= k < a.len() && a[k] == x;
            assert(b[k] == x);
        }
        assert(b[a.len() as int] == s[i]);
    }
    assert(b.to_set() =~= a.to_set().insert(s[i]));
}

/// A sequence in strictly increasing order.
pub open spec fn strictly_sorted<T: Total>(s: Seq<T::V>) -> bool {
    forall|i: int, j: int| 0 <= i < j < s.len() ==> T::before(#[trigger] s[i], #[trigger] s[j])
}

/// A strictly sorted sequence repeats nothing.
pub proof fn lemma_sorted_no_duplicates<T: Total>(s: Seq<T::V>)
    requires
        strictly_sorted::<T>(s),
    ensures
        s.no_duplicates(),
{
    assert forall|i: int, j: int| 0 <= i < s.len() && 0 <= j < s.len() && i != j implies s[i]
        != s[j] by {
        if i < j {
            T::before_irreflexive(s[i]);
        } else {
            T::before_irreflexive(s[j]);
        }
    }
}

/// A set has at most one strictly sorted enumeration.
pub proof fn lemma_sorted_unique<T: Total>(a: Seq<T::V>, b: Seq<T::V>)
    requires
        strictly_sorted::<T>(a),
        strictly_sorted::<T>(b),
        a.to_set() == b.to_set(),
    ensures
        a == b,
    decreases a.len(),
{
    if a.len() == 0 {
        if b.len() > 0 {
            assert(b.to_set().contains(b[0]));
            assert(a.to_set().contains(b[0]));
        }
        assert(a =~= b);
    } else {
        assert(a.to_set().contains(a[0]));
        assert(b.to_set().contains(a[0]));
        assert(b.to_set().contains(b[0]));
        assert(a.to_set().contains(b[0]));
        let i = choose|i: int| 0 <= i < b.len() && b[i] == a[0];
        let j = choose|j: int| 0 <= j < a.len() && a[j] == b[0];
        if i > 0 && j > 0 {
            T::before_transitive(b[0], b[i], b[0]);
            T::before_irreflexive(b[0]);
        }
        assert(a[0] == b[0]);
        let x = a.drop_first();
        let y = b.drop_first();
        assert(x.to_set() =~= y.to_set()) by {
            assert forall|v: T::V| x.to_set().contains(v) == y.to_set().contains(v) by {
                if x.to_set().contains(v) {
                    let k = choose|k: int| 0 <= k < x.len() && x[k] == v;
                    assert(a[k + 1] == v);
                    assert(a.to_set().contains(v));
                    assert(b.to_set().contains(v));
                    let m = choose|m: int| 0 <= m < b.len() && b[m] == v;
                    if m == 0 {
                        T::before_irreflexive(v);
                    }
                    assert(y[m - 1] == v);
                }
                if y.to_set().contains(v) {
                    let k = choose|k: int| 0 <= k < y.len() && y[k] == v;
                    assert(b[k + 1] == v);
                    assert(b.to_set().contains(v));
                    assert(a.to_set().contains(v));
                    let m = choose|m: int| 0 <= m < a.len() && a[m] == v;
                    if m == 0 {
                        T::before_irreflexive(v);
                    }
                    assert(x[m - 1] == v);
                }
            }
        }
        assert(strictly_sorted::<T>(x));
        assert(strictly_sorted::<T>(y));
        lemma_sorted_unique::<T>(x, y);
        assert(a =~= seq![a[0]] + x);
        assert(b =~= seq![b[0]] + y);
    }
}

/// The place of `x` in a strictly sorted sequence: what precedes the place
/// comes before `x`, nothing from the place on does.
pub open spec fn is_place<T: Total>(s: Seq<T::V>, x: T::V, at: int) -> bool {
    &&& 0 <= at <= s.len()
    &&& forall|j: int| 0 <= j < at ==> T::before(#[trigger] s[j], x)
    &&& forall|j: int| at <= j < s.len() ==> !T::before(#[trigger] s[j], x)
}

/// Whether the value at a place is the one looked for decides membership.
pub proof fn lemma_place_decides<T: Total>(s: Seq<T::V>, x: T::V, at: int)
    requires
        strictly_sorted::<T>(s),
        is_place::<T>(s, x, at),
    ensures
        s.contains(x) == (at < s.len() && s[at] == x),
        forall|j: int|
            at <= j < s.len() && !(at < s.len() && s[at] == x) ==> T::before(x, #[trigger] s[j]),
        forall|j: int| at < j < s.len() ==> T::before(x, #[trigger] s[j]),
{
    if s.contains(x) {
        let i = choose|i: int| 0 <= i < s.len() && s[i] == x;
        T::before_irreflexive(x);
        assert(at <= i);
        if at < i {
            assert(T::before(s[at], s[i]));
        }
    }
    assert forall|j: int| at < j < s.len() implies T::before(x, #[trigger] s[j]) by {
        T::before_total(x, s[at]);
        if x != s[at] {
            T::before_transitive(x, s[at], s[j]);
        }
    }
    if at < s.len() {
        T::before_total(x, s[at]);
    }
}

/// Find the place of `x` by bisection.
pub fn place_of<T: Total>(items: &Vec<T>, x: &T) -> (r: (bool, usize))
    requires
        strictly_sorted::<T>(items.deep_view()),
    ensures
        is_place::<T>(items.deep_view(), x.deep_view(), r.1 as int),
        r.0 == items.deep_view().contains(x.deep_view()),
        r.0 ==> r.1 < items.len() && items.deep_view()[r.1 as int] == x.deep_view(),
{
    let mut lo: usize = 0;
    let mut hi: usize = items.len();
    let ghost s = items.deep_view();
    let ghost v = x.deep_view();
    while lo < hi
        invariant
            lo <= hi <= items.len(),
            s == items.deep_view(),
            v == x.deep_view(),
            strictly_sorted::<T>(s),
            forall|j: int| 0 <= j < lo ==> T::before(#[trigger] s[j], v),
            forall|j: int| hi <= j < s.len() ==> !T::before(#[trigger] s[j], v),
        decreases hi - lo,
    {
        let mid: usize = lo + (hi - lo) / 2;
        match items[mid].rank(x) {
            Rank::Before => {
                proof {
                    assert forall|j: int| 0 <= j < mid + 1 implies T::before(
                        #[trigger] s[j],
                        v,
                    ) by {
                        if j < mid {
                            T::before_transitive(s[j], s[mid as int], v);
                        }
                    }
                }
                lo = mid + 1;
            },
            Rank::Same => {
                proof {
                    assert(s[mid as int] == v);
                    T::before_irreflexive(v);
                    assert forall|j: int| mid < j < s.len() implies !T::before(
                        #[trigger] s[j],
                        v,
                    ) by {
                        if T::before(s[j], v) {
                            T::before_transitive(v, s[j], v);
                        }
                    }
                    assert(s.contains(v));
                }
                return (true, mid);
            },
            Rank::After => {
                proof {
                    assert forall|j: int| mid <= j < s.len() implies !T::before(
                        #[trigger] s[j],
                        v,
                    ) by {
                        if j > mid && T::before(s[j], v) {
                            T::before_transitive(s[mid as int], s[j], v);
                        }
                    }
                }
                hi = mid;
            },
        }
    }
    proof {
        lemma_place_decides::<T>(s, v, lo as int);
    }
    if lo < items.len() {
        match items[lo].rank(x) {
            Rank::Same => (true, lo),
            _ => (false, lo),
        }
    } else {
        (false, lo)
    }
}

/// Every value has a place in a strictly sorted sequence.
pub proof fn lemma_place_exists<T: Total>(s: Seq<T::V>, x: T::V) -> (at: int)
    requires
        strictly_sorted::<T>(s),
    ensures
        is_place::<T>(s, x, at),
    decreases s.len(),
{
    if s.len() == 0 {
        0
    } else {
        let rest = s.drop_last();
        assert(strictly_sorted::<T>(rest)) by {
            assert forall|i: int, j: int| 0 <= i < j < rest.len() implies T::before(
                #[trigger] rest[i],
                #[trigger] rest[j],
            ) by {
                assert(T::before(s[i], s[j]));
            }
        }
        let at = lemma_place_exists::<T>(rest, x);
        let last = s.len() - 1;
        assert forall|j: int| 0 <= j < last implies s[j] == #[trigger] rest[j] by {}
        if at < last {
            if T::before(s[last], x) {
                assert(T::before(s[at], s[last]));
                T::before_transitive(s[at], s[last], x);
                assert(!T::before(rest[at], x));
            }
            assert forall|j: int| 0 <= j < at implies T::before(#[trigger] s[j], x) by {
                assert(T::before(rest[j], x));
            }
            assert forall|j: int| at <= j < s.len() implies !T::before(#[trigger] s[j], x) by {
                if j < last {
                    assert(!T::before(rest[j], x));
                }
            }
            at
        } else {
            assert forall|j: int| 0 <= j < last implies T::before(#[trigger] s[j], x) by {
                assert(T::before(rest[j], x));
            }
            if T::before(s[last], x) {
                s.len() as int
            } else {
                last
            }
        }
    }
}

/// A finite set can be enumerated in increasing order.
pub proof fn lemma_finite_sorted<T: Total>(set: Set<T::V>) -> (s: Seq<T::V>)
    requires
        set.finite(),
    ensures
        strictly_sorted::<T>(s),
        s.to_set() == set,
    decreases set.len(),
{
    if set.len() == 0 {
        let s = Seq::<T::V>::empty();
        assert(s.to_set() =~= set);
        s
    } else {
        let x = set.choose();
        let rest = lemma_finite_sorted::<T>(set.remove(x));
        let at = lemma_place_exists::<T>(rest, x);
        assert(!rest.contains(x)) by {
            assert(!rest.to_set().contains(x));
        }
        lemma_insert_sorted::<T>(rest, x, at);
        assert(set.remove(x).insert(x) =~= set);
        rest.insert(at, x)
    }
}

/// Inserting an absent value at its place keeps a sequence strictly sorted.
pub proof fn lemma_insert_sorted<T: Total>(s: Seq<T::V>, x: T::V, at: int)
    requires
        strictly_sorted::<T>(s),
        is_place::<T>(s, x, at),
        !s.contains(x),
    ensures
        strictly_sorted::<T>(s.insert(at, x)),
        s.insert(at, x).to_set() == s.to_set().insert(x),
{
    lemma_place_decides::<T>(s, x, at);
    let t = s.insert(at, x);
    assert forall|i: int, j: int| 0 <= i < j < t.len() implies T::before(
        #[trigger] t[i],
        #[trigger] t[j],
    ) by {
        assert(t[i] == (if i < at {
            s[i]
        } else if i == at {
            x
        } else {
            s[i - 1]
        }));
        assert(t[j] == (if j < at {
            s[j]
        } else if j == at {
            x
        } else {
            s[j - 1]
        }));
    }
    assert forall|v: T::V| t.to_set().contains(v) == s.to_set().insert(x).contains(v) by {
        if t.contains(v) {
            let k = choose|k: int| 0 <= k < t.len() && t[k] == v;
            if k < at {
                assert(s[k] == v);
            } else if k > at {
                assert(s[k - 1] == v);
            }
        }
        if s.contains(v) {
            let k = choose|k: int| 0 <= k < s.len() && s[k] == v;
            if k < at {
                assert(t[k] == v);
            } else {
                assert(t[k + 1] == v);
            }
        }
        assert(t[at] == x);
    }
    assert(t.to_set() =~= s.to_set().insert(x));
}

/// A set of values, enumerable in increasing order.
#[derive(Debug, PartialEq, Eq)]
pub struct OrderedSet<T: Total> {
    pub items: Vec<T>,
}

impl<T: Total> DeepView for OrderedSet<T> {
    type V = Set<T::V>;

    open spec fn deep_view(&self) -> Set<T::V> {
        self.items.deep_view().to_set()
    }
}

impl<T: Total> OrderedSet<T> {
    /// The items are in strictly increasing order.
    pub open spec fn wf(&self) -> bool {
        strictly_sorted::<T>(self.items.deep_view())
    }

    pub fn new() -> (r: Self)
        ensures
            r.wf(),
            r.deep_view() == Set::<T::V>::empty(),
            r.items@.len() == 0,
    {
        let r = OrderedSet { items: Vec::new() };
        assert(r.deep_view() =~= Set::<T::V>::empty());
        r
    }

    /// The number of members.
    pub fn len(&self) -> (r: usize)
        requires
            self.wf(),
        ensures
            r == self.deep_view().len(),
            r == self.items@.len(),
            self.deep_view().finite(),
    {
        proof {
            lemma_sorted_no_duplicates::<T>(self.items.deep_view());
            self.items.deep_view().unique_seq_to_set();
            vstd::seq_lib::seq_to_set_is_finite(self.items.deep_view());
        }
        self.items.len()
    }

    pub fn contains(&self, x: &T) -> (r: bool)
        requires
            self.wf(),
        ensures
            r == self.deep_view().contains(x.deep_view()),
    {
        place_of(&self.items, x).0
    }

    /// Add a value; true when it was not there yet.
    pub fn insert(&mut self, x: T) -> (fresh: bool)
        requires
            old(self).wf(),
        ensures
            final(self).wf(),
            final(self).deep_view() == old(self).deep_view().insert(x.deep_view()),
            fresh == !old(self).deep_view().contains(x.deep_view()),
    {
        let (found, at) = place_of(&self.items, &x);
        let ghost s = self.items.deep_view();
        let ghost v = x.deep_view();
        if found {
            assert(self.deep_view().insert(v) =~= self.deep_view());
            false
        } else {
            proof {
                lemma_insert_sorted::<T>(s, v, at as int);
            }
            self.items.insert(at, x);
            assert(self.items.deep_view() =~= s.insert(at as int, v));
            true
        }
    }

    /// Take a value out; true when it was there.
    pub fn remove(&mut self, x: &T) -> (present: bool)
        requires
            old(self).wf(),
        ensures
            final(self).wf(),
            final(self).deep_view() == old(self).deep_view().remove(x.deep_view()),
            present == old(self).deep_view().contains(x.deep_view()),
    {
        let (found, at) = place_of(&self.items, x);
        let ghost s = self.items.deep_view();
        let ghost v = x.deep_view();
        if found {
            self.items.remove(at);
            proof {
                let t = s.remove(at as int);
                assert(self.items.deep_view() =~= t);
                lemma_sorted_no_duplicates::<T>(s);
                assert forall|i: int, j: int| 0 <= i < j < t.len() implies T::before(
                    #[trigger] t[i],
                    #[trigger] t[j],
                ) by {
                    let a = if i < at { i } else { i + 1 };
                    let b = if j < at { j } else { j + 1 };
                    assert(t[i] == s[a] && t[j] == s[b]);
                }
                assert forall|u: T::V| t.to_set().contains(u) == s.to_set().remove(v).contains(
                    u,
                ) by {
                    if t.contains(u) {
                        let k = choose|k: int| 0 <= k < t.len() && t[k] == u;
                        let a = if k < at { k } else { k + 1 };
                        assert(s[a] == u);
                    }
                    if s.contains(u) && u != v {
                        let k = choose|k: int| 0 <= k < s.len() && s[k] == u;
                        let a = if k < at { k } else { k - 1 };
                        assert(t[a] == u);
                    }
                }
                assert(self.deep_view() =~= s.to_set().remove(v));
            }
            true
        } else {
            assert(self.deep_view().remove(v) =~= self.deep_view());
            false
        }
    }

    /// The set of the values in a vector.
    pub fn from_vec(values: Vec<T>) -> (r: Self)
        ensures
            r.wf(),
            r.deep_view() == values.deep_view().to_set(),
    {
        let mut rest = values;
        let mut r = OrderedSet::new();
        let ghost all = values.deep_view();
        assert(all.skip(all.len() as int).to_set() =~= Set::<T::V>::empty());
        while rest.len() > 0
            invariant
                r.wf(),
                rest.len() <= all.len(),
                rest.deep_view() == all.take(rest.len() as int),
                r.deep_view() == all.skip(rest.len() as int).to_set(),
            decreases rest.len(),
        {
            let ghost n = rest.len() as int;
            let ghost before = rest.deep_view();
            if let Some(x) = rest.pop() {
                assert(x.deep_view() == before[n - 1]);
                assert(rest.deep_view() =~= before.take(n - 1));
                assert(all.take(n).take(n - 1) =~= all.take(n - 1));
                assert(all.skip(n - 1) =~= seq![all[n - 1]] + all.skip(n));
                proof {
                    let one = seq![all[n - 1]];
                    let tail = all.skip(n);
                    assert((one + tail).to_set() =~= tail.to_set().insert(all[n - 1])) by {
                        assert forall|v: T::V|
                            (one + tail).contains(v) == tail.to_set().insert(
                                all[n - 1],
                            ).contains(v) by {
                            if (one + tail).contains(v) {
                                let k = choose|k: int|
                                    0 <= k < (one + tail).len() && (one + tail)[k] == v;
                                if k > 0 {
                                    assert(tail[k - 1] == v);
                                }
                            }
                            if tail.contains(v) {
                                let k = choose|k: int| 0 <= k < tail.len() && tail[k] == v;
                                assert((one + tail)[k + 1] == v);
                            }
                            assert((one + tail)[0] == all[n - 1]);
                        }
                    }
                }
                r.insert(x);
            }
        }
        assert(all.skip(0) =~= all);
        r
    }
}

/// A map with ordered keys.
#[derive(Debug, PartialEq, Eq)]
pub struct OrderedMap<K: Total, V> {
    pub keys: Vec<K>,
    pub vals: Vec<V>,
}

impl<K: Total, V> View for OrderedMap<K, V> {
    type V = Map<K::V, V>;

    open spec fn view(&self) -> Map<K::V, V> {
        map_of(self.keys.deep_view(), self.vals@)
    }
}

/// The map that pairs each key with the value at the same position.
pub open spec fn map_of<A, B>(keys: Seq<A>, vals: Seq<B>) -> Map<A, B> {
    Map::new(|k: A| keys.contains(k), |k: A| vals[keys.index_of(k)])
}

/// In a map without repeated keys each key has the value at its position.
pub proof fn lemma_map_of_at<A, B>(keys: Seq<A>, vals: Seq<B>, i: int)
    requires
        keys.no_duplicates(),
        keys.len() == vals.len(),
        0 <= i < keys.len(),
    ensures
        map_of(keys, vals).contains_key(keys[i]),
        map_of(keys, vals)[keys[i]] == vals[i],
{
    assert(keys.contains(keys[i]));
    assert(keys.index_of(keys[i]) == i);
}

impl<K: Total, V> OrderedMap<K, V> {
    /// The keys are in strictly increasing order, each with a value.
    pub open spec fn wf(&self) -> bool {
        &&& strictly_sorted::<K>(self.keys.deep_view())
        &&& self.keys@.len() == self.vals@.len()
    }

    pub fn new() -> (r: Self)
        ensures
            r.wf(),
            r@ == Map::<K::V, V>::empty(),
            r.keys@.len() == 0,
    {
        let r = OrderedMap { keys: Vec::new(), vals: Vec::new() };
        assert(r@ =~= Map::<K::V, V>::empty());
        r
    }

    pub fn len(&self) -> (r: usize)
        requires
            self.wf(),
        ensures
            r == self@.dom().len(),
            r == self.keys@.len(),
            self@.dom().finite(),
    {
        proof {
            lemma_sorted_no_duplicates::<K>(self.keys.deep_view());
            self.keys.deep_view().unique_seq_to_set();
            vstd::seq_lib::seq_to_set_is_finite(self.keys.deep_view());
            assert(self@.dom() =~= self.keys.deep_view().to_set());
        }
        self.keys.len()
    }

    pub fn contains_key(&self, k: &K) -> (r: bool)
        requires
            self.wf(),
        ensures
            r == self@.contains_key(k.deep_view()),
    {
        place_of(&self.keys, k).0
    }

    /// The value of a key.
    pub fn get(&self, k: &K) -> (r: Option<&V>)
        requires
            self.wf(),
        ensures
            match r {
                Some(v) => self@.contains_key(k.deep_view()) && self@[k.deep_view()] == *v,
                None => !self@.contains_key(k.deep_view()),
            },
    {
        let (found, at) = place_of(&self.keys, k);
        if found {
            proof {
                lemma_sorted_no_duplicates::<K>(self.keys.deep_view());
                lemma_map_of_at(self.keys.deep_view(), self.vals@, at as int);
            }
            Some(&self.vals[at])
        } else {
            None
        }
    }

    /// Give a key a value, in place of the one it had.
    pub fn insert(&mut self, k: K, v: V)
        requires
            old(self).wf(),
        ensures
            final(self).wf(),
            final(self)@ == old(self)@.insert(k.deep_view(), v),
            final(self).keys.deep_view().to_set() == old(self).keys.deep_view().to_set().insert(
                k.deep_view(),
            ),
            old(self)@.contains_key(k.deep_view()) ==> final(self).keys == old(self).keys,
    {
        let (found, at) = place_of(&self.keys, &k);
        let ghost ks = self.keys.deep_view();
        let ghost vs = self.vals@;
        let ghost x = k.deep_view();
        proof {
            lemma_sorted_no_duplicates::<K>(ks);
        }
        if found {
            self.vals.set(at, v);
            proof {
                assert(ks.to_set().insert(x) =~= ks.to_set());
                assert forall|q: K::V| ks.contains(q) implies self@[q] == map_of(ks, vs).insert(
                    x,
                    v,
                )[q] by {
                    let i = ks.index_of(q);
                    lemma_map_of_at(ks, vs, i);
                    lemma_map_of_at(ks, self.vals@, i);
                    if i != at {
                        assert(ks[i] != ks[at as int]);
                    }
                }
                assert(self@ =~= map_of(ks, vs).insert(x, v));
            }
        } else {
            proof {
                lemma_insert_sorted::<K>(ks, x, at as int);
            }
            self.keys.insert(at, k);
            self.vals.insert(at, v);
            proof {
                let ks2 = self.keys.deep_view();
                assert(ks2 =~= ks.insert(at as int, x));
                lemma_sorted_no_duplicates::<K>(ks2);
                assert forall|q: K::V|
                    ks2.contains(q) == map_of(ks, vs).insert(x, v).contains_key(q) by {
                    assert(ks2.to_set().contains(q) == ks.to_set().insert(x).contains(q));
                }
                assert forall|q: K::V| ks2.contains(q) implies map_of(ks2, self.vals@)[q]
                    == map_of(ks, vs).insert(x, v)[q] by {
                    let i = ks2.index_of(q);
                    lemma_map_of_at(ks2, self.vals@, i);
                    if i < at {
                        lemma_map_of_at(ks, vs, i);
                    } else if i > at {
                        lemma_map_of_at(ks, vs, i - 1);
                    }
                    if i != at {
                        assert(ks2[i] != ks2[at as int]);
                    }
                }
                assert(self@ =~= map_of(ks, vs).insert(x, v));
            }
        }
    }
}

} // verus!
