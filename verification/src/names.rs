//! Column names: the frames that operators see, the places of names in them,
//! and the columns that are shed.

use vstd::prelude::*;
use crate::value::{Row, Tuple};

verus! {

/// The mathematical form of a name.
pub type Name = Seq<char>;

/// The names held in a list of strings.
pub open spec fn names(v: Seq<String>) -> Seq<Name> {
    Seq::new(v.len(), |i: int| v[i]@)
}

/// The names of a list of strings as a set.
pub open spec fn name_set(v: Seq<String>) -> Set<Name> {
    Set::new(|n: Name| names(v).contains(n))
}

/// The last place of a name in a frame: of two equal names the later one
/// counts.
pub open spec fn last_place(frame: Seq<Name>, n: Name) -> Option<int>
    decreases frame.len(),
{
    if frame.len() == 0 {
        None
    } else if frame.last() == n {
        Some(frame.len() - 1)
    } else {
        last_place(frame.drop_last(), n)
    }
}

pub proof fn lemma_last_place(frame: Seq<Name>, n: Name)
    ensures
        match last_place(frame, n) {
            None => !frame.contains(n),
            Some(p) => 0 <= p < frame.len() && frame[p] == n && forall|j: int|
                p < j < frame.len() ==> frame[j] != n,
        },
    decreases frame.len(),
{
    if frame.len() > 0 && frame.last() != n {
        lemma_last_place(frame.drop_last(), n);
        if last_place(frame, n) is None {
            if frame.contains(n) {
                let i = frame.index_of(n);
                assert(frame.drop_last()[i] == n);
                assert(frame.drop_last().contains(n));
            }
        } else {
            let p = last_place(frame, n)->Some_0;
            assert forall|j: int| p < j < frame.len() implies frame[j] != n by {
                if j < frame.len() - 1 {
                    assert(frame.drop_last()[j] == frame[j]);
                }
            }
        }
    }
}

/// A name that stands at one place only has that place.
pub proof fn lemma_place_unique(frame: Seq<Name>, p: int)
    requires
        0 <= p < frame.len(),
        frame.no_duplicates(),
    ensures
        last_place(frame, frame[p]) == Some(p),
{
    lemma_last_place(frame, frame[p]);
    assert(frame.contains(frame[p]));
}

/// Look a name up in a list.
pub fn has_name(v: &Vec<String>, n: &String) -> (r: bool)
    ensures
        r == names(v@).contains(n@),
{
    let mut i: usize = 0;
    while i < v.len()
        invariant
            i <= v@.len(),
            forall|j: int| 0 <= j < i ==> (#[trigger] v@[j])@ != n@,
        decreases v.len() - i,
    {
        if v[i] == *n {
            proof {
                assert(names(v@)[i as int] == n@);
            }
            return true;
        }
        i = i + 1;
    }
    proof {
        assert forall|j: int| 0 <= j < names(v@).len() implies names(v@)[j] != n@ by {
            assert(v@[j]@ != n@);
        }
    }
    false
}

/// The last place of a name in a frame.
pub fn place_in(frame: &Vec<String>, n: &String) -> (r: Option<usize>)
    ensures
        match r {
            None => last_place(names(frame@), n@) is None,
            Some(p) => last_place(names(frame@), n@) == Some(p as int),
        },
{
    let ghost all = names(frame@);
    let mut i: usize = frame.len();
    proof {
        assert(all.take(all.len() as int) =~= all);
    }
    while i > 0
        invariant
            i <= frame@.len(),
            all == names(frame@),
            last_place(all, n@) == last_place(all.take(i as int), n@),
        decreases i,
    {
        proof {
            assert(all.take(i as int).drop_last() =~= all.take(i - 1));
            assert(all.take(i as int).last() == frame@[i - 1]@);
        }
        if frame[i - 1] == *n {
            return Some(i - 1);
        }
        i = i - 1;
    }
    None
}

/// A copy of a list of names.
pub fn copy_names(v: &Vec<String>) -> (r: Vec<String>)
    ensures
        names(r@) == names(v@),
{
    let mut out: Vec<String> = Vec::new();
    let mut i: usize = 0;
    while i < v.len()
        invariant
            i <= v@.len(),
            out@.len() == i,
            forall|j: int| 0 <= j < i ==> (#[trigger] out@[j])@ == v@[j]@,
        decreases v.len() - i,
    {
        out.push(v[i].clone());
        i = i + 1;
    }
    proof {
        assert(names(out@) =~= names(v@));
    }
    out
}

/// The names of one list and then those of another.
pub fn join_names(a: Vec<String>, b: &Vec<String>) -> (r: Vec<String>)
    ensures
        names(r@) == names(a@) + names(b@),
{
    let ghost first = a@;
    let mut out = a;
    let mut i: usize = 0;
    while i < b.len()
        invariant
            i <= b@.len(),
            out@.len() == first.len() + i,
            forall|j: int| 0 <= j < first.len() ==> (#[trigger] out@[j])@ == first[j]@,
            forall|j: int| 0 <= j < i ==> out@[first.len() + j]@ == (#[trigger] b@[j])@,
        decreases b.len() - i,
    {
        let ghost prev = out@;
        out.push(b[i].clone());
        proof {
            assert forall|j: int| 0 <= j < i + 1 implies out@[first.len() + j]@ == (
            #[trigger] b@[j])@ by {
                if j < i {
                    assert(out@[first.len() + j] == prev[first.len() + j]);
                }
            }
        }
        i = i + 1;
    }
    proof {
        assert forall|j: int| 0 <= j < names(out@).len() implies names(out@)[j] == (names(first)
            + names(b@))[j] by {
            if j >= first.len() {
                assert(out@[first.len() + (j - first.len())]@ == b@[j - first.len()]@);
            } else {
                assert(out@[j]@ == first[j]@);
            }
        }
        assert(names(out@) =~= names(first) + names(b@));
    }
    out
}

/// Add to a set of names those of a list that are not in it yet.
pub fn add_names(set: &mut Vec<String>, more: &Vec<String>)
    ensures
        name_set(final(set)@) == name_set(old(set)@).union(name_set(more@)),
{
    let ghost start = name_set(set@);
    let mut i: usize = 0;
    proof {
        assert(names(more@.take(0)) =~= Seq::<Name>::empty());
        assert(name_set(set@) =~= start.union(name_set(more@.take(0))));
    }
    while i < more.len()
        invariant
            i <= more@.len(),
            name_set(set@) == start.union(name_set(more@.take(i as int))),
        decreases more.len() - i,
    {
        add_name(set, &more[i]);
        proof {
            lemma_set_push(more@.take(i as int), more@[i as int]);
            assert(more@.take(i + 1) =~= more@.take(i as int).push(more@[i as int]));
            assert(name_set(set@) =~= start.union(name_set(more@.take(i + 1))));
        }
        i = i + 1;
    }
    proof {
        assert(more@.take(i as int) =~= more@);
    }
}

/// Add a name to a set of names.
pub fn add_name(set: &mut Vec<String>, n: &String)
    ensures
        name_set(final(set)@) == name_set(old(set)@).insert(n@),
{
    if has_name(set, n) {
        proof {
            assert(name_set(set@) =~= name_set(set@).insert(n@));
        }
    } else {
        let ghost before = set@;
        let copy = n.clone();
        proof {
            lemma_set_push(before, copy);
        }
        set.push(copy);
    }
}

pub proof fn lemma_set_push(v: Seq<String>, n: String)
    ensures
        name_set(v.push(n)) == name_set(v).insert(n@),
{
    let longer = v.push(n);
    assert forall|m: Name| name_set(longer).contains(m) == name_set(v).insert(n@).contains(m) by {
        if names(longer).contains(m) {
            let i = names(longer).index_of(m);
            if i < v.len() {
                assert(names(v)[i] == m);
            }
        }
        if names(v).contains(m) {
            let i = names(v).index_of(m);
            assert(names(longer)[i] == m);
        }
        if m == n@ {
            assert(names(longer)[v.len() as int] == m);
        }
    }
    assert(name_set(longer) =~= name_set(v).insert(n@));
}

/// Whether the names of one list are all in another.
pub fn names_within(v: &Vec<String>, frame: &Vec<String>) -> (r: bool)
    ensures
        r == name_set(v@).subset_of(name_set(frame@)),
{
    let mut i: usize = 0;
    while i < v.len()
        invariant
            i <= v@.len(),
            forall|j: int| 0 <= j < i ==> names(frame@).contains((#[trigger] v@[j])@),
        decreases v.len() - i,
    {
        if !has_name(frame, &v[i]) {
            proof {
                assert(names(v@)[i as int] == v@[i as int]@);
                assert(name_set(v@).contains(v@[i as int]@));
            }
            return false;
        }
        i = i + 1;
    }
    proof {
        assert forall|n: Name| name_set(v@).contains(n) implies name_set(frame@).contains(n) by {
            let j = names(v@).index_of(n);
            assert(v@[j]@ == n);
        }
    }
    true
}

/// The first place of an entry in a sequence.
pub open spec fn first_index<A>(s: Seq<A>, x: A) -> int
    decreases s.len(),
{
    if s.len() == 0 || s[0] == x {
        0
    } else {
        1 + first_index(s.drop_first(), x)
    }
}

pub proof fn lemma_first_index<A>(s: Seq<A>, x: A, i: int)
    requires
        0 <= i < s.len(),
        s[i] == x,
        forall|j: int| 0 <= j < i ==> s[j] != x,
    ensures
        first_index(s, x) == i,
    decreases s.len(),
{
    if i > 0 {
        assert(s[0] != x);
        let t = s.drop_first();
        assert forall|j: int| 0 <= j < i - 1 implies t[j] != x by {
            assert(s[j + 1] != x);
        }
        lemma_first_index(t, x, i - 1);
    }
}

pub proof fn lemma_first_found<A>(s: Seq<A>, x: A)
    requires
        s.contains(x),
    ensures
        0 <= first_index(s, x) < s.len(),
        s[first_index(s, x)] == x,
    decreases s.len(),
{
    if s[0] != x {
        let i = s.index_of(x);
        assert(s.drop_first()[i - 1] == x);
        lemma_first_found(s.drop_first(), x);
    }
}

/// A sequence without the entries at the given places.
pub open spec fn without<A>(s: Seq<A>, at: Set<int>) -> Seq<A>
    decreases s.len(),
{
    if s.len() == 0 {
        s
    } else {
        let rest = without(s.drop_last(), at);
        if at.contains(s.len() - 1) {
            rest
        } else {
            rest.push(s.last())
        }
    }
}

/// The places of a frame that hold one of the given names.
pub open spec fn gone_at(frame: Seq<Name>, gone: Set<Name>) -> Set<int> {
    Set::new(|i: int| 0 <= i < frame.len() && gone.contains(frame[i]))
}

pub proof fn lemma_without_nothing<A>(s: Seq<A>, at: Set<int>)
    requires
        forall|i: int| 0 <= i < s.len() ==> !at.contains(i),
    ensures
        without(s, at) == s,
    decreases s.len(),
{
    if s.len() > 0 {
        lemma_without_nothing(s.drop_last(), at);
        assert(s.drop_last().push(s.last()) =~= s);
    }
}

/// Only the places within the sequence count.
pub proof fn lemma_without_ext<A>(s: Seq<A>, a: Set<int>, b: Set<int>)
    requires
        forall|i: int| 0 <= i < s.len() ==> a.contains(i) == b.contains(i),
    ensures
        without(s, a) == without(s, b),
    decreases s.len(),
{
    if s.len() > 0 {
        lemma_without_ext(s.drop_last(), a, b);
    }
}

/// Two sequences of one length keep one length.
pub proof fn lemma_without_len<A, B>(s: Seq<A>, t: Seq<B>, at: Set<int>)
    requires
        s.len() == t.len(),
    ensures
        without(s, at).len() == without(t, at).len(),
        without(s, at).len() <= s.len(),
    decreases s.len(),
{
    if s.len() > 0 {
        lemma_without_len(s.drop_last(), t.drop_last(), at);
    }
}

/// The places in a list of places.
pub open spec fn places_set(v: Seq<usize>) -> Set<int> {
    Set::new(|i: int| 0 <= i <= usize::MAX && v.contains(i as usize))
}

/// The places of a frame whose columns are to be shed.
pub fn get_eliminate_indices(bindings: &Vec<String>, eliminate: &Vec<String>) -> (r: Vec<usize>)
    ensures
        places_set(r@) == gone_at(names(bindings@), name_set(eliminate@)),
{
    let ghost frame = names(bindings@);
    let ghost gone = name_set(eliminate@);
    let mut out: Vec<usize> = Vec::new();
    let mut i: usize = 0;
    while i < bindings.len()
        invariant
            i <= bindings@.len(),
            frame == names(bindings@),
            gone == name_set(eliminate@),
            forall|j: usize| #[trigger]
                out@.contains(j) <==> j < i && gone.contains(frame[j as int]),
        decreases bindings.len() - i,
    {
        let ghost prev = out@;
        if has_name(eliminate, &bindings[i]) {
            out.push(i);
            proof {
                assert forall|j: usize| #[trigger] out@.contains(j) <==> j < i + 1
                    && gone.contains(frame[j as int]) by {
                    if prev.contains(j) {
                        let k = prev.index_of(j);
                        assert(out@[k] == j);
                    }
                    if j == i {
                        assert(out@[prev.len() as int] == j);
                    }
                    if out@.contains(j) && j != i {
                        let k = out@.index_of(j);
                        assert(prev[k] == j);
                    }
                }
            }
        }
        i = i + 1;
    }
    proof {
        assert(places_set(out@) =~= gone_at(frame, gone));
    }
    out
}

/// A row without the columns at the given places.
pub fn eliminate_from_tuple(ret: Tuple, eliminate_indices: &Vec<usize>) -> (r: Tuple)
    ensures
        r.deep_view() == without(ret.deep_view(), places_set(eliminate_indices@)),
{
    let ghost at = places_set(eliminate_indices@);
    let ghost row = ret.deep_view();
    proof {
        assert(row.len() == ret@.len());
    }
    if eliminate_indices.len() == 0 {
        proof {
            lemma_without_nothing(row, at);
        }
        return ret;
    }
    let mut out: Tuple = Vec::new();
    let mut i: usize = 0;
    proof {
        assert(out.deep_view() =~= without(row.take(0), at));
    }
    while i < ret.len()
        invariant
            i <= ret@.len(),
            row == ret.deep_view(),
            row.len() == ret@.len(),
            at == places_set(eliminate_indices@),
            out.deep_view() == without(row.take(i as int), at),
        decreases ret.len() - i,
    {
        proof {
            assert(row.take(i + 1).drop_last() =~= row.take(i as int));
            assert(row.take(i + 1).last() == ret@[i as int].deep_view());
        }
        let ghost prev = out.deep_view();
        if !has_index(eliminate_indices, i) {
            let v = ret[i].clone();
            let ghost vm = v.deep_view();
            out.push(v);
            proof {
                assert(out.deep_view() =~= prev.push(vm));
            }
        }
        i = i + 1;
    }
    proof {
        assert(row.take(i as int) =~= row);
    }
    out
}

/// Whether a list of places holds a place.
pub fn has_index(v: &Vec<usize>, x: usize) -> (r: bool)
    ensures
        r == v@.contains(x),
{
    let mut i: usize = 0;
    while i < v.len()
        invariant
            i <= v@.len(),
            forall|j: int| 0 <= j < i ==> v@[j] != x,
        decreases v.len() - i,
    {
        if v[i] == x {
            return true;
        }
        i = i + 1;
    }
    false
}

/// A row as an operator hands it on: without the columns of the eliminated
/// names.
pub open spec fn shed(row: Row, frame: Seq<Name>, gone: Set<Name>) -> Row {
    without(row, gone_at(frame, gone))
}

/// A frame as an operator hands it on.
pub open spec fn kept(frame: Seq<Name>, gone: Set<Name>) -> Seq<Name> {
    without(frame, gone_at(frame, gone))
}

} // verus!
