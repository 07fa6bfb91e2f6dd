//! Matching terms with rows, and rows from terms.

use vstd::prelude::*;
use crate::names::Name;
use crate::order::{lemma_map_of_at, lemma_sorted_no_duplicates, OrderedMap};
use crate::program::{Term, TermModel};
use crate::value::{same_value, DataValue, Row, Tuple, Val};

verus! {

/// The values that variables have.
pub type Bindings = OrderedMap<String, DataValue>;

/// The model of bindings.
pub open spec fn bound(b: Bindings) -> Map<Name, Val> {
    b@.map_values(|v: DataValue| v.deep_view())
}

/// The bindings under which terms are a row, none where there are none: a
/// value matches itself, a bound variable its value, and a free variable is
/// bound by what it meets.
pub open spec fn unified(args: Seq<TermModel>, row: Row, b: Map<Name, Val>) -> Option<
    Map<Name, Val>,
>
    decreases args.len(),
{
    if args.len() != row.len() {
        None
    } else if args.len() == 0 {
        Some(b)
    } else {
        match unified(args.drop_last(), row.drop_last(), b) {
            None => None,
            Some(m) => met(args.last(), row.last(), m),
        }
    }
}

/// The bindings under which a term is a value.
pub open spec fn met(t: TermModel, v: Val, m: Map<Name, Val>) -> Option<Map<Name, Val>> {
    match t {
        TermModel::Const(c) => if c == v {
            Some(m)
        } else {
            None
        },
        TermModel::Var(x) => if m.contains_key(x) {
            if m[x] == v {
                Some(m)
            } else {
                None
            }
        } else {
            Some(m.insert(x, v))
        },
    }
}

/// Whether a variable occurs among terms.
pub open spec fn occurs(args: Seq<TermModel>, x: Name) -> bool {
    exists|i: int| 0 <= i < args.len() && #[trigger] args[i] == TermModel::Var(x)
}

/// Whether every variable of some terms has a value.
pub open spec fn all_bound(args: Seq<TermModel>, b: Map<Name, Val>) -> bool {
    forall|x: Name| occurs(args, x) ==> #[trigger] b.contains_key(x)
}

/// The value of a term.
pub open spec fn value_of(t: TermModel, b: Map<Name, Val>) -> Val {
    match t {
        TermModel::Const(c) => c,
        TermModel::Var(x) => b[x],
    }
}

/// The row that terms are under bindings.
pub open spec fn grounded(args: Seq<TermModel>, b: Map<Name, Val>) -> Row {
    Seq::new(args.len(), |i: int| value_of(args[i], b))
}

/// Bindings that say all that others say.
pub open spec fn extends(m: Map<Name, Val>, b: Map<Name, Val>) -> bool {
    forall|x: Name| #[trigger] b.contains_key(x) ==> m.contains_key(x) && m[x] == b[x]
}

/// Matching binds the variables of the terms and no others, keeps what was
/// bound, and makes the terms the row.
pub proof fn lemma_unified(args: Seq<TermModel>, row: Row, b: Map<Name, Val>)
    ensures
        unified(args, row, b) matches Some(m) ==> {
            &&& extends(m, b)
            &&& forall|x: Name| #[trigger] m.contains_key(x) == (b.contains_key(x) || occurs(args, x))
            &&& grounded(args, m) == row
        },
    decreases args.len(),
{
    if unified(args, row, b) is Some {
        let m = unified(args, row, b)->Some_0;
        if args.len() == 0 {
            assert(grounded(args, m) =~= row);
        } else {
            let front = args.drop_last();
            let last = args.last();
            lemma_unified(front, row.drop_last(), b);
            let mid = unified(front, row.drop_last(), b)->Some_0;
            assert forall|x: Name| #[trigger] m.contains_key(x) == (b.contains_key(x) || occurs(
                args,
                x,
            )) by {
                assert(mid.contains_key(x) == (b.contains_key(x) || occurs(front, x)));
                if occurs(front, x) {
                    let i = choose|i: int| 0 <= i < front.len() && #[trigger] front[i]
                        == TermModel::Var(x);
                    assert(args[i] == TermModel::Var(x));
                }
                if last == TermModel::Var(x) {
                    assert(args[args.len() - 1] == TermModel::Var(x));
                }
                if occurs(args, x) && last != TermModel::Var(x) {
                    let i = choose|i: int| 0 <= i < args.len() && #[trigger] args[i]
                        == TermModel::Var(x);
                    assert(front[i] == TermModel::Var(x));
                }
            }
            assert forall|x: Name| #[trigger] b.contains_key(x) implies m.contains_key(x) && m[x]
                == b[x] by {
                assert(mid.contains_key(x));
            }
            assert forall|i: int| 0 <= i < args.len() implies value_of(args[i], m) == row[i] by {
                if i < front.len() {
                    assert(front[i] == args[i]);
                    assert(grounded(front, mid)[i] == row.drop_last()[i]);
                    match args[i] {
                        TermModel::Var(x) => {
                            assert(occurs(front, x));
                            assert(mid.contains_key(x));
                            assert(m[x] == mid[x]);
                        },
                        _ => {},
                    }
                } else {
                    match last {
                        TermModel::Var(x) => {
                            assert(m[x] == row.last());
                        },
                        _ => {},
                    }
                }
            }
            assert(grounded(args, m) =~= row);
        }
    }
}

/// Where bindings make terms a row, matching from fewer bindings finds those
/// of the terms, and no value that they do not give.
pub proof fn lemma_unified_complete(
    args: Seq<TermModel>,
    row: Row,
    b: Map<Name, Val>,
    whole: Map<Name, Val>,
)
    requires
        extends(whole, b),
        all_bound(args, whole),
        grounded(args, whole) == row,
    ensures
        unified(args, row, b) is Some,
        extends(whole, unified(args, row, b)->Some_0),
    decreases args.len(),
{
    assert(row.len() == args.len());
    if args.len() > 0 {
        let front = args.drop_last();
        assert forall|x: Name| occurs(front, x) implies #[trigger] whole.contains_key(x) by {
            let i = choose|i: int| 0 <= i < front.len() && #[trigger] front[i] == TermModel::Var(x);
            assert(args[i] == TermModel::Var(x));
            assert(occurs(args, x));
        }
        assert(grounded(front, whole) =~= row.drop_last()) by {
            assert forall|i: int| 0 <= i < front.len() implies value_of(front[i], whole)
                == row.drop_last()[i] by {
                assert(grounded(args, whole)[i] == row[i]);
            }
        }
        lemma_unified_complete(front, row.drop_last(), b, whole);
        let last = args.last();
        assert(grounded(args, whole)[args.len() - 1] == row.last());
        match last {
            TermModel::Var(x) => {
                assert(args[args.len() - 1] == TermModel::Var(x));
                assert(occurs(args, x));
                assert(whole.contains_key(x));
            },
            _ => {},
        }
    }
}

/// Match a term with a value; where they do not match, nothing is bound.
fn meet_term(t: &Term, v: &DataValue, b: &mut Bindings) -> (r: bool)
    requires
        old(b).wf(),
    ensures
        final(b).wf(),
        r == (met(t.deep_view(), v.deep_view(), bound(*old(b))) is Some),
        r ==> met(t.deep_view(), v.deep_view(), bound(*old(b))) == Some(bound(*final(b))),
        !r ==> bound(*final(b)) == bound(*old(b)),
{
    match t {
        Term::Const(c) => same_value(c, v),
        Term::Var(x) => {
            match b.get(x) {
                Some(held) => {
                    return same_value(held, v);
                },
                None => {},
            }
            let ghost before = b@;
            let copy = v.clone();
            b.insert(x.clone(), copy);
            proof {
                assert(bound(*b) =~= before.map_values(|d: DataValue| d.deep_view()).insert(
                    x@,
                    v.deep_view(),
                ));
            }
            true
        },
    }
}

/// Match terms with a row, binding as it goes. Where they do not match, what
/// the terms before the first mismatch have bound stays bound.
pub fn check_unify(args: &Vec<Term>, row: &Tuple, b: &mut Bindings) -> (r: bool)
    requires
        old(b).wf(),
    ensures
        final(b).wf(),
        r == (unified(args.deep_view(), row.deep_view(), bound(*old(b))) is Some),
        r ==> unified(args.deep_view(), row.deep_view(), bound(*old(b))) == Some(bound(*final(b))),
        !r && args@.len() != row@.len() ==> bound(*final(b)) == bound(*old(b)),
        !r && args@.len() == row@.len() ==> exists|k: int|
            0 <= k < args@.len() && #[trigger] unified(
                args.deep_view().take(k),
                row.deep_view().take(k),
                bound(*old(b)),
            ) == Some(bound(*final(b))) && unified(
                args.deep_view().take(k + 1),
                row.deep_view().take(k + 1),
                bound(*old(b)),
            ) is None,
{
    let ghost ts = args.deep_view();
    let ghost vs = row.deep_view();
    let ghost start = bound(*b);
    proof {
        assert(ts.len() == args@.len());
        assert(vs.len() == row@.len());
    }
    if args.len() != row.len() {
        return false;
    }
    let mut i: usize = 0;
    while i < args.len()
        invariant
            i <= args@.len(),
            args@.len() == row@.len(),
            ts == args.deep_view(),
            vs == row.deep_view(),
            ts.len() == args@.len(),
            vs.len() == row@.len(),
            start == bound(*old(b)),
            b.wf(),
            unified(ts.take(i as int), vs.take(i as int), start) == Some(bound(*b)),
        decreases args.len() - i,
    {
        proof {
            assert(ts.take(i + 1).drop_last() =~= ts.take(i as int));
            assert(vs.take(i + 1).drop_last() =~= vs.take(i as int));
            assert(ts.take(i + 1).last() == args@[i as int].deep_view());
            assert(vs.take(i + 1).last() == row@[i as int].deep_view());
        }
        if !meet_term(&args[i], &row[i], b) {
            proof {
                lemma_prefix_fails(ts, vs, start, i + 1);
            }
            return false;
        }
        i = i + 1;
    }
    proof {
        assert(ts.take(i as int) =~= ts);
        assert(vs.take(i as int) =~= vs);
    }
    true
}

proof fn lemma_prefix_fails(args: Seq<TermModel>, row: Row, b: Map<Name, Val>, k: int)
    requires
        args.len() == row.len(),
        0 <= k <= args.len(),
        unified(args.take(k), row.take(k), b) is None,
    ensures
        unified(args, row, b) is None,
    decreases args.len(),
{
    if k == args.len() {
        assert(args.take(k) =~= args);
        assert(row.take(k) =~= row);
    } else {
        assert(args.drop_last().take(k) =~= args.take(k));
        assert(row.drop_last().take(k) =~= row.take(k));
        lemma_prefix_fails(args.drop_last(), row.drop_last(), b, k);
    }
}

/// A copy of bindings.
pub fn copy_bindings(b: &Bindings) -> (r: Bindings)
    requires
        b.wf(),
    ensures
        r.wf(),
        bound(r) == bound(*b),
{
    let keys = copy_keys(&b.keys);
    let vals = crate::value::copy_row(&b.vals);
    let r = OrderedMap { keys, vals };
    proof {
        let ks = b.keys.deep_view();
        lemma_sorted_no_duplicates::<String>(ks);
        assert(r.vals.deep_view().len() == r.vals@.len());
        assert(b.vals.deep_view().len() == b.vals@.len());
        assert forall|x: Name| ks.contains(x) implies r@[x].deep_view() == b@[x].deep_view() by {
            let i = ks.index_of(x);
            lemma_map_of_at(ks, b.vals@, i);
            lemma_map_of_at(ks, r.vals@, i);
            assert(r.vals.deep_view()[i] == b.vals.deep_view()[i]);
        }
        assert(bound(r) =~= bound(*b));
    }
    r
}

/// A copy of names in order.
fn copy_keys(v: &Vec<String>) -> (r: Vec<String>)
    ensures
        r.deep_view() == v.deep_view(),
        r@.len() == v@.len(),
{
    let mut out: Vec<String> = Vec::new();
    let mut i: usize = 0;
    while i < v.len()
        invariant
            i <= v@.len(),
            out@.len() == i,
            out.deep_view() == v.deep_view().take(i as int),
        decreases v.len() - i,
    {
        let ghost prev = out.deep_view();
        out.push(v[i].clone());
        proof {
            assert(out.deep_view() =~= prev.push(v@[i as int]@));
            assert(v.deep_view().take(i + 1) =~= prev.push(v@[i as int]@));
        }
        i = i + 1;
    }
    proof {
        assert(v.deep_view().take(i as int) =~= v.deep_view());
    }
    out
}

/// The bindings under which terms are a row.
pub fn unify(args: &Vec<Term>, row: &Tuple, b: &Bindings) -> (r: Option<Bindings>)
    requires
        b.wf(),
    ensures
        match r {
            Some(m) => m.wf() && unified(args.deep_view(), row.deep_view(), bound(*b)) == Some(
                bound(m),
            ),
            None => unified(args.deep_view(), row.deep_view(), bound(*b)) is None,
        },
{
    let mut out = copy_bindings(b);
    if check_unify(args, row, &mut out) {
        Some(out)
    } else {
        None
    }
}

/// The row that terms are under bindings.
pub fn ground(args: &Vec<Term>, b: &Bindings) -> (r: Tuple)
    requires
        b.wf(),
        all_bound(args.deep_view(), bound(*b)),
    ensures
        r.deep_view() == grounded(args.deep_view(), bound(*b)),
{
    let ghost ts = args.deep_view();
    let ghost whole = grounded(ts, bound(*b));
    let mut out: Tuple = Vec::new();
    let mut i: usize = 0;
    proof {
        assert(ts.len() == args@.len());
        assert(out.deep_view() =~= whole.take(0));
    }
    while i < args.len()
        invariant
            i <= args@.len(),
            ts == args.deep_view(),
            ts.len() == args@.len(),
            b.wf(),
            all_bound(ts, bound(*b)),
            whole == grounded(ts, bound(*b)),
            out.deep_view() == whole.take(i as int),
        decreases args.len() - i,
    {
        let ghost prev = out.deep_view();
        proof {
            assert(ts[i as int] == args@[i as int].deep_view());
        }
        let v = match &args[i] {
            Term::Const(c) => c.clone(),
            Term::Var(x) => {
                proof {
                    assert(occurs(ts, x@));
                    assert(bound(*b).contains_key(x@));
                }
                match b.get(x) {
                    Some(v) => v.clone(),
                    None => DataValue::Null,
                }
            },
        };
        let ghost m = v.deep_view();
        out.push(v);
        proof {
            assert(m == whole[i as int]);
            assert(out.deep_view() =~= prev.push(m));
            assert(whole.take(i + 1) =~= prev.push(m));
        }
        i = i + 1;
    }
    proof {
        assert(whole.take(i as int) =~= whole);
    }
    out
}

} // verus!
