//! Fixed rules: computed as a whole, once their inputs are complete.

use vstd::prelude::*;
use crate::meaning::Stores;
use crate::model_body::{read, world_of, World};
use crate::names::{names, Name};
use crate::order::OrderedSet;
use crate::program::{FixedEval, Program};
use crate::temp_store::RegularTempStore;
use crate::value::{copy_row, copy_rows, Row, Tuple};

verus! {

/// The values at either end of the pairs of a relation, each as a row.
pub open spec fn endpoints(rows: Set<Row>) -> Set<Row> {
    Set::new(
        |v: Row|
            exists|t: Row| #[trigger]
                rows.contains(t) && t.len() == 2 && (v == seq![t[0]] || v == seq![t[1]]),
    )
}

/// What a fixed rule computes from its inputs.
pub open spec fn computed(eval: FixedEval, inputs: Seq<Set<Row>>) -> Set<Row> {
    match eval {
        FixedEval::Endpoints => endpoints(inputs[0]),
    }
}

/// A value as a row of its own.
fn single(row: &Tuple, i: usize) -> (r: Tuple)
    requires
        i < row@.len(),
    ensures
        r.deep_view() == seq![row.deep_view()[i as int]],
{
    let mut out: Tuple = Vec::new();
    out.push(row[i].clone());
    proof {
        assert(out.deep_view() =~= seq![row.deep_view()[i as int]]);
    }
    out
}

/// The endpoints of the first input.
pub fn fixed_endpoints(inputs: &Vec<OrderedSet<Tuple>>) -> (r: OrderedSet<Tuple>)
    requires
        inputs@.len() > 0,
        inputs@[0].wf(),
    ensures
        r.wf(),
        r.deep_view() == endpoints(inputs@[0].deep_view()),
{
    let items = &inputs[0].items;
    let ghost rows = items.deep_view();
    let mut out: OrderedSet<Tuple> = OrderedSet::new();
    let mut i: usize = 0;
    proof {
        assert(out.deep_view() =~= endpoints(rows.take(0).to_set()));
    }
    while i < items.len()
        invariant
            i <= items@.len(),
            rows == items.deep_view(),
            out.wf(),
            out.deep_view() == endpoints(rows.take(i as int).to_set()),
        decreases items.len() - i,
    {
        let t = &items[i];
        let ghost before = out.deep_view();
        let ghost row = t.deep_view();
        proof {
            assert(row == rows[i as int]);
            assert(row.len() == t@.len());
            lemma_endpoints_step(rows, i as int);
        }
        if t.len() == 2 {
            let _ = out.insert(single(t, 0));
            let _ = out.insert(single(t, 1));
        }
        i = i + 1;
    }
    proof {
        assert(rows.take(i as int) =~= rows);
    }
    out
}

proof fn lemma_endpoints_step(rows: Seq<Row>, i: int)
    requires
        0 <= i < rows.len(),
    ensures
        endpoints(rows.take(i + 1).to_set()) == (if rows[i].len() == 2 {
            endpoints(rows.take(i).to_set()).insert(seq![rows[i][0]]).insert(seq![rows[i][1]])
        } else {
            endpoints(rows.take(i).to_set())
        }),
{
    let less = rows.take(i).to_set();
    let more = rows.take(i + 1).to_set();
    assert forall|t: Row| more.contains(t) == (less.contains(t) || t == rows[i]) by {
        if more.contains(t) {
            let all = rows.take(i + 1);
            let k = choose|k: int| 0 <= k < all.len() && all[k] == t;
            if k < i {
                assert(rows.take(i)[k] == t);
            }
        }
        if less.contains(t) {
            let part = rows.take(i);
            let k = choose|k: int| 0 <= k < part.len() && part[k] == t;
            assert(rows.take(i + 1)[k] == t);
        }
        assert(rows.take(i + 1)[i] == rows[i]);
    }
    let want = if rows[i].len() == 2 {
        endpoints(less).insert(seq![rows[i][0]]).insert(seq![rows[i][1]])
    } else {
        endpoints(less)
    };
    assert forall|v: Row| endpoints(more).contains(v) == want.contains(v) by {
        if endpoints(more).contains(v) {
            let t = choose|t: Row| #[trigger]
                more.contains(t) && t.len() == 2 && (v == seq![t[0]] || v == seq![t[1]]);
            if less.contains(t) {
                assert(endpoints(less).contains(v));
            }
        }
        if endpoints(less).contains(v) {
            let t = choose|t: Row| #[trigger]
                less.contains(t) && t.len() == 2 && (v == seq![t[0]] || v == seq![t[1]]);
            assert(more.contains(t));
        }
        assert(more.contains(rows[i]));
    }
    assert(endpoints(more) =~= want);
}

/// A fixed rule, ready to be computed.
#[derive(Debug)]
pub struct ModelFixed<'a> {
    pub inputs: Vec<String>,
    pub eval: FixedEval,
    pub program: &'a Program,
    /// The relations that rules define.
    pub idb: &'a OrderedSet<String>,
}

/// The complete rows of some relations.
pub open spec fn inputs_read(w: World, inputs: Seq<Name>) -> Seq<Set<Row>> {
    Seq::new(inputs.len(), |i: int| read(w, inputs[i], false))
}

impl<'a> ModelFixed<'a> {
    pub open spec fn wf(&self) -> bool {
        &&& self.program.wf()
        &&& self.idb.wf()
    }

    /// What the rule reads from stores.
    pub open spec fn world(&self, stores: Stores) -> World {
        world_of(self.program.deep_view(), self.idb.deep_view(), stores@)
    }

    /// Whether stores hold every defined relation among the inputs.
    pub open spec fn served_by(&self, stores: Stores) -> bool {
        &&& stores.wf()
        &&& forall|j: int|
            0 <= j < self.inputs@.len() && self.idb.deep_view().contains(
                (#[trigger] self.inputs@[j])@,
            ) ==> stores@.contains_key(self.inputs@[j]@)
    }

    /// The complete rows of one input.
    fn input_rows(&self, stores: &Stores, rel: &String) -> (r: OrderedSet<Tuple>)
        requires
            self.wf(),
            stores.wf(),
            self.idb.deep_view().contains(rel@) ==> stores@.contains_key(rel@),
        ensures
            r.wf(),
            r.deep_view() == read(self.world(*stores), rel@, false),
    {
        if self.idb.contains(rel) {
            match stores.get(rel) {
                Some(store) => {
                    let found = store.all_iter();
                    OrderedSet::from_vec(crate::probe::own_rows(&found))
                },
                None => OrderedSet::new(),
            }
        } else {
            match self.program.facts.get(rel) {
                Some(set) => OrderedSet::from_vec(copy_rows(&set.items)),
                None => OrderedSet::new(),
            }
        }
    }

    /// Compute the rule from its inputs and put its rows into a store.
    pub fn run(&self, stores: &Stores, out: &mut RegularTempStore)
        requires
            self.wf(),
            self.inputs@.len() > 0,
            self.served_by(*stores),
            old(out).wf(),
        ensures
            final(out).wf(),
            final(out).rows() == old(out).rows().union(
                computed(self.eval, inputs_read(self.world(*stores), names(self.inputs@))),
            ),
            forall|row: Row| #[trigger]
                final(out).flags().contains_key(row) ==> final(out).flags()[row] == (if computed(
                    self.eval,
                    inputs_read(self.world(*stores), names(self.inputs@)),
                ).contains(row) {
                    false
                } else {
                    old(out).flags()[row]
                }),
    {
        let ghost w = self.world(*stores);
        let ghost want = inputs_read(w, names(self.inputs@));
        let mut inputs: Vec<OrderedSet<Tuple>> = Vec::new();
        let mut i: usize = 0;
        while i < self.inputs.len()
            invariant
                i <= self.inputs@.len(),
                self.wf(),
                self.served_by(*stores),
                w == self.world(*stores),
                want == inputs_read(w, names(self.inputs@)),
                inputs@.len() == i,
                forall|j: int|
                    0 <= j < i ==> (#[trigger] inputs@[j]).wf() && inputs@[j].deep_view()
                        == want[j],
            decreases self.inputs.len() - i,
        {
            let rows = self.input_rows(stores, &self.inputs[i]);
            inputs.push(rows);
            i = i + 1;
        }
        let produced = match self.eval {
            FixedEval::Endpoints => fixed_endpoints(&inputs),
        };
        let ghost set = computed(self.eval, want);
        let ghost items = produced.items.deep_view();
        let ghost start_rows = out.rows();
        let ghost start_flags = out.flags();
        let mut k: usize = 0;
        proof {
            assert(set == produced.deep_view());
            assert(start_rows.union(items.take(0).to_set()) =~= start_rows);
        }
        while k < produced.items.len()
            invariant
                k <= produced.items@.len(),
                items == produced.items.deep_view(),
                out.wf(),
                out.rows() == start_rows.union(items.take(k as int).to_set()),
                forall|row: Row| #[trigger]
                    out.flags().contains_key(row) ==> out.flags()[row] == (if items.take(
                        k as int,
                    ).contains(row) {
                        false
                    } else {
                        start_flags[row]
                    }),
            decreases produced.items.len() - k,
        {
            proof {
                let less = items.take(k as int);
                let more = items.take(k + 1);
                let x = produced.items@[k as int].deep_view();
                assert(more =~= less.push(x));
                assert forall|row: Row| more.contains(row) == (less.contains(row) || row == x) by {
                    if less.contains(row) {
                        let q = choose|q: int| 0 <= q < less.len() && less[q] == row;
                        assert(more[q] == row);
                    }
                    if more.contains(row) && row != x {
                        let q = choose|q: int| 0 <= q < more.len() && more[q] == row;
                        assert(less[q] == row);
                    }
                    assert(more[k as int] == x);
                }
                assert(start_rows.union(more.to_set()) =~= start_rows.union(less.to_set()).insert(
                    x,
                ));
            }
            out.put(copy_row(&produced.items[k]));
            k = k + 1;
        }
        proof {
            assert(items.take(k as int) =~= items);
        }
    }
}

} // verus!
