//! What a plan shows of itself: each operator with its columns and what it
//! was built from.

use vstd::prelude::*;
use vstd::string::*;
use crate::expr::Expr;
use crate::history::AsOf;
use crate::names::{names, Name};
use crate::plan::{Joiner, NegRight, RelAlgebra, SearchKind};
use crate::value::Tuple;

verus! {

/// The shown form of a plan. A join with the unit relation on its left shows
/// as its right side.
#[derive(Debug)]
pub enum Explain<'a> {
    Unit,
    Singlet { bindings: Vec<String>, row: &'a Tuple },
    Fixed { bindings: Vec<String> },
    Search { bindings: Vec<String>, kind: SearchKind, parent: Box<Explain<'a>> },
    TempStore { bindings: Vec<String>, storage_key: &'a String, filters: &'a Vec<Expr> },
    Stored { bindings: Vec<String>, name: &'a String, filters: &'a Vec<Expr> },
    StoredWithValidity {
        bindings: Vec<String>,
        name: &'a String,
        filters: &'a Vec<Expr>,
        as_of: AsOf,
    },
    Spans { bindings: Vec<String>, name: &'a String, sys: i64 },
    Delta { bindings: Vec<String>, name: &'a String, from: AsOf, to: AsOf },
    Join {
        bindings: Vec<String>,
        joiner: &'a Joiner,
        left: Box<Explain<'a>>,
        right: Box<Explain<'a>>,
    },
    NegJoin {
        bindings: Vec<String>,
        joiner: &'a Joiner,
        left: Box<Explain<'a>>,
        negated: &'a NegRight,
    },
    Reorder { new_order: &'a Vec<String>, relation: Box<Explain<'a>> },
    Filter { bindings: Vec<String>, filters: &'a Vec<Expr>, parent: Box<Explain<'a>> },
    Unify {
        bindings: Vec<String>,
        parent: Box<Explain<'a>>,
        binding: &'a String,
        expr: &'a Expr,
    },
}

/// Whether a shown form is that of a plan.
pub open spec fn shows(plan: RelAlgebra, e: Explain<'_>) -> bool
    decreases plan,
{
    let out = plan.out_frame();
    match plan {
        RelAlgebra::Fixed(r) => if plan.unit_like() {
            e is Unit
        } else if r.data@.len() == 1 {
            e matches Explain::Singlet { bindings, row } && names(bindings@) == out && *row
                == r.data@[0]
        } else {
            e matches Explain::Fixed { bindings } && names(bindings@) == out
        },
        RelAlgebra::Search(r) => e matches Explain::Search { bindings, kind, parent } && names(
            bindings@,
        ) == out && kind == r.kind && shows(*r.parent, *parent),
        RelAlgebra::TempStore(r) => e matches Explain::TempStore {
            bindings,
            storage_key,
            filters,
        } && names(bindings@) == out && *storage_key == r.storage_key && *filters == r.filters,
        RelAlgebra::Stored(r) => e matches Explain::Stored { bindings, name, filters } && names(
            bindings@,
        ) == out && *name == r.storage.name && *filters == r.filters,
        RelAlgebra::StoredWithValidity(r) => e matches Explain::StoredWithValidity {
            bindings,
            name,
            filters,
            as_of,
        } && names(bindings@) == out && *name == r.storage.name && *filters == r.filters && as_of
            == r.as_of,
        RelAlgebra::Spans(r) => e matches Explain::Spans { bindings, name, sys } && names(
            bindings@,
        ) == out && *name == r.storage.name && sys == r.sys,
        RelAlgebra::Delta(r) => e matches Explain::Delta { bindings, name, from, to } && names(
            bindings@,
        ) == out && *name == r.storage.name && from == r.from && to == r.to,
        RelAlgebra::Join(r) => if r.left.unit_like() {
            shows(r.right, e)
        } else {
            e matches Explain::Join { bindings, joiner, left, right } && names(bindings@) == out
                && *joiner == r.joiner && shows(r.left, *left) && shows(r.right, *right)
        },
        RelAlgebra::NegJoin(r) => e matches Explain::NegJoin { bindings, joiner, left, negated }
            && names(bindings@) == out && *joiner == r.joiner && shows(r.left, *left) && *negated
            == r.right,
        RelAlgebra::Reorder(r) => e matches Explain::Reorder { new_order, relation } && *new_order
            == r.new_order && shows(*r.relation, *relation),
        RelAlgebra::Filter(r) => e matches Explain::Filter { bindings, filters, parent } && names(
            bindings@,
        ) == out && *filters == r.filters && shows(*r.parent, *parent),
        RelAlgebra::Unification(r) => e matches Explain::Unify { bindings, parent, binding, expr }
            && names(bindings@) == out && shows(*r.parent, *parent) && *binding == r.binding
            && *expr == r.expr,
    }
}

impl RelAlgebra {
    /// The shown form of the plan.
    pub fn explain(&self) -> (r: Explain<'_>)
        ensures
            shows(*self, r),
        decreases self,
    {
        let bindings = self.bindings_after_eliminate();
        match self {
            RelAlgebra::Fixed(r) => if self.is_unit() {
                Explain::Unit
            } else if r.data.len() == 1 {
                Explain::Singlet { bindings, row: &r.data[0] }
            } else {
                Explain::Fixed { bindings }
            },
            RelAlgebra::Search(r) => Explain::Search {
                bindings,
                kind: r.kind,
                parent: Box::new(r.parent.explain()),
            },
            RelAlgebra::TempStore(r) => Explain::TempStore {
                bindings,
                storage_key: &r.storage_key,
                filters: &r.filters,
            },
            RelAlgebra::Stored(r) => Explain::Stored {
                bindings,
                name: &r.storage.name,
                filters: &r.filters,
            },
            RelAlgebra::StoredWithValidity(r) => Explain::StoredWithValidity {
                bindings,
                name: &r.storage.name,
                filters: &r.filters,
                as_of: r.as_of,
            },
            RelAlgebra::Spans(r) => Explain::Spans { bindings, name: &r.storage.name, sys: r.sys },
            RelAlgebra::Delta(r) => Explain::Delta {
                bindings,
                name: &r.storage.name,
                from: r.from,
                to: r.to,
            },
            RelAlgebra::Join(r) => if r.left.is_unit() {
                r.right.explain()
            } else {
                Explain::Join {
                    bindings,
                    joiner: &r.joiner,
                    left: Box::new(r.left.explain()),
                    right: Box::new(r.right.explain()),
                }
            },
            RelAlgebra::NegJoin(r) => Explain::NegJoin {
                bindings,
                joiner: &r.joiner,
                left: Box::new(r.left.explain()),
                negated: &r.right,
            },
            RelAlgebra::Reorder(r) => Explain::Reorder {
                new_order: &r.new_order,
                relation: Box::new(r.relation.explain()),
            },
            RelAlgebra::Filter(r) => Explain::Filter {
                bindings,
                filters: &r.filters,
                parent: Box::new(r.parent.explain()),
            },
            RelAlgebra::Unification(r) => Explain::Unify {
                bindings,
                parent: Box::new(r.parent.explain()),
                binding: &r.binding,
                expr: &r.expr,
            },
        }
    }
}

/// Names with a comma between each two.
pub open spec fn comma_joined(ns: Seq<Name>) -> Seq<char>
    decreases ns.len(),
{
    if ns.len() == 0 {
        Seq::empty()
    } else if ns.len() == 1 {
        ns[0]
    } else {
        comma_joined(ns.drop_last()) + ", "@ + ns.last()
    }
}

/// A list of names in brackets.
pub open spec fn listed(ns: Seq<Name>) -> Seq<char> {
    "["@ + comma_joined(ns) + "]"@
}

/// A list of names as text.
pub fn list_names(v: &Vec<String>) -> (r: String)
    ensures
        r@ == listed(names(v@)),
{
    let ghost ns = names(v@);
    let mut out = "[".to_owned();
    let mut i: usize = 0;
    proof {
        assert("["@ =~= "["@ + comma_joined(ns.take(0)));
    }
    while i < v.len()
        invariant
            i <= v@.len(),
            ns == names(v@),
            out@ == "["@ + comma_joined(ns.take(i as int)),
        decreases v.len() - i,
    {
        let ghost before = out@;
        if i > 0 {
            out.append(", ");
        }
        out.append(v[i].as_str());
        proof {
            let more = ns.take(i + 1);
            assert(more.drop_last() =~= ns.take(i as int));
            assert(more.last() == v@[i as int]@);
            if i == 0 {
                assert(ns.take(0) =~= Seq::<Name>::empty());
                assert(out@ =~= "["@ + comma_joined(more));
            } else {
                assert(out@ =~= "["@ + (comma_joined(ns.take(i as int)) + ", "@ + v@[i as int]@));
            }
        }
        i = i + 1;
    }
    proof {
        assert(ns.take(i as int) =~= ns);
    }
    out.append("]");
    out
}

impl Joiner {
    /// The join columns as text.
    pub fn describe(&self) -> (r: String)
        ensures
            r@ == listed(names(self.left_keys@)) + "<->"@ + listed(names(self.right_keys@)),
    {
        let mut out = list_names(&self.left_keys);
        out.append("<->");
        let right = list_names(&self.right_keys);
        out.append(right.as_str());
        out
    }
}

} // verus!
