//! What a fixed rule can read: the source of its stored inputs.

use vstd::prelude::*;
use crate::history::AsOf;
use crate::value::Tuple;

verus! {

/// A stored relation cannot be read from here.
#[derive(Debug)]
pub struct StoredInputUnavailable {
    pub name: String,
}

impl StoredInputUnavailable {
    /// What is wrong.
    pub fn message(&self) -> (r: &'static str)
        ensures
            r@ == "stored relations are not available to fixed rules"@,
    {
        "stored relations are not available to fixed rules"
    }
}

/// The source of inputs that has none: it refuses every read of a stored
/// relation, with or without an instant.
#[derive(Clone, Copy, Debug)]
pub struct NoStoredInputs;

impl NoStoredInputs {
    /// Refuse to scan a relation.
    pub fn stored_scan_all(&self, name: &String, as_of: Option<AsOf>) -> (r: Result<
        Vec<Tuple>,
        StoredInputUnavailable,
    >)
        ensures
            r matches Err(e) && e.name@ == name@,
    {
        let _ = as_of;
        Err(StoredInputUnavailable { name: name.clone() })
    }

    /// Refuse to tell how wide a relation is.
    pub fn stored_arity(&self, name: &String) -> (r: Result<usize, StoredInputUnavailable>)
        ensures
            r matches Err(e) && e.name@ == name@,
    {
        Err(StoredInputUnavailable { name: name.clone() })
    }
}

} // verus!
