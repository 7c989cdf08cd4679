//! The type-erased value store.
//!
//! A store maps asset names to [`Value`]s.  Retrieval is checked: the
//! caller names the kind it expects, and a value stored under a different
//! kind is reported as [`SolverError::AssetWrongType`], never coerced.

use vstd::prelude::*;

use crate::errors::SolverError;
use crate::errors::SolverErrorV;
use crate::table::NameTable;
use crate::value::kind_of;
use crate::value::Value;
use crate::value::ValueKind;

verus! {

/// Exactly when checked retrieval of `(n, k)` from a store holding `m`
/// returns each result: the stored value on a kind match, wrong-type when
/// the name holds another kind, not-created when the name holds nothing.
pub open spec fn cache_get_post(
    m: Map<Seq<char>, Value>,
    n: Seq<char>,
    k: ValueKind,
    r: Result<Value, SolverError>,
) -> bool {
    match r {
        Ok(v) => m.dom().contains(n) && m[n] == v && kind_of(v) == k,
        Err(e) => match e@ {
            SolverErrorV::AssetWrongType(s) => s == n && m.dom().contains(n) && kind_of(m[n]) != k,
            SolverErrorV::AssetNotCreated(s) => s == n && !m.dom().contains(n),
            _ => false,
        },
    }
}

/// Read and write access to a store of named values.
pub trait Cache {
    /// The mapping held by this store.
    spec fn stored(&self) -> Map<Seq<char>, Value>;

    /// The store's internal well-formedness, established by its
    /// constructor and preserved by every operation.
    spec fn cache_inv(&self) -> bool;

    /// Retrieves the value stored under `name`, checked against the
    /// requested kind.
    fn get_value(&self, name: &str, kind: ValueKind) -> (r: Result<Value, SolverError>)
        requires
            self.cache_inv(),
        ensures
            cache_get_post(self.stored(), name@, kind, r),
    ;

    /// Stores `value` under `name`, replacing any prior entry.
    fn save_value(&mut self, name: &String, value: Value)
        requires
            old(self).cache_inv(),
        ensures
            final(self).cache_inv(),
            final(self).stored() == old(self).stored().insert(name@, value),
    ;

    /// Stores `value` under `name`, replacing any prior entry.
    fn save_value_str(&mut self, name: &str, value: Value)
        requires
            old(self).cache_inv(),
        ensures
            final(self).cache_inv(),
            final(self).stored() == old(self).stored().insert(name@, value),
    ;
}

/// A store of results, kept by the caller across solver generations.
pub struct ValuesCache {
    table: NameTable<Value>,
}

impl View for ValuesCache {
    type V = Map<Seq<char>, Value>;

    closed spec fn view(&self) -> Map<Seq<char>, Value> {
        self.table@
    }
}

impl ValuesCache {
    /// Internal well-formedness: lookups are unambiguous.  Established by
    /// the constructor and preserved by every operation.
    pub closed spec fn wf(&self) -> bool {
        self.table.wf()
    }

    /// An empty store.
    pub fn new() -> (r: ValuesCache)
        ensures
            r@ == Map::<Seq<char>, Value>::empty(),
            r.wf(),
    {
        ValuesCache { table: NameTable::new() }
    }

    /// Whether any value is stored under `name`.
    pub fn contains(&self, name: &str) -> (r: bool)
        requires
            self.wf(),
        ensures
            r == self@.dom().contains(name@),
    {
        self.table.contains(name)
    }

    /// The value stored under `name`, regardless of its kind.
    pub fn read(&self, name: &str) -> (r: Option<Value>)
        requires
            self.wf(),
        ensures
            match r {
                Some(v) => self@.dom().contains(name@) && self@[name@] == v,
                None => !self@.dom().contains(name@),
            },
    {
        match self.table.get(name) {
            Some(v) => Some(*v),
            None => None,
        }
    }
}

impl Cache for ValuesCache {
    open spec fn stored(&self) -> Map<Seq<char>, Value> {
        self@
    }

    open spec fn cache_inv(&self) -> bool {
        self.wf()
    }

    fn get_value(&self, name: &str, kind: ValueKind) -> (r: Result<Value, SolverError>) {
        match self.table.get(name) {
            Some(v) => {
                if v.kind() == kind {
                    Ok(*v)
                } else {
                    Err(SolverError::AssetWrongType(name.to_owned()))
                }
            },
            None => Err(SolverError::AssetNotCreated(name.to_owned())),
        }
    }

    fn save_value(&mut self, name: &String, value: Value) {
        self.table.insert(name.clone(), value);
    }

    fn save_value_str(&mut self, name: &str, value: Value) {
        self.table.insert(name.to_owned(), value);
    }
}

} // verus!
