//! The closed set of value types that assets may carry.
//!
//! The store is type-erased from the caller's point of view: a value is
//! retrieved by name together with the kind the caller expects, and the
//! store answers with the stored value or with a wrong-type error.
//! Floating-point values are carried as their IEEE 754 bit patterns, so
//! that the engine itself works on plain integers.

use vstd::prelude::*;

verus! {

/// A dynamically-kinded asset value.
#[derive(Clone, Copy, PartialEq, Eq, Structural, Debug)]
pub enum Value {
    Bool(bool),
    U32(u32),
    I32(i32),
    U64(u64),
    I64(i64),
    /// An `f32`, stored as the bit pattern given by `f32::to_bits`.
    F32Bits(u32),
    /// An `f64`, stored as the bit pattern given by `f64::to_bits`.
    F64Bits(u64),
}

/// The kind tag used for checked retrieval from a store.
#[derive(Clone, Copy, PartialEq, Eq, Structural, Debug)]
pub enum ValueKind {
    Bool,
    U32,
    I32,
    U64,
    I64,
    F32,
    F64,
}

impl View for Value {
    type V = Value;

    open spec fn view(&self) -> Value {
        *self
    }
}

/// The kind of a value.
pub open spec fn kind_of(v: Value) -> ValueKind {
    match v {
        Value::Bool(_) => ValueKind::Bool,
        Value::U32(_) => ValueKind::U32,
        Value::I32(_) => ValueKind::I32,
        Value::U64(_) => ValueKind::U64,
        Value::I64(_) => ValueKind::I64,
        Value::F32Bits(_) => ValueKind::F32,
        Value::F64Bits(_) => ValueKind::F64,
    }
}

/// Comparison as the memoization protocol uses it: a type usable as a
/// task input must say when two of its values differ.
pub trait Comparable {
    /// What "differs" means, in contracts.
    spec fn ne_spec(&self, other: &Self) -> bool;

    /// Whether the two values differ.
    fn ne(&self, other: &Self) -> (r: bool)
        ensures
            r == self.ne_spec(other),
    ;
}

impl Comparable for Value {
    open spec fn ne_spec(&self, other: &Value) -> bool {
        *self != *other
    }

    fn ne(&self, other: &Value) -> (r: bool) {
        !(*self == *other)
    }
}

impl Value {
    /// The kind tag of this value.
    pub fn kind(&self) -> (k: ValueKind)
        ensures
            k == kind_of(*self),
    {
        match self {
            Value::Bool(_) => ValueKind::Bool,
            Value::U32(_) => ValueKind::U32,
            Value::I32(_) => ValueKind::I32,
            Value::U64(_) => ValueKind::U64,
            Value::I64(_) => ValueKind::I64,
            Value::F32Bits(_) => ValueKind::F32,
            Value::F64Bits(_) => ValueKind::F64,
        }
    }

    /// The payload of a `U32` value, if this is one.
    pub fn as_u32(&self) -> (r: Option<u32>)
        ensures
            match r {
                Some(x) => *self == Value::U32(x),
                None => kind_of(*self) != ValueKind::U32,
            },
    {
        match self {
            Value::U32(x) => Some(*x),
            _ => None,
        }
    }
}

} // verus!
