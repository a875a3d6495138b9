//! Capability traits for the key and value types carried by diffs and
//! collections.
//!
//! The engine stores keys and values in plain vectors, so it must be able to
//! duplicate a value without changing it and to compare two keys. These
//! traits state those abilities with contracts, which lets every data type
//! built from them carry exact specifications.

use vstd::prelude::*;

verus! {

/// A value that can be duplicated, yielding a result equal to the original.
pub trait DupValue: Sized {
    /// Produce a copy of this value.
    fn dup(&self) -> (r: Self)
        ensures
            r == *self,
    ;
}

/// A key that can be duplicated and compared for equality.
pub trait DiffKey: DupValue {
    /// Decide whether two keys are the same.
    fn same(&self, other: &Self) -> (r: bool)
        ensures
            r == (*self == *other),
    ;
}

impl DupValue for usize {
    fn dup(&self) -> (r: Self) {
        *self
    }
}

impl DiffKey for usize {
    fn same(&self, other: &Self) -> (r: bool) {
        *self == *other
    }
}

impl DupValue for u8 {
    fn dup(&self) -> (r: Self) {
        *self
    }
}

impl DiffKey for u8 {
    fn same(&self, other: &Self) -> (r: bool) {
        *self == *other
    }
}

impl DupValue for u16 {
    fn dup(&self) -> (r: Self) {
        *self
    }
}

impl DiffKey for u16 {
    fn same(&self, other: &Self) -> (r: bool) {
        *self == *other
    }
}

impl DupValue for u32 {
    fn dup(&self) -> (r: Self) {
        *self
    }
}

impl DiffKey for u32 {
    fn same(&self, other: &Self) -> (r: bool) {
        *self == *other
    }
}

impl DupValue for u64 {
    fn dup(&self) -> (r: Self) {
        *self
    }
}

impl DiffKey for u64 {
    fn same(&self, other: &Self) -> (r: bool) {
        *self == *other
    }
}

impl DupValue for i32 {
    fn dup(&self) -> (r: Self) {
        *self
    }
}

impl DiffKey for i32 {
    fn same(&self, other: &Self) -> (r: bool) {
        *self == *other
    }
}

impl DupValue for i64 {
    fn dup(&self) -> (r: Self) {
        *self
    }
}

impl DiffKey for i64 {
    fn same(&self, other: &Self) -> (r: bool) {
        *self == *other
    }
}

impl DupValue for bool {
    fn dup(&self) -> (r: Self) {
        *self
    }
}

impl DiffKey for bool {
    fn same(&self, other: &Self) -> (r: bool) {
        *self == *other
    }
}

impl<A: DupValue, B: DupValue> DupValue for (A, B) {
    fn dup(&self) -> (r: Self) {
        (self.0.dup(), self.1.dup())
    }
}

impl<T: DupValue> DupValue for Option<T> {
    fn dup(&self) -> (r: Self) {
        match self {
            Option::None => Option::None,
            Option::Some(v) => Option::Some(v.dup()),
        }
    }
}

} // verus!
