//! The outcome of a method call on a receiver: the Python return value and
//! the signed change in the receiver's estimated heap size.

use vstd::prelude::*;
use crate::value::Value;

verus! {

/// The Python return value of a method call, plus the signed change in the
/// receiver's estimated size, which the caller applies to the memory budget.
#[derive(Debug)]
pub struct MethodOutcome {
    pub value: Value,
    pub mem_delta: isize,
}

/// A byte count as a size change, saturating at `isize::MAX`.
pub open spec fn saturating_isize(n: int) -> int {
    if n > isize::MAX { isize::MAX as int } else { n }
}

pub fn to_isize(n: usize) -> (r: isize)
    ensures
        r == saturating_isize(n as int),
{
    if n > isize::MAX as usize { isize::MAX } else { n as isize }
}

impl MethodOutcome {
    /// A result that leaves the receiver's size unchanged.
    pub fn pure(value: Value) -> (o: MethodOutcome)
        ensures
            o.value == value,
            o.mem_delta == 0,
    {
        MethodOutcome { value, mem_delta: 0 }
    }

    /// A mutation that added `bytes` to the receiver.
    pub fn grew(value: Value, bytes: usize) -> (o: MethodOutcome)
        ensures
            o.value == value,
            o.mem_delta == saturating_isize(bytes as int),
    {
        MethodOutcome { value, mem_delta: to_isize(bytes) }
    }

    /// A mutation that removed `bytes` from the receiver.
    pub fn shrank(value: Value, bytes: usize) -> (o: MethodOutcome)
        ensures
            o.value == value,
            o.mem_delta == -saturating_isize(bytes as int),
    {
        MethodOutcome { value, mem_delta: -to_isize(bytes) }
    }
}

} // verus!
