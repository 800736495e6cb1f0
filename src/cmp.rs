//! Comparators: how the comparison of two block values is encoded as a small integer, and how
//! the result of a ciphertext comparison is turned back into something callers recognise.
//!
//! The value 0 always means "equal"; the meaning of the other values depends on the comparator.

use std::cmp::Ordering;
use vstd::prelude::*;

use crate::error::Error;

verus! {

/// The arity of the equality comparator: results lie in `[0, 2)`.
pub const EQUALITY: u8 = 2;

/// The arity of the ordering comparator: results lie in `[0, 3)`.
pub const ORDERING: u8 = 3;

/// Whether `m` is the arity of one of the two comparators.
pub open spec fn is_arity(m: u8) -> bool {
    m == EQUALITY || m == ORDERING
}

/// What a comparator of arity `m` encodes for the block values `a` and `b`:
/// 0 when equal; otherwise 1 under equality, and 1 (less) or 2 (greater) under ordering.
pub open spec fn cmp_code(m: u8, a: int, b: int) -> u8 {
    if a == b {
        0
    } else if m == EQUALITY {
        1
    } else if a < b {
        1
    } else {
        2
    }
}

/// What you have to implement in order to be a comparator.
pub trait Comparator {
    /// The arity `M` of the comparator.
    spec fn arity() -> u8;

    /// Compare two block values, giving the value that is encoded into a ciphertext.
    fn compare(a: u16, b: u16) -> (r: u8)
        ensures
            r == cmp_code(Self::arity(), a as int, b as int),
            r < Self::arity(),
    ;
}

/// A comparator that reveals `<`, `=` and `>`.
#[derive(Debug, Clone, Copy)]
pub struct OrderingCMP {}

impl OrderingCMP {
    /// Turn the result of a ciphertext comparison into an `Ordering`.
    pub fn invert(i: u8) -> (r: Result<Ordering, Error>)
        ensures
            i == 0 ==> r == Ok::<Ordering, Error>(Ordering::Equal),
            i == 1 ==> r == Ok::<Ordering, Error>(Ordering::Less),
            i == 2 ==> r == Ok::<Ordering, Error>(Ordering::Greater),
            i > 2 <==> r is Err,
            r is Err ==> r->Err_0 is RangeError,
    {
        match i {
            0 => Ok(Ordering::Equal),
            1 => Ok(Ordering::Less),
            2 => Ok(Ordering::Greater),
            _ => Err(Error::RangeError("value passed to invert must be in the range 0..2".to_string())),
        }
    }
}

impl Comparator for OrderingCMP {
    open spec fn arity() -> u8 {
        ORDERING
    }

    fn compare(a: u16, b: u16) -> (r: u8) {
        if a == b {
            0
        } else if a < b {
            1
        } else {
            2
        }
    }
}

/// A comparator that reveals only equality.
#[derive(Debug, Clone, Copy)]
pub struct EqualityCMP {}

impl EqualityCMP {
    /// Turn the result of a ciphertext comparison into "equal or not".
    pub fn invert(i: u8) -> (r: Result<bool, Error>)
        ensures
            i <= 1 ==> r == Ok::<bool, Error>(i == 0),
            i > 1 <==> r is Err,
            r is Err ==> r->Err_0 is RangeError,
    {
        if i > 1 {
            Err(Error::RangeError("value passed to invert must be in the range 0..1".to_string()))
        } else {
            Ok(i == 0)
        }
    }
}

impl Comparator for EqualityCMP {
    open spec fn arity() -> u8 {
        EQUALITY
    }

    fn compare(a: u16, b: u16) -> (r: u8) {
        if a != b {
            1
        } else {
            0
        }
    }
}

/// The comparison of two block values under the comparator of arity `m`.
pub fn compare_blocks(m: u8, a: u16, b: u16) -> (r: u8)
    requires
        is_arity(m),
    ensures
        r == cmp_code(m, a as int, b as int),
        r < m,
{
    if m == EQUALITY {
        EqualityCMP::compare(a, b)
    } else {
        OrderingCMP::compare(a, b)
    }
}

} // verus!
