//! Fractions that the library carries without computing with them.

use vstd::prelude::*;

verus! {

/// A double precision number, held by its IEEE 754 bits.
#[derive(Debug, Clone, Copy, PartialEq, Eq, Structural)]
pub struct FloatBits {
    pub bits: u64,
}

} // verus!
