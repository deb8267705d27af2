//! Constants held by their IEEE-754 bit pattern, so that equality and
//! hashing are well defined.
use vstd::prelude::*;

verus! {

#[derive(Clone, Copy, PartialEq, Eq, Hash, Debug, Structural)]
pub struct Bits64(pub u64);

impl Bits64 {
    pub open spec fn spec_bits(self) -> u64 {
        self.0
    }

    /// The constant whose bit pattern is `bits`.
    pub fn from_bits(bits: u64) -> (r: Self)
        ensures
            r.spec_bits() == bits,
    {
        Bits64(bits)
    }

    /// The bit pattern of the constant.
    pub fn to_bits(self) -> (r: u64)
        ensures
            r == self.spec_bits(),
    {
        self.0
    }
}

} // verus!
