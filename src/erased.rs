//! A two-word, type-erased carrier for the bits of a possibly-fat pointer.
use vstd::prelude::*;

verus! {

/// The number of distinct values of one machine word (64 bits).
pub const WORD_RANGE: u128 = 0x1_0000_0000_0000_0000;

/// Two machine words stored in one 16-byte-aligned integer: the address word in the low
/// half and the metadata word in the high half.
#[derive(Clone, Copy, Debug, PartialEq, Eq, Structural)]
pub struct ErasedPtr {
    bits: u128,
}

impl ErasedPtr {
    /// The address word and the metadata word that this pointer carries.
    pub closed spec fn view(self) -> (u64, u64) {
        ((self.bits % WORD_RANGE) as u64, (self.bits / WORD_RANGE) as u64)
    }

    /// Erase a pointer given as its address word and its metadata word.
    pub fn new(addr: u64, meta: u64) -> (r: ErasedPtr)
        ensures
            r@ == (addr, meta),
    {
        let bits: u128 = (meta as u128) * WORD_RANGE + (addr as u128);
        proof {
            let m = meta as int;
            let a = addr as int;
            assert(bits as int == m * WORD_RANGE + a);
            assert((m * WORD_RANGE + a) % (WORD_RANGE as int) == a) by (nonlinear_arith)
                requires 0 <= a < WORD_RANGE;
            assert((m * WORD_RANGE + a) / (WORD_RANGE as int) == m) by (nonlinear_arith)
                requires 0 <= a < WORD_RANGE;
        }
        ErasedPtr { bits }
    }

    /// Recover the address word and the metadata word, bit for bit.
    pub fn specify(self) -> (r: (u64, u64))
        ensures
            r == self@,
    {
        proof {
            assert(self.bits / WORD_RANGE < WORD_RANGE) by (nonlinear_arith)
                requires self.bits < WORD_RANGE * WORD_RANGE;
        }
        ((self.bits % WORD_RANGE) as u64, (self.bits / WORD_RANGE) as u64)
    }
}

} // verus!
