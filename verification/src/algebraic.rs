//! S3, the algebraic specialist: its settings. The encoding analysis itself
//! works on floating-point trust values.
use vstd::prelude::*;

verus! {

/// The algebraic specialist: Pythagorean48 encoding at `precision_bits`
/// bits, with trust propagated over up to `max_hops` hops.
pub struct AlgebraicSpecialist {
    precision_bits: usize,
    max_hops: usize,
}

impl AlgebraicSpecialist {
    /// Bits of precision of the encoding.
    pub closed spec fn spec_precision_bits(&self) -> usize {
        self.precision_bits
    }

    /// Hops over which drift is measured.
    pub closed spec fn spec_max_hops(&self) -> usize {
        self.max_hops
    }

    /// A specialist at 48 bits of precision, measuring drift over 5 hops.
    pub fn new() -> (s: Self)
        ensures
            s.spec_precision_bits() == 48,
            s.spec_max_hops() == 5,
    {
        AlgebraicSpecialist { precision_bits: 48, max_hops: 5 }
    }

    /// The same specialist at `bits` bits of precision.
    pub fn with_precision(self, bits: usize) -> (s: Self)
        ensures
            s.spec_precision_bits() == bits,
            s.spec_max_hops() == self.spec_max_hops(),
    {
        AlgebraicSpecialist { precision_bits: bits, max_hops: self.max_hops }
    }

    /// Bits of precision of the encoding.
    pub fn precision_bits(&self) -> (r: usize)
        ensures
            r == self.spec_precision_bits(),
    {
        self.precision_bits
    }

    /// Hops over which drift is measured.
    pub fn max_hops(&self) -> (r: usize)
        ensures
            r == self.spec_max_hops(),
    {
        self.max_hops
    }

    /// Whether the precision is too low (under 32 bits) for reliable drift
    /// measurements.
    pub fn is_low_precision(&self) -> (r: bool)
        ensures
            r == (self.spec_precision_bits() < 32),
    {
        self.precision_bits < 32
    }
}

} // verus!
