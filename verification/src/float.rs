//! Single-precision numbers carried as bit patterns.

use vstd::prelude::*;
use vstd::std_specs::cmp::PartialEqSpec;

verus! {

/// An IEEE 754 single-precision number, held as its bit pattern.
///
/// The low 31 bits are the magnitude (exponent and fraction), the top bit is the sign.
#[derive(Clone, Copy, Debug)]
pub struct Float32 {
    pub bits: u32,
}

impl Float32 {
    /// The bits below the sign bit.
    pub open spec fn magnitude(self) -> int {
        self.bits as int % 0x8000_0000
    }

    /// An all-ones exponent with a nonzero fraction.
    pub open spec fn is_nan(self) -> bool {
        self.magnitude() > 0x7f80_0000
    }

    /// Numeric equality: a NaN equals nothing, and the two zeros are equal.
    pub open spec fn same_number(self, other: Float32) -> bool {
        &&& !self.is_nan()
        &&& !other.is_nan()
        &&& (self.bits == other.bits || (self.magnitude() == 0 && other.magnitude() == 0))
    }
}

impl PartialEq for Float32 {
    fn eq(&self, other: &Float32) -> (r: bool) {
        let a: u32 = self.bits % 0x8000_0000;
        let b: u32 = other.bits % 0x8000_0000;
        a <= 0x7f80_0000 && b <= 0x7f80_0000 && (self.bits == other.bits || (a == 0 && b == 0))
    }
}

impl vstd::std_specs::cmp::PartialEqSpecImpl for Float32 {
    open spec fn obeys_eq_spec() -> bool {
        true
    }

    open spec fn eq_spec(&self, other: &Float32) -> bool {
        self.same_number(*other)
    }
}

/// Numeric equality is symmetric.
pub proof fn same_number_symmetric(a: Float32, b: Float32)
    ensures
        a.same_number(b) == b.same_number(a),
{
}

/// Numeric equality is transitive.
pub proof fn same_number_transitive(a: Float32, b: Float32, c: Float32)
    requires
        a.same_number(b),
        b.same_number(c),
    ensures
        a.same_number(c),
{
}

/// A bit pattern of a NaN: all eight exponent bits are set, and some fraction bit is.
pub open spec fn nan_pattern(bits: u32) -> bool {
    bits as int / 0x80_0000 % 256 == 255 && bits as int % 0x80_0000 != 0
}

/// Two bit patterns of the same number: neither is a NaN, and they are the same pattern or the
/// patterns of the two zeros.
pub open spec fn same_pattern_value(a: u32, b: u32) -> bool {
    &&& !nan_pattern(a)
    &&& !nan_pattern(b)
    &&& (a == b || ((a == 0 || a == 0x8000_0000u32) && (b == 0 || b == 0x8000_0000u32)))
}

/// Numbers are the same exactly when their bit patterns have the same value, and `==` says so.
pub proof fn numbers_by_pattern(a: Float32, b: Float32)
    ensures
        a.same_number(b) <==> same_pattern_value(a.bits, b.bits),
        Float32::obeys_eq_spec(),
        a.eq_spec(&b) <==> same_pattern_value(a.bits, b.bits),
{
    pattern_fields(a.bits);
    pattern_fields(b.bits);
}

proof fn pattern_fields(bits: u32)
    ensures
        nan_pattern(bits) <==> bits as int % 0x8000_0000 > 0x7f80_0000,
        bits as int % 0x8000_0000 == 0 <==> bits == 0 || bits == 0x8000_0000u32,
{
    let magnitude = bits as int % 0x8000_0000;
    assert(magnitude / 0x80_0000 == bits as int / 0x80_0000 % 256);
    assert(magnitude % 0x80_0000 == bits as int % 0x80_0000);
}

} // verus!
