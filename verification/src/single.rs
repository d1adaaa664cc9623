//! Single-precision numbers, held as bit patterns and compared as numbers.

use vstd::arithmetic::power2::{lemma2_to64, lemma_pow2_pos, lemma_pow2_unfold, pow2};
use vstd::prelude::*;

verus! {

/// The sign bit; the bits below it are the magnitude.
pub const SIGN_BIT: u32 = 0x8000_0000;

/// The magnitude of an infinity. Every larger magnitude stands for no number.
pub const INFINITE_MAGNITUDE: u32 = 0x7f80_0000;

/// The first magnitude whose number is stored with an implicit leading one.
pub const NORMAL_MAGNITUDE: u32 = 0x0080_0000;

/// A single-precision number, held as its IEEE 754 bit pattern.
///
/// `==` compares the patterns; the methods compare the numbers that they stand for.
#[derive(Clone, Copy, Debug, PartialEq, Eq, Structural)]
pub struct Single {
    pub bits: u32,
}

/// The number that a magnitude stands for, in units of the smallest positive
/// number (two to the power of -149). An infinity counts as the power of two
/// that follows the largest finite number.
pub open spec fn magnitude_units(magnitude: nat) -> nat {
    if magnitude < NORMAL_MAGNITUDE {
        magnitude
    } else {
        (NORMAL_MAGNITUDE + magnitude % NORMAL_MAGNITUDE as nat) as nat * pow2(
            (magnitude / NORMAL_MAGNITUDE as nat - 1) as nat,
        )
    }
}

impl Single {
    /// Whether the sign bit is set.
    pub open spec fn signed(self) -> bool {
        self.bits >= SIGN_BIT
    }

    pub open spec fn magnitude(self) -> nat {
        self.bits as nat % SIGN_BIT as nat
    }

    /// Whether the pattern stands for no number.
    pub open spec fn is_nan(self) -> bool {
        self.magnitude() > INFINITE_MAGNITUDE
    }

    /// The number itself, in units of the smallest positive number.
    pub open spec fn units(self) -> int {
        if self.signed() {
            -(magnitude_units(self.magnitude()) as int)
        } else {
            magnitude_units(self.magnitude()) as int
        }
    }

    /// Two numbers, the first below the second.
    pub open spec fn lt(self, other: Single) -> bool {
        !self.is_nan() && !other.is_nan() && self.units() < other.units()
    }

    /// Two numbers that are the same. The two zeros are.
    pub open spec fn same(self, other: Single) -> bool {
        !self.is_nan() && !other.is_nan() && self.units() == other.units()
    }

    /// A number below zero.
    pub open spec fn below_zero(self) -> bool {
        !self.is_nan() && self.units() < 0
    }

    /// A number above zero.
    pub open spec fn above_zero(self) -> bool {
        !self.is_nan() && self.units() > 0
    }

    /// One of the two zeros.
    pub open spec fn zero(self) -> bool {
        !self.is_nan() && self.units() == 0
    }

    /// Whether the two signs, read as numbers, differ. A zero has the sign of
    /// its sign bit. What is no number has a sign that differs from every sign,
    /// its own included.
    pub open spec fn sign_differs(self, other: Single) -> bool {
        self.is_nan() || other.is_nan() || self.signed() != other.signed()
    }

    /// The pattern with the other sign.
    pub open spec fn negative(self) -> Single {
        if self.signed() {
            Single { bits: (self.bits - SIGN_BIT) as u32 }
        } else {
            Single { bits: (self.bits + SIGN_BIT) as u32 }
        }
    }

    /// The bits below the sign bit.
    fn magnitude_bits(self) -> (magnitude: u32)
        ensures
            magnitude == self.magnitude(),
    {
        if self.bits >= SIGN_BIT {
            self.bits - SIGN_BIT
        } else {
            self.bits
        }
    }

    /// Whether this is a number below the number `other`.
    pub fn less_than(self, other: Single) -> (less: bool)
        ensures
            less == self.lt(other),
    {
        let a: u32 = self.magnitude_bits();
        let b: u32 = other.magnitude_bits();
        proof {
            lemma_magnitudes_in_order(a as nat, b as nat);
            lemma_magnitudes_in_order(b as nat, a as nat);
            lemma_magnitudes_in_order(0, a as nat);
            lemma_magnitudes_in_order(0, b as nat);
        }
        if a > INFINITE_MAGNITUDE || b > INFINITE_MAGNITUDE {
            false
        } else if self.bits >= SIGN_BIT {
            if other.bits >= SIGN_BIT {
                b < a
            } else {
                a != 0 || b != 0
            }
        } else {
            other.bits < SIGN_BIT && a < b
        }
    }

    /// Whether this and `other` are the same number.
    pub fn equals(self, other: Single) -> (equal: bool)
        ensures
            equal == self.same(other),
    {
        let a: u32 = self.magnitude_bits();
        let b: u32 = other.magnitude_bits();
        proof {
            lemma_magnitudes_in_order(a as nat, b as nat);
            lemma_magnitudes_in_order(b as nat, a as nat);
            lemma_magnitudes_in_order(0, a as nat);
            lemma_magnitudes_in_order(0, b as nat);
        }
        if a > INFINITE_MAGNITUDE || b > INFINITE_MAGNITUDE {
            false
        } else if (self.bits >= SIGN_BIT) == (other.bits >= SIGN_BIT) {
            a == b
        } else {
            a == 0 && b == 0
        }
    }

    /// Whether this is a number below zero.
    pub fn is_below_zero(self) -> (below: bool)
        ensures
            below == self.below_zero(),
    {
        let magnitude: u32 = self.magnitude_bits();
        proof {
            lemma_magnitudes_in_order(0, magnitude as nat);
        }
        self.bits > SIGN_BIT && magnitude <= INFINITE_MAGNITUDE
    }

    /// Whether this is a number above zero.
    pub fn is_above_zero(self) -> (above: bool)
        ensures
            above == self.above_zero(),
    {
        proof {
            lemma_magnitudes_in_order(0, self.magnitude());
        }
        0 < self.bits && self.bits <= INFINITE_MAGNITUDE
    }

    /// Whether this is one of the two zeros.
    pub fn is_zero(self) -> (zero: bool)
        ensures
            zero == self.zero(),
    {
        proof {
            lemma_magnitudes_in_order(0, self.magnitude());
        }
        self.magnitude_bits() == 0
    }

    /// Whether the signs of the two differ.
    pub fn signum_differs(self, other: Single) -> (differs: bool)
        ensures
            differs == self.sign_differs(other),
    {
        self.magnitude_bits() > INFINITE_MAGNITUDE || other.magnitude_bits() > INFINITE_MAGNITUDE
            || (self.bits >= SIGN_BIT) != (other.bits >= SIGN_BIT)
    }

    /// The same magnitude with the other sign.
    pub fn negated(self) -> (other: Single)
        ensures
            other == self.negative(),
    {
        if self.bits >= SIGN_BIT {
            Single { bits: self.bits - SIGN_BIT }
        } else {
            Single { bits: self.bits + SIGN_BIT }
        }
    }
}

/// The next magnitude stands for a larger number.
proof fn lemma_next_magnitude(magnitude: nat)
    ensures
        magnitude_units(magnitude) < magnitude_units(magnitude + 1),
{
    let base = NORMAL_MAGNITUDE as nat;
    lemma2_to64();
    if magnitude >= base {
        let exponent = (magnitude / base - 1) as nat;
        let fraction = magnitude % base;
        let scale = pow2(exponent);
        lemma_pow2_pos(exponent);
        assert(magnitude_units(magnitude) == (base + fraction) * scale);
        if fraction + 1 < base {
            assert((magnitude + 1) / base == magnitude / base);
            assert((magnitude + 1) % base == fraction + 1);
            assert(magnitude_units(magnitude + 1) == (base + fraction + 1) * scale);
            assert((base + fraction) * scale < (base + fraction + 1) * scale) by (nonlinear_arith)
                requires
                    scale > 0,
            ;
        } else {
            assert((magnitude + 1) / base == magnitude / base + 1);
            assert((magnitude + 1) % base == 0);
            lemma_pow2_unfold(exponent + 1);
            assert(magnitude_units(magnitude + 1) == base * (2 * scale));
            assert((base + fraction) * scale < base * (2 * scale)) by (nonlinear_arith)
                requires
                    scale > 0,
                    fraction == base - 1,
            ;
        }
    } else if magnitude + 1 == base {
        assert((magnitude + 1) / base == 1 && (magnitude + 1) % base == 0);
        assert(magnitude_units(magnitude + 1) == base * pow2(0));
    }
}

/// Magnitudes are in the order of the numbers that they stand for.
pub proof fn lemma_magnitudes_in_order(a: nat, b: nat)
    ensures
        a < b ==> magnitude_units(a) < magnitude_units(b),
    decreases b,
{
    if a < b {
        lemma_next_magnitude((b - 1) as nat);
        lemma_magnitudes_in_order(a, (b - 1) as nat);
    }
}

/// To change the sign of a number is to change the sign of its value, and to do
/// it twice gives the number back.
pub proof fn lemma_negative(a: Single)
    ensures
        a.negative().units() == -a.units(),
        a.negative().is_nan() == a.is_nan(),
        a.negative().signed() != a.signed(),
        a.negative().negative() == a,
{
    assert(a.negative().magnitude() == a.magnitude());
}

/// A number is below zero, zero or above zero, and what it is shows in its sign:
/// below zero the sign bit is set, above zero it is not.
pub proof fn lemma_sign_of_number(a: Single)
    requires
        !a.is_nan(),
    ensures
        a.below_zero() || a.zero() || a.above_zero(),
        a.below_zero() ==> a.signed(),
        a.above_zero() ==> !a.signed(),
        a.zero() <==> a.magnitude() == 0,
{
    lemma_magnitudes_in_order(0, a.magnitude());
}

/// What a pattern is, read off its bits: below zero are the patterns above the minus
/// zero up to minus infinity, above zero those above the plus zero up to infinity,
/// and the patterns behind the infinities are no numbers.
pub proof fn lemma_bits(a: Single)
    ensures
        a.signed() <==> a.bits >= 0x8000_0000,
        a.zero() <==> a.bits == 0 || a.bits == 0x8000_0000,
        a.above_zero() <==> 0 < a.bits <= 0x7f80_0000,
        a.below_zero() <==> 0x8000_0000 < a.bits <= 0xff80_0000,
        a.is_nan() <==> 0x7f80_0000 < a.bits < 0x8000_0000 || 0xff80_0000 < a.bits,
        a.bits < 0x8000_0000 ==> a.negative().bits == a.bits + 0x8000_0000,
        a.bits >= 0x8000_0000 ==> a.negative().bits == a.bits - 0x8000_0000,
{
    lemma_magnitudes_in_order(0, a.magnitude());
}

/// How two patterns compare, read off their bits: without the sign bit numbers are in
/// the order of their patterns, with it in the reverse order, and the two zeros are
/// the same.
pub proof fn lemma_order_of_bits(a: Single, b: Single)
    ensures
        a.lt(b) <==> {
            &&& a.bits <= 0x7f80_0000 || 0x8000_0000 <= a.bits <= 0xff80_0000
            &&& b.bits <= 0x7f80_0000 || 0x8000_0000 <= b.bits <= 0xff80_0000
            &&& if a.bits < 0x8000_0000 {
                a.bits < b.bits < 0x8000_0000
            } else if b.bits < 0x8000_0000 {
                a.bits != 0x8000_0000 || b.bits != 0
            } else {
                b.bits < a.bits
            }
        },
        a.same(b) <==> {
            &&& a.bits <= 0x7f80_0000 || 0x8000_0000 <= a.bits <= 0xff80_0000
            &&& a.bits == b.bits || (a.bits == 0 && b.bits == 0x8000_0000) || (a.bits == 0x8000_0000
                && b.bits == 0)
        },
        a.sign_differs(b) <==> {
            ||| 0x7f80_0000 < a.bits < 0x8000_0000
            ||| 0xff80_0000 < a.bits
            ||| 0x7f80_0000 < b.bits < 0x8000_0000
            ||| 0xff80_0000 < b.bits
            ||| (a.bits < 0x8000_0000) != (b.bits < 0x8000_0000)
        },
{
    let (m, n) = (a.magnitude(), b.magnitude());
    lemma_magnitudes_in_order(m, n);
    lemma_magnitudes_in_order(n, m);
    lemma_magnitudes_in_order(0, m);
    lemma_magnitudes_in_order(0, n);
}

/// Up to the second power of two with an implicit leading one, a magnitude is the
/// number of units that it stands for. From the first one on, the next exponent
/// stands for twice the number. The sign bit turns a number into its negative.
pub proof fn lemma_units(magnitude: nat, a: Single)
    ensures
        magnitude <= 0x0100_0000 ==> magnitude_units(magnitude) == magnitude,
        magnitude >= 0x0080_0000 ==> magnitude_units(magnitude + 0x0080_0000) == 2
            * magnitude_units(magnitude),
        a.bits < 0x8000_0000 ==> a.units() == magnitude_units(a.bits as nat),
        a.bits >= 0x8000_0000 ==> a.units() == -magnitude_units((a.bits - 0x8000_0000) as nat),
{
    let base = NORMAL_MAGNITUDE as nat;
    lemma2_to64();
    if magnitude >= base {
        let exponent = (magnitude / base - 1) as nat;
        assert((magnitude + base) / base == magnitude / base + 1);
        assert((magnitude + base) % base == magnitude % base);
        lemma_pow2_unfold(exponent + 1);
        let lead = base + magnitude % base;
        let scale = pow2(exponent);
        assert(lead * (2 * scale) == 2 * (lead * scale)) by (nonlinear_arith);
        if magnitude < 2 * base {
            assert(magnitude / base == 1);
            assert(lead * 1 == lead) by (nonlinear_arith);
        } else if magnitude == 2 * base {
            assert(magnitude / base == 2 && magnitude % base == 0);
            assert(lead * 2 == 2 * base) by (nonlinear_arith)
                requires
                    lead == base,
            ;
        }
    }
}

} // verus!
