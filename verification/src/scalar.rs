//! Single-precision numbers, held by their bit patterns.
//!
//! A [`Scalar`] is compared here exactly as the hardware compares it: `NaN` is
//! unordered and unequal to everything, and the two zeros are equal. Arithmetic
//! on scalars is the business of the callers.
use vstd::arithmetic::power2::{lemma_pow2_pos, lemma_pow2_unfold, pow2};
use vstd::prelude::*;

verus! {

/// An IEEE 754 binary32 number, as its bit pattern.
#[derive(Clone, Copy, Debug)]
pub struct Scalar {
    pub bits: u32,
}

/// The bit pattern of `0.0`.
pub const ZERO: u32 = 0;

/// The bit pattern of `1.0`.
pub const ONE: u32 = 0x3f80_0000;

/// The size of the number whose exponent and fraction fields are `magnitude`, as
/// a multiple of the least positive number, 2^-149.
///
/// Infinity comes out as the number that would follow the largest finite one, so
/// that it is greater than every finite number.
pub open spec fn magnitude_units(magnitude: int) -> int {
    let exponent = magnitude / 0x80_0000;
    let fraction = magnitude % 0x80_0000;
    if exponent == 0 {
        fraction
    } else {
        (0x80_0000 + fraction) * pow2((exponent - 1) as nat)
    }
}

proof fn lemma_magnitude_step(m: int)
    requires
        0 <= m,
    ensures
        magnitude_units(m) < magnitude_units(m + 1),
{
    let e = m / 0x80_0000;
    let f = m % 0x80_0000;
    if f + 1 < 0x80_0000 {
        assert((m + 1) / 0x80_0000 == e && (m + 1) % 0x80_0000 == f + 1);
        if e != 0 {
            let p = pow2((e - 1) as nat) as int;
            lemma_pow2_pos((e - 1) as nat);
            assert((0x80_0000 + f) * p < (0x80_0000 + f + 1) * p) by (nonlinear_arith)
                requires
                    p > 0,
            ;
        }
    } else {
        assert((m + 1) / 0x80_0000 == e + 1 && (m + 1) % 0x80_0000 == 0);
        lemma_pow2_pos(e as nat);
        if e == 0 {
            vstd::arithmetic::power2::lemma2_to64();
            assert(0x80_0000 * pow2(0) == 0x80_0000);
        } else {
            let p = pow2((e - 1) as nat) as int;
            lemma_pow2_unfold(e as nat);
            lemma_pow2_pos((e - 1) as nat);
            assert((0x80_0000 + f) * p < 0x80_0000 * (2 * p)) by (nonlinear_arith)
                requires
                    p > 0,
                    f < 0x80_0000,
            ;
        }
    }
}

proof fn lemma_magnitude_order(a: int, b: int)
    requires
        0 <= a < b,
    ensures
        magnitude_units(a) < magnitude_units(b),
    decreases b - a,
{
    lemma_magnitude_step(b - 1);
    if a < b - 1 {
        lemma_magnitude_order(a, b - 1);
    }
}

impl Scalar {
    /// Whether the sign bit is set.
    pub open spec fn negative(self) -> bool {
        self.bits >= 0x8000_0000
    }

    /// The exponent and fraction fields.
    pub open spec fn magnitude(self) -> int {
        self.bits as int % 0x8000_0000
    }

    /// Whether this is not a number.
    pub open spec fn is_nan(self) -> bool {
        self.magnitude() > 0x7f80_0000
    }

    /// The number, as a multiple of 2^-149 (see [`magnitude_units`]).
    pub open spec fn units(self) -> int {
        if self.negative() {
            -magnitude_units(self.magnitude())
        } else {
            magnitude_units(self.magnitude())
        }
    }

    /// Both are numbers.
    pub open spec fn ordered(self, other: Scalar) -> bool {
        !self.is_nan() && !other.is_nan()
    }

    /// `self < other`.
    pub open spec fn below(self, other: Scalar) -> bool {
        self.ordered(other) && self.units() < other.units()
    }

    /// `self <= other`.
    pub open spec fn at_most(self, other: Scalar) -> bool {
        self.ordered(other) && self.units() <= other.units()
    }

    /// `self == other`.
    pub open spec fn equals(self, other: Scalar) -> bool {
        self.ordered(other) && self.units() == other.units()
    }

    spec fn key(self) -> int {
        if self.negative() {
            -self.magnitude()
        } else {
            self.magnitude()
        }
    }

    proof fn lemma_key_order(self, other: Scalar)
        ensures
            self.key() < other.key() <==> self.units() < other.units(),
            self.key() == other.key() <==> self.units() == other.units(),
    {
        let a = self.magnitude();
        let b = other.magnitude();
        assert(magnitude_units(0) == 0);
        if 0 < a {
            lemma_magnitude_order(0, a);
        }
        if 0 < b {
            lemma_magnitude_order(0, b);
        }
        if a < b {
            lemma_magnitude_order(a, b);
        }
        if b < a {
            lemma_magnitude_order(b, a);
        }
    }

    /// Of two numbers that are not negative, the one with the greater bits is the greater.
    pub proof fn lemma_order(self, other: Scalar)
        requires
            !self.negative(),
            !other.negative(),
        ensures
            self.bits < other.bits <==> self.units() < other.units(),
            self.bits == other.bits <==> self.units() == other.units(),
    {
        self.lemma_key_order(other);
    }

    fn sort_key(self) -> (key: i64)
        ensures
            key == self.key(),
    {
        let magnitude: i64 = (self.bits % 0x8000_0000) as i64;
        if self.bits >= 0x8000_0000 {
            -magnitude
        } else {
            magnitude
        }
    }

    /// Whether this is not a number.
    pub fn nan(self) -> (r: bool)
        ensures
            r == self.is_nan(),
    {
        self.bits % 0x8000_0000 > 0x7f80_0000
    }

    /// `self < other`.
    pub fn less(self, other: Scalar) -> (r: bool)
        ensures
            r == self.below(other),
    {
        proof {
            self.lemma_key_order(other);
        }
        !self.nan() && !other.nan() && self.sort_key() < other.sort_key()
    }

    /// `self <= other`.
    pub fn less_or_equal(self, other: Scalar) -> (r: bool)
        ensures
            r == self.at_most(other),
    {
        proof {
            self.lemma_key_order(other);
        }
        !self.nan() && !other.nan() && self.sort_key() <= other.sort_key()
    }

    /// The greater of the two: the other one where one is not a number, and
    /// `self` where they are equal.
    pub open spec fn greater_of(self, other: Scalar) -> Scalar {
        if self.is_nan() || self.below(other) {
            other
        } else {
            self
        }
    }

    /// The greater of the two (see [`Scalar::greater_of`]).
    pub fn greater(self, other: Scalar) -> (r: Scalar)
        ensures
            r == self.greater_of(other),
    {
        if self.nan() || self.less(other) {
            other
        } else {
            self
        }
    }

    /// The number with the opposite sign.
    pub open spec fn negated(self) -> Scalar {
        if self.bits >= 0x8000_0000 {
            Scalar { bits: (self.bits - 0x8000_0000) as u32 }
        } else {
            Scalar { bits: (self.bits + 0x8000_0000) as u32 }
        }
    }

    /// The number with the opposite sign.
    pub fn negate(self) -> (r: Scalar)
        ensures
            r == self.negated(),
    {
        if self.bits >= 0x8000_0000 {
            Scalar { bits: self.bits - 0x8000_0000 }
        } else {
            Scalar { bits: self.bits + 0x8000_0000 }
        }
    }
}

/// Numbers are ordered by their bits: those without a sign by how great their bits are,
/// those with one the other way round, and below all without; the two zeros are the same.
/// What has all bits of the exponent set, and some of the fraction, is no number, and is
/// neither equal to anything nor ordered.
pub proof fn law_order_is_that_of_the_bits(a: Scalar, b: Scalar)
    ensures
        ({
            let number = |s: Scalar|
                s.bits <= 0x7f80_0000 || 0x8000_0000 <= s.bits <= 0xff80_0000;
            let zero = |s: Scalar| s.bits == 0 || s.bits == 0x8000_0000;
            let both = number(a) && number(b);
            &&& a.is_nan() == !number(a)
            &&& a.equals(b) <==> both && (a.bits == b.bits || (zero(a) && zero(b)))
            &&& a.below(b) <==> both && (if a.bits < 0x8000_0000 {
                b.bits < 0x8000_0000 && a.bits < b.bits
            } else {
                if b.bits < 0x8000_0000 {
                    !(zero(a) && zero(b))
                } else {
                    a.bits > b.bits
                }
            })
            &&& a.at_most(b) <==> a.below(b) || a.equals(b)
        }),
{
    a.lemma_key_order(b);
}

/// The greater of two numbers is one of them, and neither is greater than it. Where one
/// is not a number it is the other.
pub proof fn law_greater_is_greatest(a: Scalar, b: Scalar)
    ensures
        ({
            let r = a.greater_of(b);
            &&& r == a || r == b
            &&& !a.is_nan() && !b.is_nan() ==> a.at_most(r) && b.at_most(r)
            &&& a.is_nan() ==> r == b
            &&& b.is_nan() && !a.is_nan() ==> r == a
            &&& a.equals(b) ==> r == a
        }),
{
}

/// A negated number is as far from zero on the other side, and negating it again gives it
/// back: only the bit of the sign changes.
pub proof fn law_negated_is_opposite(a: Scalar)
    ensures
        a.negated().bits == a.bits + 0x8000_0000 || a.negated().bits == a.bits - 0x8000_0000,
        a.negated().units() == -a.units(),
        a.negated().is_nan() == a.is_nan(),
        a.negated().negated() == a,
{
}

impl PartialEq for Scalar {
    fn eq(&self, other: &Scalar) -> (r: bool) {
        proof {
            self.lemma_key_order(*other);
        }
        !self.nan() && !other.nan() && self.sort_key() == other.sort_key()
    }
}

impl vstd::std_specs::cmp::PartialEqSpecImpl for Scalar {
    open spec fn obeys_eq_spec() -> bool {
        true
    }

    open spec fn eq_spec(&self, other: &Scalar) -> bool {
        self.equals(*other)
    }
}

} // verus!
