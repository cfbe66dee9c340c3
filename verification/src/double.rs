//! Double precision numbers, carried by their bit patterns.
//!
//! The library orders, classifies and rounds such numbers; what else is computed
//! with them is carried out by its callers.

use vstd::arithmetic::power2::{
    lemma2_to64, lemma_pow2_adds, lemma_pow2_pos, lemma_pow2_strictly_increases, pow2,
};
use vstd::prelude::*;

verus! {

/// The bit that holds the sign.
pub const SIGN_BIT: u64 = 0x8000_0000_0000_0000;

/// The bit pattern of positive infinity.
pub const INFINITY_BITS: u64 = 0x7ff0_0000_0000_0000;

/// The bit pattern of one.
pub const ONE_BITS: u64 = 0x3ff0_0000_0000_0000;

/// The bit pattern of one hundred.
pub const HUNDRED_BITS: u64 = 0x4059_0000_0000_0000;

/// The bit pattern of one thousand.
pub const THOUSAND_BITS: u64 = 0x408f_4000_0000_0000;

/// The number of bit patterns that share an exponent.
pub const FRACTION_COUNT: u64 = 0x10_0000_0000_0000;

/// An IEEE 754 binary64 number.
#[derive(Clone, Copy, Debug, PartialEq, Eq, Structural)]
pub struct Double {
    /// The number's bit pattern.
    pub bits: u64,
}

impl Double {
    /// The sign bit is set.
    pub open spec fn negative(self) -> bool {
        self.bits >= SIGN_BIT
    }

    /// The bit pattern without the sign. Numbers that are farther from zero have a
    /// larger one; infinity comes last, and what is beyond is not a number.
    pub open spec fn magnitude(self) -> int {
        if self.negative() {
            self.bits - SIGN_BIT
        } else {
            self.bits as int
        }
    }

    /// Neither a finite number nor an infinity.
    pub open spec fn nan(self) -> bool {
        self.magnitude() > INFINITY_BITS
    }

    /// One of the two infinities.
    pub open spec fn infinite(self) -> bool {
        self.magnitude() == INFINITY_BITS
    }

    /// Neither an infinity nor NaN.
    pub open spec fn finite(self) -> bool {
        self.magnitude() < INFINITY_BITS
    }

    /// At most as far from zero as the number of the given magnitude.
    pub open spec fn within(self, limit: int) -> bool {
        self.magnitude() <= limit
    }

    /// The place in the total order of IEEE 754, in which negative NaNs come first,
    /// positive NaNs last, and negative zero right before positive zero.
    pub open spec fn rank(self) -> int {
        if self.negative() {
            -self.magnitude() - 1
        } else {
            self.magnitude()
        }
    }

    /// The place on the number line, where the two zeros coincide.
    pub open spec fn level(self) -> int {
        if self.negative() {
            -self.magnitude()
        } else {
            self.magnitude()
        }
    }

    /// The comparison `self >= other`, which NaN never passes.
    pub open spec fn at_least(self, other: Double) -> bool {
        !self.nan() && !other.nan() && self.level() >= other.level()
    }

    /// The comparison `self > other`, which NaN never passes.
    pub open spec fn above(self, other: Double) -> bool {
        !self.nan() && !other.nan() && self.level() > other.level()
    }

    /// The number without its sign.
    pub open spec fn absolute(self) -> Double {
        Double { bits: self.magnitude() as u64 }
    }

    /// The larger of two numbers; a NaN gives way to the other.
    pub open spec fn larger(self, other: Double) -> Double {
        if self.nan() || other.above(self) {
            other
        } else {
            self
        }
    }

    /// The smaller of two numbers; a NaN gives way to the other.
    pub open spec fn smaller(self, other: Double) -> Double {
        if self.nan() || self.above(other) {
            other
        } else {
            self
        }
    }

    /// The digits of the number: without its sign it is this integer, scaled by a
    /// power of two.
    pub open spec fn significand(self) -> int {
        if self.magnitude() < FRACTION_COUNT {
            self.magnitude()
        } else {
            self.magnitude() % (FRACTION_COUNT as int) + FRACTION_COUNT
        }
    }

    /// The exponent of the power of two that the digits are scaled by, plus 1075.
    pub open spec fn exponent(self) -> int {
        if self.magnitude() < FRACTION_COUNT {
            1
        } else {
            self.magnitude() / (FRACTION_COUNT as int)
        }
    }

    /// The largest integer up to the number without its sign.
    pub open spec fn whole_part(self) -> int {
        if self.exponent() >= 1075 {
            self.significand() * pow2((self.exponent() - 1075) as nat)
        } else {
            self.significand() / pow2((1075 - self.exponent()) as nat) as int
        }
    }

    /// The number is not an integer.
    pub open spec fn has_fraction(self) -> bool {
        self.exponent() < 1075 && self.significand() % (pow2((1075 - self.exponent()) as nat) as int)
            != 0
    }

    /// The number rounded down, as an index: zero for negative numbers and NaN, and
    /// the largest index for what is beyond.
    pub open spec fn floor(self) -> int {
        if self.nan() || self.negative() {
            0
        } else if self.whole_part() > usize::MAX {
            usize::MAX as int
        } else {
            self.whole_part()
        }
    }

    /// The number rounded up, as an index: zero for negative numbers and NaN, and
    /// the largest index for what is beyond.
    pub open spec fn ceil(self) -> int {
        if self.has_fraction() && !self.nan() && !self.negative() && self.floor() < usize::MAX {
            self.floor() + 1
        } else {
            self.floor()
        }
    }

    /// The number with the given bit pattern.
    pub fn from_bits(bits: u64) -> (number: Double)
        ensures
            number.bits == bits,
    {
        Double { bits }
    }

    /// The number's bit pattern.
    pub fn to_bits(self) -> (bits: u64)
        ensures
            bits == self.bits,
    {
        self.bits
    }

    /// Positive zero.
    pub fn zero() -> (number: Double)
        ensures
            number.bits == 0,
    {
        Double { bits: 0 }
    }

    /// Positive infinity.
    pub fn infinity() -> (number: Double)
        ensures
            number.bits == INFINITY_BITS,
    {
        Double { bits: INFINITY_BITS }
    }

    /// Negative infinity.
    pub fn negative_infinity() -> (number: Double)
        ensures
            number.bits == SIGN_BIT + INFINITY_BITS,
    {
        Double { bits: SIGN_BIT + INFINITY_BITS }
    }

    /// Whether the sign bit is set.
    pub fn is_negative(self) -> (r: bool)
        ensures
            r == self.negative(),
    {
        self.bits >= SIGN_BIT
    }

    /// The number without its sign.
    pub fn abs(self) -> (r: Double)
        ensures
            r == self.absolute(),
    {
        if self.bits >= SIGN_BIT {
            Double { bits: self.bits - SIGN_BIT }
        } else {
            self
        }
    }

    /// Whether this is not a number.
    pub fn is_nan(self) -> (r: bool)
        ensures
            r == self.nan(),
    {
        self.abs().bits > INFINITY_BITS
    }

    /// Whether this is one of the two infinities.
    pub fn is_infinite(self) -> (r: bool)
        ensures
            r == self.infinite(),
    {
        self.abs().bits == INFINITY_BITS
    }

    /// Whether this is neither an infinity nor NaN.
    pub fn is_finite(self) -> (r: bool)
        ensures
            r == self.finite(),
    {
        self.abs().bits < INFINITY_BITS
    }

    /// Whether `self >= other`.
    pub fn ge(self, other: Double) -> (r: bool)
        ensures
            r == self.at_least(other),
    {
        let a = self.abs().bits;
        let b = other.abs().bits;
        if a > INFINITY_BITS || b > INFINITY_BITS {
            false
        } else if self.is_negative() {
            if other.is_negative() {
                a <= b
            } else {
                a == 0 && b == 0
            }
        } else {
            other.is_negative() || a >= b
        }
    }

    /// Whether `self > other`.
    pub fn gt(self, other: Double) -> (r: bool)
        ensures
            r == self.above(other),
    {
        !self.is_nan() && !other.is_nan() && !other.ge(self)
    }

    /// The larger of two numbers; a NaN gives way to the other.
    pub fn max(self, other: Double) -> (r: Double)
        ensures
            r == self.larger(other),
    {
        if self.is_nan() || other.gt(self) {
            other
        } else {
            self
        }
    }

    /// The smaller of two numbers; a NaN gives way to the other.
    pub fn min(self, other: Double) -> (r: Double)
        ensures
            r == self.smaller(other),
    {
        if self.is_nan() || self.gt(other) {
            other
        } else {
            self
        }
    }

    /// Whether this comes before the other number, or is the same, in the total
    /// order of IEEE 754.
    pub fn total_le(self, other: Double) -> (r: bool)
        ensures
            r == (self.rank() <= other.rank()),
    {
        let a = self.abs().bits;
        let b = other.abs().bits;
        if self.is_negative() {
            !other.is_negative() || a >= b
        } else {
            !other.is_negative() && a <= b
        }
    }

    /// The number rounded down and up, as indices.
    pub fn rounded(self) -> (r: (usize, usize))
        ensures
            r.0 == self.floor(),
            r.1 == self.ceil(),
    {
        if self.is_nan() || self.is_negative() {
            return (0, 0);
        }
        let exponent: u64 = if self.bits < FRACTION_COUNT {
            1
        } else {
            self.bits / FRACTION_COUNT
        };
        let significand: u64 = if self.bits < FRACTION_COUNT {
            self.bits
        } else {
            self.bits % FRACTION_COUNT + FRACTION_COUNT
        };
        if exponent >= 1075 {
            let shift = exponent - 1075;
            if shift >= 12 {
                proof {
                    lemma2_to64();
                    lemma_pow2_adds(12, (shift - 12) as nat);
                    lemma_pow2_pos((shift - 12) as nat);
                    let power = pow2(shift as nat) as int;
                    let rest = pow2((shift - 12) as nat) as int;
                    assert(power == 0x1000 * rest);
                    assert(power >= 0x1000);
                    assert(significand * power >= 0x10_0000_0000_0000 * 0x1000)
                        by (nonlinear_arith)
                        requires
                            significand >= 0x10_0000_0000_0000,
                            power >= 0x1000,
                    ;
                }
                return (usize::MAX, usize::MAX);
            }
            let power = power_of_two(shift);
            proof {
                lemma2_to64();
                assert(power <= 0x800) by {
                    if shift < 11 {
                        lemma_pow2_strictly_increases(shift as nat, 11);
                    }
                }
                assert(significand * power <= 0x1f_ffff_ffff_ffff * 0x800) by (nonlinear_arith)
                    requires
                        significand <= 0x1f_ffff_ffff_ffff,
                        power <= 0x800,
                ;
            }
            let whole = significand * power;
            let index = if whole > usize::MAX as u64 {
                usize::MAX
            } else {
                whole as usize
            };
            return (index, index);
        }
        let shift = 1075 - exponent;
        let (whole, exact) = if shift >= 64 {
            proof {
                lemma2_to64();
                if shift > 64 {
                    lemma_pow2_strictly_increases(64, shift as nat);
                }
                let power = pow2(shift as nat) as int;
                vstd::arithmetic::div_mod::lemma_basic_div(significand as int, power);
                vstd::arithmetic::div_mod::lemma_small_mod(significand as nat, power as nat);
            }
            (0u64, significand == 0)
        } else {
            let power = power_of_two(shift);
            proof {
                lemma_pow2_pos(shift as nat);
                assert(significand as int / (power as int) <= significand) by (nonlinear_arith)
                    requires
                        power >= 1,
                ;
            }
            (significand / power, significand % power == 0)
        };
        let floor = if whole > usize::MAX as u64 {
            usize::MAX
        } else {
            whole as usize
        };
        if exact || floor == usize::MAX {
            (floor, floor)
        } else {
            (floor, floor + 1)
        }
    }
}

/// A power of two that fits in 64 bits.
fn power_of_two(exponent: u64) -> (power: u64)
    requires
        exponent < 64,
    ensures
        power == pow2(exponent as nat),
        power > 0,
{
    proof {
        vstd::bits::lemma_u64_pow2_no_overflow(exponent as nat);
        vstd::bits::lemma_u64_shl_is_mul(1, exponent);
    }
    1u64 << exponent
}

/// Law: two numbers share their place in the total order only if they are the
/// same bit for bit.
pub proof fn law_rank_identifies(a: Double, b: Double)
    requires
        a.rank() == b.rank(),
    ensures
        a == b,
{
}

/// Law: a number without its sign lies between its whole part and the next integer,
/// and equals the former exactly where it has no fraction.
pub proof fn law_whole_part_brackets(number: Double)
    requires
        number.exponent() < 1075,
    ensures
        ({
            let unit = pow2((1075 - number.exponent()) as nat) as int;
            let whole = number.whole_part();
            &&& whole * unit <= number.significand() < (whole + 1) * unit
            &&& number.has_fraction() <==> number.significand() != whole * unit
        }),
{
    let unit = pow2((1075 - number.exponent()) as nat) as int;
    lemma_pow2_pos((1075 - number.exponent()) as nat);
    vstd::arithmetic::div_mod::lemma_fundamental_div_mod(number.significand(), unit);
    vstd::arithmetic::div_mod::lemma_mod_bound(number.significand(), unit);
    let whole = number.whole_part();
    assert((whole + 1) * unit == whole * unit + unit) by (nonlinear_arith);
    assert(unit * whole == whole * unit) by (nonlinear_arith);
}

/// Law: rounded down, a number is an index that is not above the number rounded up.
pub proof fn law_floor_is_up_to_ceil(number: Double)
    ensures
        0 <= number.floor() <= number.ceil() <= usize::MAX,
{
    if number.exponent() >= 1075 {
        let power = pow2((number.exponent() - 1075) as nat) as int;
        assert(number.significand() * power >= 0) by (nonlinear_arith)
            requires
                number.significand() >= 0,
                power >= 0,
        ;
    } else {
        let power = pow2((1075 - number.exponent()) as nat) as int;
        lemma_pow2_pos((1075 - number.exponent()) as nat);
        vstd::arithmetic::div_mod::lemma_div_pos_is_pos(number.significand(), power);
    }
}

/// Law: rounded down and up to indices, a number that is not negative lies between the two,
/// which are the same exactly where it is an integer; the largest index stands for all that
/// is beyond.
pub proof fn law_rounding_brackets(number: Double)
    requires
        !number.nan(),
        !number.negative(),
    ensures
        number.exponent() < 1075 ==> ({
            let unit = pow2((1075 - number.exponent()) as nat) as int;
            let low = number.floor();
            let high = number.ceil();
            &&& low < usize::MAX ==> {
                &&& low * unit <= number.significand() < (low + 1) * unit
                &&& number.significand() <= high * unit
                &&& high * unit < number.significand() + unit
            }
            &&& low == usize::MAX ==> high == low && low * unit <= number.significand()
        }),
        number.exponent() >= 1075 ==> ({
            let value = number.significand() * pow2((number.exponent() - 1075) as nat);
            let index = if value > usize::MAX {
                usize::MAX as int
            } else {
                value
            };
            number.floor() == index && number.ceil() == index
        }),
{
    if number.exponent() < 1075 {
        let unit = pow2((1075 - number.exponent()) as nat) as int;
        lemma_pow2_pos((1075 - number.exponent()) as nat);
        law_whole_part_brackets(number);
        law_floor_is_up_to_ceil(number);
        let low = number.floor();
        let whole = number.whole_part();
        assert((low + 1) * unit == low * unit + unit) by (nonlinear_arith);
        if low == usize::MAX {
            assert(low * unit <= whole * unit) by (nonlinear_arith)
                requires
                    low <= whole,
                    unit > 0,
            ;
        }
    }
}

/// Law: numbers compare by their bit patterns: among those without a sign the larger
/// pattern is the larger number, among those with one the smaller pattern is, and those with
/// a sign are below those without, except that the two zeros are equal.
pub proof fn law_comparisons_follow_the_bits(x: Double, y: Double)
    requires
        !x.nan(),
        !y.nan(),
    ensures
        x.bits < SIGN_BIT && y.bits < SIGN_BIT ==> (x.above(y) <==> x.bits > y.bits),
        x.bits >= SIGN_BIT && y.bits >= SIGN_BIT ==> (x.above(y) <==> x.bits < y.bits),
        x.bits < SIGN_BIT && y.bits >= SIGN_BIT ==> !y.above(x) && (x.above(y) <==> x.bits != 0
            || y.bits != SIGN_BIT),
        x.at_least(y) <==> !y.above(x),
        x.larger(y) == x || x.larger(y) == y,
        x.larger(y).at_least(x) && x.larger(y).at_least(y),
        x.smaller(y) == x || x.smaller(y) == y,
        x.at_least(x.smaller(y)) && y.at_least(x.smaller(y)),
{
}

/// Law: the patterns without their sign that are below that of infinity are finite numbers,
/// and those beyond it are none; a NaN compares to nothing and gives way to any number.
pub proof fn law_kinds_follow_the_bits(x: Double, y: Double)
    ensures
        x.absolute().bits == (if x.bits >= SIGN_BIT {
            x.bits - SIGN_BIT
        } else {
            x.bits as int
        }),
        x.finite() <==> x.absolute().bits < INFINITY_BITS,
        x.infinite() <==> x.absolute().bits == INFINITY_BITS,
        x.nan() <==> x.absolute().bits > INFINITY_BITS,
        x.nan() ==> !x.above(y) && !y.above(x) && !x.at_least(y) && !y.at_least(x),
        x.nan() ==> x.larger(y) == y && x.smaller(y) == y,
        y.nan() && !x.nan() ==> x.larger(y) == x && x.smaller(y) == x,
{
}

/// Law: the total order of numbers follows their bit patterns: those with a sign come before
/// those without, the larger pattern first among the former and last among the latter.
pub proof fn law_total_order_follows_the_bits(x: Double, y: Double)
    ensures
        x.bits < SIGN_BIT && y.bits < SIGN_BIT ==> (x.rank() < y.rank() <==> x.bits < y.bits),
        x.bits >= SIGN_BIT && y.bits >= SIGN_BIT ==> (x.rank() < y.rank() <==> x.bits > y.bits),
        x.bits >= SIGN_BIT && y.bits < SIGN_BIT ==> x.rank() < y.rank(),
        !x.nan() && !y.nan() && x.level() < y.level() ==> x.rank() < y.rank(),
{
}

/// Law: a bit pattern without its sign is an exponent and a fraction. Numbers with the
/// smallest exponent have no leading digit, all others have one.
pub proof fn law_patterns_hold_exponents_and_fractions(x: Double)
    ensures
        x.magnitude() < FRACTION_COUNT ==> x.exponent() == 1 && x.significand() == x.magnitude(),
        x.magnitude() >= FRACTION_COUNT ==> {
            &&& x.exponent() >= 1
            &&& FRACTION_COUNT <= x.significand() < 2 * FRACTION_COUNT
            &&& x.magnitude() == (x.exponent() - 1) * FRACTION_COUNT + x.significand()
        },
        FRACTION_COUNT == 0x10_0000_0000_0000,
{
}

} // verus!
