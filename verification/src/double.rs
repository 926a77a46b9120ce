//! Floating-point numbers by their bit patterns.
//!
//! The decisions of this library compare measured quantities and turn them into
//! whole numbers, but never compute with them: what they need of a number
//! depends on its bit pattern alone.
use vstd::arithmetic::div_mod::{
    lemma_basic_div, lemma_div_nonincreasing, lemma_div_pos_is_pos, lemma_fundamental_div_mod,
    lemma_small_mod,
};
use vstd::arithmetic::mul::lemma_mul_is_commutative;
use vstd::arithmetic::power2::{
    lemma2_to64, lemma2_to64_rest, lemma_pow2_adds, lemma_pow2_pos, lemma_pow2_strictly_increases,
    lemma_pow2_unfold, pow2,
};
use vstd::bits::{lemma_u64_pow2_no_overflow, lemma_u64_shl_is_mul};
use vstd::prelude::*;

verus! {

/// Bit pattern of the largest number of a binary64 format: positive infinity.
pub const DOUBLE_INFINITY: u64 = 0x7FF0_0000_0000_0000;

/// The sign bit of a binary64 bit pattern.
pub const DOUBLE_SIGN: u64 = 0x8000_0000_0000_0000;

/// What one step of the exponent counts in a binary64 bit pattern.
pub const DOUBLE_STEP: u64 = 0x10_0000_0000_0000;

/// The whole number nearest to `number` in the range of an `i64`.
pub open spec fn saturated(number: int) -> int {
    if number < i64::MIN {
        i64::MIN as int
    } else if number > i64::MAX {
        i64::MAX as int
    } else {
        number
    }
}

fn signed(negative: bool, whole: u64) -> (number: i64)
    ensures
        number == saturated(
            if negative {
                -(whole as int)
            } else {
                whole as int
            },
        ),
{
    if whole > i64::MAX as u64 {
        if negative {
            i64::MIN
        } else {
            i64::MAX
        }
    } else if negative {
        -(whole as i64)
    } else {
        whole as i64
    }
}

fn power_of_two(exponent: u64) -> (power: u64)
    requires
        exponent < 64,
    ensures
        power == pow2(exponent as nat),
{
    proof {
        lemma_u64_pow2_no_overflow(exponent as nat);
        lemma_u64_shl_is_mul(1, exponent);
    }
    1u64 << exponent
}

/// A double-precision number, held as its IEEE 754 binary64 bit pattern.
#[derive(Clone, Copy, Debug, PartialEq, Eq, Structural)]
pub struct Double {
    pub bits: u64,
}

impl Double {
    /// The pattern without its sign.
    pub open spec fn magnitude(self) -> int {
        if self.bits >= DOUBLE_SIGN {
            self.bits - DOUBLE_SIGN
        } else {
            self.bits as int
        }
    }

    /// Whether the pattern stands for no number at all.
    pub open spec fn nan(self) -> bool {
        self.magnitude() > DOUBLE_INFINITY
    }

    /// The place of the number among all numbers: numbers compare as their
    /// ranks do, and both zeros have rank zero.
    pub open spec fn rank(self) -> int {
        if self.bits >= DOUBLE_SIGN {
            -self.magnitude()
        } else {
            self.magnitude()
        }
    }

    /// The IEEE 754 relation "less than"; false where either side is no number.
    pub open spec fn below(self, other: Double) -> bool {
        !self.nan() && !other.nan() && self.rank() < other.rank()
    }

    /// The IEEE 754 relation "less than or equal".
    pub open spec fn at_most(self, other: Double) -> bool {
        !self.nan() && !other.nan() && self.rank() <= other.rank()
    }

    /// The IEEE 754 relation "equal": both zeros are one number.
    pub open spec fn same(self, other: Double) -> bool {
        !self.nan() && !other.nan() && self.rank() == other.rank()
    }

    /// The number held between `low` and `high`.
    pub open spec fn clipped(self, low: Double, high: Double) -> Double {
        if self.below(low) {
            low
        } else if high.below(self) {
            high
        } else {
            self
        }
    }

    /// The digits of the number without its sign, as a whole number.
    pub open spec fn mantissa(self) -> int {
        let fraction = self.magnitude() % DOUBLE_STEP as int;
        if self.magnitude() < DOUBLE_STEP {
            fraction
        } else {
            DOUBLE_STEP + fraction
        }
    }

    /// The power of two that the mantissa counts.
    pub open spec fn exponent(self) -> int {
        if self.magnitude() < DOUBLE_STEP {
            -1074
        } else {
            self.magnitude() / DOUBLE_STEP as int - 1075
        }
    }

    /// The whole part of the number without its sign.
    pub open spec fn whole(self) -> int {
        if self.exponent() >= 0 {
            self.mantissa() * pow2(self.exponent() as nat)
        } else {
            self.mantissa() / pow2((-self.exponent()) as nat) as int
        }
    }

    /// Whether the number has digits behind the point.
    pub open spec fn fractional(self) -> bool {
        self.exponent() < 0 && self.mantissa() % pow2((-self.exponent()) as nat) as int != 0
    }

    /// The number without its digits behind the point.
    pub open spec fn truncated(self) -> int {
        if self.bits >= DOUBLE_SIGN {
            -self.whole()
        } else {
            self.whole()
        }
    }

    /// The greatest whole number that is not above the number.
    pub open spec fn floor(self) -> int {
        if self.bits >= DOUBLE_SIGN && self.fractional() {
            -self.whole() - 1
        } else {
            self.truncated()
        }
    }

    /// The least whole number that is not below the number.
    pub open spec fn ceil(self) -> int {
        if self.bits < DOUBLE_SIGN && self.fractional() {
            self.whole() + 1
        } else {
            self.truncated()
        }
    }

    /// Whether the whole number nearest to the number is the one farther from
    /// zero; of two that are equally near, it is the even one.
    pub open spec fn rounds_away(self) -> bool {
        let unit = pow2((-self.exponent()) as nat) as int;
        let digits = self.mantissa() % unit;
        self.exponent() < 0 && (2 * digits > unit || 2 * digits == unit && self.whole() % 2 == 1)
    }

    /// The whole number nearest to the number, and the even one of two.
    pub open spec fn rounded(self) -> int {
        let whole = self.whole() + if self.rounds_away() {
            1int
        } else {
            0int
        };
        if self.bits >= DOUBLE_SIGN {
            -whole
        } else {
            whole
        }
    }

    /// The floor of the number as an `i64`, held in range; zero for no number.
    pub open spec fn floor_i64(self) -> i64 {
        if self.nan() {
            0
        } else {
            saturated(self.floor()) as i64
        }
    }

    /// The ceiling of the number as an `i64`, held in range; zero for no number.
    pub open spec fn ceil_i64(self) -> i64 {
        if self.nan() {
            0
        } else {
            saturated(self.ceil()) as i64
        }
    }

    /// The number rounded to an `i64`, held in range; zero for no number.
    pub open spec fn rounded_i64(self) -> i64 {
        if self.nan() {
            0
        } else {
            saturated(self.rounded()) as i64
        }
    }

    /// The number as an `i64`: without its digits behind the point, held in
    /// range; zero for no number.
    pub open spec fn as_i64(self) -> i64 {
        if self.nan() {
            0
        } else {
            saturated(self.truncated()) as i64
        }
    }

    /// The number as a `u64`: without its digits behind the point, held in
    /// range; zero for no number.
    pub open spec fn as_u64(self) -> u64 {
        if self.nan() || self.truncated() < 0 {
            0
        } else if self.truncated() <= u64::MAX {
            self.truncated() as u64
        } else {
            u64::MAX
        }
    }

    /// The number as a `u16`: without its digits behind the point, held in
    /// range; zero for no number.
    pub open spec fn as_u16(self) -> u16 {
        if self.as_u64() <= u16::MAX {
            self.as_u64() as u16
        } else {
            u16::MAX
        }
    }

    /// The whole part without the sign, as far as it fits, whether there are
    /// digits behind the point, and whether they round it up.
    fn split(self) -> (parts: (u64, bool, bool))
        ensures
            parts.0 == if self.whole() <= u64::MAX {
                self.whole()
            } else {
                u64::MAX as int
            },
            parts.1 == self.fractional(),
            parts.2 == self.rounds_away(),
            self.whole() >= 0,
    {
        let magnitude: u64 = if self.bits >= DOUBLE_SIGN {
            self.bits - DOUBLE_SIGN
        } else {
            self.bits
        };
        let digits: u64 = magnitude % DOUBLE_STEP;
        let step: u64 = magnitude / DOUBLE_STEP;
        let mantissa: u64 = if magnitude < DOUBLE_STEP {
            digits
        } else {
            DOUBLE_STEP + digits
        };
        let exponent: i64 = if magnitude < DOUBLE_STEP {
            -1074
        } else {
            step as i64 - 1075
        };
        assert(mantissa == self.mantissa() && exponent == self.exponent());
        proof {
            lemma2_to64();
            lemma2_to64_rest();
        }
        if exponent >= 0 {
            if exponent >= 12 {
                proof {
                    if exponent > 12 {
                        lemma_pow2_strictly_increases(12, exponent as nat);
                    }
                    let power = pow2(exponent as nat) as int;
                    assert(mantissa * power > u64::MAX) by (nonlinear_arith)
                        requires
                            mantissa >= 0x10_0000_0000_0000,
                            power >= 0x1000,
                    ;
                }
                (u64::MAX, false, false)
            } else {
                let power: u64 = power_of_two(exponent as u64);
                proof {
                    if exponent < 11 {
                        lemma_pow2_strictly_increases(exponent as nat, 11);
                    }
                    assert(0 <= mantissa * power <= u64::MAX) by (nonlinear_arith)
                        requires
                            mantissa < 0x20_0000_0000_0000,
                            0 < power <= 0x800,
                    ;
                }
                (mantissa * power, false, false)
            }
        } else {
            let shift: u64 = (-exponent) as u64;
            if shift >= 64 {
                proof {
                    lemma_pow2_strictly_increases(63, shift as nat);
                    lemma_small_mod(mantissa as nat, pow2(shift as nat));
                    lemma_basic_div(mantissa as int, pow2(shift as nat) as int);
                }
                (0, mantissa != 0, false)
            } else {
                let power: u64 = power_of_two(shift);
                proof {
                    lemma_div_pos_is_pos(mantissa as int, power as int);
                    lemma_div_nonincreasing(mantissa as int, power as int);
                }
                let whole: u64 = mantissa / power;
                let digits: u64 = mantissa % power;
                // Twice the digits, against one unit.
                let away: bool = digits > power - digits || digits == power - digits && whole % 2
                    == 1;
                (whole, digits != 0, away)
            }
        }
    }

    /// The mantissa and the exponent of the number.
    pub fn parts(self) -> (parts: (u64, i64))
        ensures
            parts.0 == self.mantissa(),
            parts.1 == self.exponent(),
    {
        let magnitude: u64 = if self.bits >= DOUBLE_SIGN {
            self.bits - DOUBLE_SIGN
        } else {
            self.bits
        };
        let digits: u64 = magnitude % DOUBLE_STEP;
        if magnitude < DOUBLE_STEP {
            (digits, -1074)
        } else {
            (DOUBLE_STEP + digits, (magnitude / DOUBLE_STEP) as i64 - 1075)
        }
    }

    /// A number that is not negative rounded, where that is not too great.
    pub fn round_to_u128(self) -> (number: u128)
        requires
            self.bits < DOUBLE_SIGN,
            self.exponent() <= 40,
        ensures
            number == self.rounded(),
            number < 0x8000_0000_0000_0000_0000_0000,
    {
        let (mantissa, exponent): (u64, i64) = self.parts();
        proof {
            lemma2_to64();
            lemma2_to64_rest();
            if 0 <= exponent < 40 {
                lemma_pow2_strictly_increases(exponent as nat, 40);
            }
        }
        if exponent > 11 {
            let power: u64 = power_of_two(exponent as u64);
            proof {
                assert(0 <= mantissa * power < 0x8000_0000_0000_0000_0000_0000)
                    by (nonlinear_arith)
                    requires
                        0 <= mantissa < 0x20_0000_0000_0000,
                        0 < power <= 0x100_0000_0000,
                ;
            }
            mantissa as u128 * power as u128
        } else {
            let (whole, _, away): (u64, bool, bool) = self.split();
            proof {
                if exponent >= 0 {
                    if exponent < 11 {
                        lemma_pow2_strictly_increases(exponent as nat, 11);
                    }
                    let power = pow2(exponent as nat) as int;
                    assert(mantissa * power <= u64::MAX) by (nonlinear_arith)
                        requires
                            0 <= mantissa < 0x20_0000_0000_0000,
                            0 <= power <= 0x800,
                    ;
                } else {
                    lemma_pow2_pos((-exponent) as nat);
                    lemma_div_nonincreasing(mantissa as int, pow2((-exponent) as nat) as int);
                }
            }
            if away {
                whole as u128 + 1
            } else {
                whole as u128
            }
        }
    }

    /// `self as i64`.
    pub fn to_i64(self) -> (number: i64)
        ensures
            number == self.as_i64(),
    {
        if self.is_nan() {
            return 0;
        }
        let (whole, _, _): (u64, bool, bool) = self.split();
        signed(self.bits >= DOUBLE_SIGN, whole)
    }

    /// `self as u64`.
    pub fn to_u64(self) -> (number: u64)
        ensures
            number == self.as_u64(),
    {
        let (whole, _, _): (u64, bool, bool) = self.split();
        if self.is_nan() || self.bits >= DOUBLE_SIGN {
            0
        } else {
            whole
        }
    }

    /// `self as u16`.
    pub fn to_u16(self) -> (number: u16)
        ensures
            number == self.as_u16(),
    {
        let number: u64 = self.to_u64();
        if number <= u16::MAX as u64 {
            number as u16
        } else {
            u16::MAX
        }
    }

    /// `self.clamp(low, high)`.
    pub fn clip(self, low: Double, high: Double) -> (held: Double)
        ensures
            held == self.clipped(low, high),
    {
        if self.lt(low) {
            low
        } else if high.lt(self) {
            high
        } else {
            self
        }
    }

    /// The floor of the number, held in range; zero for no number.
    pub fn floor_to_i64(self) -> (number: i64)
        ensures
            number == self.floor_i64(),
    {
        if self.is_nan() {
            return 0;
        }
        let (whole, fractional, _): (u64, bool, bool) = self.split();
        let negative: bool = self.bits >= DOUBLE_SIGN;
        let away: u64 = if negative && fractional && whole < u64::MAX {
            whole + 1
        } else {
            whole
        };
        signed(negative, away)
    }

    /// The ceiling of the number, held in range; zero for no number.
    pub fn ceil_to_i64(self) -> (number: i64)
        ensures
            number == self.ceil_i64(),
    {
        if self.is_nan() {
            return 0;
        }
        let (whole, fractional, _): (u64, bool, bool) = self.split();
        let negative: bool = self.bits >= DOUBLE_SIGN;
        let away: u64 = if !negative && fractional && whole < u64::MAX {
            whole + 1
        } else {
            whole
        };
        signed(negative, away)
    }

    /// The number rounded, held in range; zero for no number.
    pub fn round_to_i64(self) -> (number: i64)
        ensures
            number == self.rounded_i64(),
    {
        if self.is_nan() {
            return 0;
        }
        let (whole, _, away): (u64, bool, bool) = self.split();
        let nearest: u64 = if away && whole < u64::MAX {
            whole + 1
        } else {
            whole
        };
        signed(self.bits >= DOUBLE_SIGN, nearest)
    }

    pub fn from_bits(bits: u64) -> (number: Double)
        ensures
            number.bits == bits,
    {
        Double { bits }
    }

    pub fn is_nan(self) -> (answer: bool)
        ensures
            answer == self.nan(),
    {
        let magnitude: u64 = if self.bits >= DOUBLE_SIGN {
            self.bits - DOUBLE_SIGN
        } else {
            self.bits
        };
        magnitude > DOUBLE_INFINITY
    }

    /// `self < other`.
    pub fn lt(self, other: Double) -> (answer: bool)
        ensures
            answer == self.below(other),
    {
        if self.is_nan() || other.is_nan() {
            return false;
        }
        if self.bits >= DOUBLE_SIGN {
            if other.bits >= DOUBLE_SIGN {
                self.bits > other.bits
            } else {
                self.bits > DOUBLE_SIGN || other.bits > 0
            }
        } else {
            other.bits < DOUBLE_SIGN && self.bits < other.bits
        }
    }

    /// `self <= other`.
    pub fn le(self, other: Double) -> (answer: bool)
        ensures
            answer == self.at_most(other),
    {
        !self.is_nan() && !other.is_nan() && !other.lt(self)
    }

    /// `self == other`.
    pub fn is_same(self, other: Double) -> (answer: bool)
        ensures
            answer == self.same(other),
    {
        self.le(other) && other.le(self)
    }
}

/// The first whole number that needs more digits than a double has.
pub const DOUBLE_DIGITS: u64 = 0x20_0000_0000_0000;

/// The distance of the doubles around the whole number `number`, which is not
/// negative; one where they are nearer.
pub open spec fn spacing(number: int) -> int
    decreases number,
{
    if number < DOUBLE_DIGITS {
        1
    } else {
        2 * spacing(number / 2)
    }
}

/// The multiple of `step` nearest to `number`, and the even one of two.
pub open spec fn nearest_multiple(number: int, step: int) -> int {
    let count = number / step;
    let rest = number % step;
    if 2 * rest > step || 2 * rest == step && count % 2 == 1 {
        (count + 1) * step
    } else {
        count * step
    }
}

/// The whole number that a double holds in place of `number`: the nearest one, and
/// the one with an even last digit of two.
pub open spec fn in_double(number: int) -> int {
    if number >= 0 {
        nearest_multiple(number, spacing(number))
    } else {
        -nearest_multiple(-number, spacing(-number))
    }
}

/// A double holds small whole numbers as they are.
pub proof fn law_small_numbers_are_held(number: int)
    requires
        -DOUBLE_DIGITS < number < DOUBLE_DIGITS,
    ensures
        in_double(number) == number,
{
}

/// Around `number` there is a whole number for every step of its spacing, and its last
/// digit is worth no more than its spacing.
proof fn lemma_spacing_is_small(number: int)
    requires
        number >= 0,
    ensures
        spacing(number) >= 1,
        number >= DOUBLE_DIGITS ==> 0x10_0000_0000_0000 * spacing(number) <= number,
    decreases number,
{
    if number >= DOUBLE_DIGITS {
        lemma_spacing_is_small(number / 2);
    }
}

/// A double holds a whole number with all its leading digits: it is off by no more than
/// one part in two to the power of 53. In particular, it holds small numbers as they
/// are, and the sign makes no difference.
pub proof fn law_whole_numbers_lose_little(number: int)
    ensures
        in_double(-number) == -in_double(number),
        number >= 0 ==> -number <= 0x20_0000_0000_0000 * (in_double(number) - number) <= number,
        number >= 0 ==> in_double(number) >= 0,
{
    let size = if number >= 0 {
        number
    } else {
        -number
    };
    lemma_spacing_is_small(size);
    let step = spacing(size);
    lemma_fundamental_div_mod(size, step);
    let count = size / step;
    let rest = size % step;
    assert(count * step + rest == size && (count + 1) * step + rest == size + step && count
        * step >= 0) by (nonlinear_arith)
        requires
            size == step * count + rest,
            step >= 1,
            size >= 0,
            0 <= rest < step,
    ;
    if number == 0 {
        assert(0int / 1 == 0 && 0int % 1 == 0);
    }
}

/// What a double holds in place of a whole number.
pub fn whole_in_double(whole: u64) -> (held: u128)
    ensures
        held == in_double(whole as int),
        held < 0x2_0000_0000_0000_0000,
{
    let mut step: u64 = 1;
    let mut top: u64 = whole;
    while top >= DOUBLE_DIGITS
        invariant
            1 <= step,
            step * top <= whole,
            spacing(whole as int) == step * spacing(top as int),
            step <= 0xFFF,
            top >= DOUBLE_DIGITS ==> step <= 0x7FF,
        decreases top,
    {
        proof {
            let half = top as int / 2;
            assert(2 * step * half <= step * top) by (nonlinear_arith)
                requires
                    2 * half <= top,
                    step >= 1,
            ;
            assert(step * (2 * spacing(half)) == (2 * step) * spacing(half)) by (nonlinear_arith);
            assert(half >= 0x20_0000_0000_0000 && 2 * step * half <= 0xFFFF_FFFF_FFFF_FFFF ==> 2
                * step <= 0x7FF) by (nonlinear_arith)
                requires
                    step >= 1,
                    half >= 0,
            ;
        }
        top = top / 2;
        step = 2 * step;
    }
    assert(spacing(whole as int) == step) by {
        assert(step * spacing(top as int) == step);
    }
    let count: u64 = whole / step;
    let rest: u64 = whole % step;
    let away: bool = 2 * rest > step || 2 * rest == step && count % 2 == 1;
    proof {
        lemma_fundamental_div_mod(whole as int, step as int);
        lemma_mul_is_commutative(step as int, count as int);
        assert((count + 1) * step == count * step + step) by (nonlinear_arith);
    }
    if away {
        (count as u128 + 1) * step as u128
    } else {
        count as u128 * step as u128
    }
}

/// What becomes of a whole number on its way through a double, held in range.
pub fn through_double(number: i64) -> (held: i64)
    ensures
        held == saturated(in_double(number as int)),
{
    let negative: bool = number < 0;
    let whole: u64 = if negative {
        (-(number + 1)) as u64 + 1
    } else {
        number as u64
    };
    let nearest: u128 = whole_in_double(whole);
    let held: u64 = if nearest <= u64::MAX as u128 {
        nearest as u64
    } else {
        u64::MAX
    };
    signed(negative, held)
}

/// How many of the smallest steps between numbers make up one.
pub open spec fn unit() -> int {
    pow2(1074) as int
}

impl Double {
    /// The number counted in the smallest steps between numbers. Infinity counts
    /// as the number that would follow the greatest one.
    pub open spec fn steps(self) -> int {
        let count = self.mantissa() * pow2((self.exponent() + 1074) as nat);
        if self.bits >= DOUBLE_SIGN {
            -count
        } else {
            count
        }
    }
}

/// The steps of a number without its sign.
proof fn lemma_steps(a: Double)
    ensures
        ({
            let count = a.mantissa() * pow2((a.exponent() + 1074) as nat);
            let step = a.magnitude() / DOUBLE_STEP as int;
            let digits = a.magnitude() % DOUBLE_STEP as int;
            &&& a.magnitude() == step * DOUBLE_STEP + digits
            &&& step == 0 ==> count == digits
            &&& step > 0 ==> count == (DOUBLE_STEP + digits) * pow2((step - 1) as nat)
            &&& 0 <= step
            &&& 0 <= digits < DOUBLE_STEP
            &&& count >= 0
        }),
{
    let magnitude = a.magnitude();
    let step = magnitude / DOUBLE_STEP as int;
    lemma2_to64();
    assert(step > 0 <==> magnitude >= DOUBLE_STEP);
    let mantissa = a.mantissa();
    let power = pow2((a.exponent() + 1074) as nat) as int;
    assert(mantissa * power >= 0 && (power == 1 ==> mantissa * power == mantissa))
        by (nonlinear_arith)
        requires
            mantissa >= 0,
            power >= 0,
    ;
}

/// Greater patterns without a sign stand for greater numbers.
pub proof fn lemma_steps_increase(a: Double, b: Double)
    requires
        a.magnitude() < b.magnitude(),
    ensures
        a.mantissa() * pow2((a.exponent() + 1074) as nat) < b.mantissa() * pow2(
            (b.exponent() + 1074) as nat,
        ),
{
    lemma_steps(a);
    lemma_steps(b);
    let one = DOUBLE_STEP as int;
    let from = a.magnitude() / one;
    let to = b.magnitude() / one;
    let digits = a.magnitude() % one;
    let more = b.magnitude() % one;
    assert(from <= to);
    lemma2_to64();
    if from == to {
        if to > 0 {
            let power = pow2((to - 1) as nat) as int;
            lemma_pow2_pos((to - 1) as nat);
            assert((one + digits) * power < (one + more) * power) by (nonlinear_arith)
                requires
                    digits < more,
                    power > 0,
            ;
        }
    } else {
        let power = pow2((to - 1) as nat) as int;
        lemma_pow2_pos((to - 1) as nat);
        assert((one + more) * power >= one * power) by (nonlinear_arith)
            requires
                more >= 0,
                power > 0,
        ;
        if from == 0 {
            assert(one * power >= one) by (nonlinear_arith)
                requires
                    power >= 1,
                    one > 0,
            ;
        } else {
            let less = pow2((from - 1) as nat) as int;
            lemma_pow2_pos((from - 1) as nat);
            lemma_pow2_unfold(from as nat);
            if from < to - 1 {
                lemma_pow2_strictly_increases(from as nat, (to - 1) as nat);
            }
            assert((one + digits) * less < one * power) by (nonlinear_arith)
                requires
                    digits < one,
                    less > 0,
                    2 * less <= power,
                    one > 0,
            ;
        }
    }
}

/// Comparing bit patterns is comparing numbers.
pub proof fn law_order_is_numeric(a: Double, b: Double)
    requires
        !a.nan(),
        !b.nan(),
    ensures
        a.below(b) <==> a.steps() < b.steps(),
        a.at_most(b) <==> a.steps() <= b.steps(),
        a.same(b) <==> a.steps() == b.steps(),
{
    let zero = Double { bits: 0 };
    lemma_steps(a);
    lemma_steps(b);
    lemma_steps(zero);
    assert(zero.steps() == 0);
    if a.magnitude() > 0 {
        lemma_steps_increase(zero, a);
    }
    if b.magnitude() > 0 {
        lemma_steps_increase(zero, b);
    }
    if a.magnitude() < b.magnitude() {
        lemma_steps_increase(a, b);
    } else if b.magnitude() < a.magnitude() {
        lemma_steps_increase(b, a);
    } else {
        assert(a.mantissa() == b.mantissa() && a.exponent() == b.exponent());
    }
}

/// The whole part of a number and its digits behind the point make up the number.
proof fn lemma_whole(a: Double) -> (rest: int)
    ensures
        a.mantissa() * pow2((a.exponent() + 1074) as nat) == a.whole() * unit() + rest,
        0 <= rest < unit(),
        a.fractional() <==> rest > 0,
        a.rounds_away() <==> 2 * rest > unit() || 2 * rest == unit() && a.whole() % 2 == 1,
{
    lemma_pow2_pos(1074);
    if a.exponent() >= 0 {
        let power = pow2(a.exponent() as nat) as int;
        lemma_pow2_adds(a.exponent() as nat, 1074);
        assert(a.mantissa() * (power * unit()) == a.mantissa() * power * unit())
            by (nonlinear_arith);
        0
    } else {
        let shift = -a.exponent();
        let one = pow2(shift as nat) as int;
        let power = pow2((1074 - shift) as nat) as int;
        let whole = a.whole();
        let digits = a.mantissa() % one;
        lemma_pow2_pos(shift as nat);
        lemma_pow2_pos((1074 - shift) as nat);
        lemma_pow2_adds(shift as nat, (1074 - shift) as nat);
        lemma_fundamental_div_mod(a.mantissa(), one);
        assert(a.mantissa() * power == whole * unit() + digits * power) by (nonlinear_arith)
            requires
                a.mantissa() == one * whole + digits,
                unit() == one * power,
        ;
        assert(0 <= digits * power < unit()) by (nonlinear_arith)
            requires
                0 <= digits < one,
                power > 0,
                unit() == one * power,
        ;
        assert(digits * power > 0 <==> digits > 0) by (nonlinear_arith)
            requires
                digits >= 0,
                power > 0,
        ;
        assert((2 * (digits * power) > unit() <==> 2 * digits > one) && (2 * (digits * power)
            == unit() <==> 2 * digits == one)) by (nonlinear_arith)
            requires
                power > 0,
                unit() == one * power,
        ;
        digits * power
    }
}

/// What is made of a number when it becomes a whole one: the floor is the
/// greatest whole number not above it, the ceiling the least not below it,
/// truncation the nearer one of these to zero, and rounding the nearest, which is
/// even where two are equally near.
pub proof fn law_whole_numbers_are_near(a: Double)
    ensures
        a.floor() * unit() <= a.steps() < (a.floor() + 1) * unit(),
        (a.ceil() - 1) * unit() < a.steps() <= a.ceil() * unit(),
        a.truncated() == if a.steps() >= 0 {
            a.floor()
        } else {
            a.ceil()
        },
        -unit() <= 2 * (a.rounded() * unit() - a.steps()) <= unit(),
        2 * (a.rounded() * unit() - a.steps()) == unit() || 2 * (a.steps() - a.rounded() * unit())
            == unit() ==> a.rounded() % 2 == 0,
{
    let rest = lemma_whole(a);
    lemma_steps(a);
    lemma_pow2_pos(1074);
    let whole = a.whole();
    assert((whole + 1) * unit() == whole * unit() + unit() && (-whole) * unit() == -(whole
        * unit()) && (-whole - 1) * unit() == -(whole * unit()) - unit() && (whole - 1) * unit()
        == whole * unit() - unit() && (-whole + 1) * unit() == unit() - whole * unit())
        by (nonlinear_arith);
    if a.steps() == 0 {
        assert(whole == 0) by (nonlinear_arith)
            requires
                whole * unit() + rest == 0,
                0 <= rest < unit(),
        ;
    }
}

/// Whether `a` lies between `mi` and `ma`, both included.
pub fn inrange(a: Double, mi: Double, ma: Double) -> (answer: bool)
    ensures
        answer == (mi.at_most(a) && a.at_most(ma)),
{
    mi.le(a) && a.le(ma)
}

/// Bit pattern of the largest number of a binary32 format: positive infinity.
pub const SINGLE_INFINITY: u32 = 0x7F80_0000;

/// The sign bit of a binary32 bit pattern.
pub const SINGLE_SIGN: u32 = 0x8000_0000;

/// What one step of the exponent counts in a binary32 bit pattern.
pub const SINGLE_STEP: u32 = 0x80_0000;

/// A single-precision number, held as its IEEE 754 binary32 bit pattern.
#[derive(Clone, Copy, Debug, PartialEq, Eq, Structural)]
pub struct Single {
    pub bits: u32,
}

impl Single {
    /// The pattern without its sign.
    pub open spec fn magnitude(self) -> int {
        if self.bits >= SINGLE_SIGN {
            self.bits - SINGLE_SIGN
        } else {
            self.bits as int
        }
    }

    /// Whether the pattern stands for no number at all.
    pub open spec fn nan(self) -> bool {
        self.magnitude() > SINGLE_INFINITY
    }

    /// The place of the number among all numbers: numbers compare as their
    /// ranks do, and both zeros have rank zero.
    pub open spec fn rank(self) -> int {
        if self.bits >= SINGLE_SIGN {
            -self.magnitude()
        } else {
            self.magnitude()
        }
    }

    /// The IEEE 754 relation "less than"; false where either side is no number.
    pub open spec fn below(self, other: Single) -> bool {
        !self.nan() && !other.nan() && self.rank() < other.rank()
    }

    /// The IEEE 754 relation "less than or equal".
    pub open spec fn at_most(self, other: Single) -> bool {
        !self.nan() && !other.nan() && self.rank() <= other.rank()
    }

    /// The number with the other sign.
    pub open spec fn opposite(self) -> Single {
        if self.bits >= SINGLE_SIGN {
            Single { bits: (self.bits - SINGLE_SIGN) as u32 }
        } else {
            Single { bits: (self.bits + SINGLE_SIGN) as u32 }
        }
    }

    /// The number held between `low` and `high`.
    pub open spec fn clipped(self, low: Single, high: Single) -> Single {
        if self.below(low) {
            low
        } else if high.below(self) {
            high
        } else {
            self
        }
    }

    /// The digits of the number without its sign, as a whole number.
    pub open spec fn mantissa(self) -> int {
        let fraction = self.magnitude() % SINGLE_STEP as int;
        if self.magnitude() < SINGLE_STEP {
            fraction
        } else {
            SINGLE_STEP + fraction
        }
    }

    /// The power of two that the mantissa counts.
    pub open spec fn exponent(self) -> int {
        if self.magnitude() < SINGLE_STEP {
            -149
        } else {
            self.magnitude() / SINGLE_STEP as int - 150
        }
    }

    /// The whole part of the number without its sign.
    pub open spec fn whole(self) -> int {
        if self.exponent() >= 0 {
            self.mantissa() * pow2(self.exponent() as nat)
        } else {
            self.mantissa() / pow2((-self.exponent()) as nat) as int
        }
    }

    /// The number as a `u16`: without its digits behind the point, held in
    /// range; zero for no number.
    pub open spec fn as_u16(self) -> u16 {
        if self.nan() || self.bits >= SINGLE_SIGN {
            0
        } else if self.whole() <= u16::MAX {
            self.whole() as u16
        } else {
            u16::MAX
        }
    }

    /// `self as u16`.
    pub fn to_u16(self) -> (number: u16)
        ensures
            number == self.as_u16(),
    {
        if self.is_nan() || self.bits >= SINGLE_SIGN {
            return 0;
        }
        let step: u32 = self.bits / SINGLE_STEP;
        let digits: u32 = self.bits % SINGLE_STEP;
        proof {
            lemma2_to64();
            lemma2_to64_rest();
        }
        if step < 127 {
            // Below one: every digit is behind the point.
            proof {
                let shift = -self.exponent();
                if shift > 24 {
                    lemma_pow2_strictly_increases(24, shift as nat);
                }
                lemma_basic_div(self.mantissa(), pow2(shift as nat) as int);
            }
            0
        } else if step >= 150 {
            proof {
                let exponent = self.exponent();
                let mantissa = self.mantissa();
                if exponent > 0 {
                    lemma_pow2_strictly_increases(0, exponent as nat);
                }
                let power = pow2(exponent as nat) as int;
                assert(mantissa * power > u16::MAX) by (nonlinear_arith)
                    requires
                        mantissa >= 0x80_0000,
                        power >= 1,
                ;
            }
            u16::MAX
        } else {
            let mantissa: u32 = SINGLE_STEP + digits;
            let power: u64 = power_of_two((150 - step) as u64);
            let whole: u64 = mantissa as u64 / power;
            assert(whole == self.whole());
            if whole <= u16::MAX as u64 {
                whole as u16
            } else {
                u16::MAX
            }
        }
    }

    /// `-self`.
    pub fn negate(self) -> (number: Single)
        ensures
            number == self.opposite(),
    {
        if self.bits >= SINGLE_SIGN {
            Single { bits: self.bits - SINGLE_SIGN }
        } else {
            Single { bits: self.bits + SINGLE_SIGN }
        }
    }

    /// `self.clamp(low, high)`.
    pub fn clip(self, low: Single, high: Single) -> (held: Single)
        ensures
            held == self.clipped(low, high),
    {
        if self.lt(low) {
            low
        } else if high.lt(self) {
            high
        } else {
            self
        }
    }

    pub fn from_bits(bits: u32) -> (number: Single)
        ensures
            number.bits == bits,
    {
        Single { bits }
    }

    pub fn is_nan(self) -> (answer: bool)
        ensures
            answer == self.nan(),
    {
        let magnitude: u32 = if self.bits >= SINGLE_SIGN {
            self.bits - SINGLE_SIGN
        } else {
            self.bits
        };
        magnitude > SINGLE_INFINITY
    }

    /// `self < other`.
    pub fn lt(self, other: Single) -> (answer: bool)
        ensures
            answer == self.below(other),
    {
        if self.is_nan() || other.is_nan() {
            return false;
        }
        if self.bits >= SINGLE_SIGN {
            if other.bits >= SINGLE_SIGN {
                self.bits > other.bits
            } else {
                self.bits > SINGLE_SIGN || other.bits > 0
            }
        } else {
            other.bits < SINGLE_SIGN && self.bits < other.bits
        }
    }

    /// `self <= other`.
    pub fn le(self, other: Single) -> (answer: bool)
        ensures
            answer == self.at_most(other),
    {
        !self.is_nan() && !other.is_nan() && !other.lt(self)
    }
}

/// Numbers that become integers are held in range, and what is no number becomes zero:
/// in range, truncation takes the digits behind the point off, the floor and the
/// ceiling are next to the number, and rounding is nearest to it.
pub proof fn law_integers_are_held_in_range(a: Double)
    ensures
        a.nan() ==> a.as_i64() == 0 && a.as_u64() == 0 && a.as_u16() == 0 && a.floor_i64() == 0
            && a.ceil_i64() == 0 && a.rounded_i64() == 0,
        !a.nan() ==> {
            &&& a.floor_i64() == held_between(a.floor(), i64::MIN as int, i64::MAX as int)
            &&& a.ceil_i64() == held_between(a.ceil(), i64::MIN as int, i64::MAX as int)
            &&& a.rounded_i64() == held_between(a.rounded(), i64::MIN as int, i64::MAX as int)
            &&& a.as_i64() == held_between(a.truncated(), i64::MIN as int, i64::MAX as int)
            &&& a.as_u64() == held_between(a.truncated(), 0, u64::MAX as int)
            &&& a.as_u16() == held_between(a.truncated(), 0, u16::MAX as int)
        },
{
}

/// The whole number between `low` and `high` that is nearest to `number`.
pub open spec fn held_between(number: int, low: int, high: int) -> int {
    if number <= low {
        low
    } else if number >= high {
        high
    } else {
        number
    }
}

/// A number held in a range lies in it, and stays what it is if it lay in it; no number
/// is held.
pub proof fn law_held_numbers_lie_in_range(a: Double, low: Double, high: Double)
    requires
        low.at_most(high),
    ensures
        a.nan() ==> a.clipped(low, high) == a,
        low.at_most(a) && a.at_most(high) ==> a.clipped(low, high) == a,
        a.at_most(low) ==> a.clipped(low, high).same(low),
        high.at_most(a) ==> a.clipped(low, high).same(high),
{
}

/// How many of the smallest steps between single numbers make up one.
pub open spec fn single_unit() -> int {
    pow2(149) as int
}

impl Single {
    /// The number counted in the smallest steps between single numbers.
    pub open spec fn steps(self) -> int {
        let count = self.mantissa() * pow2((self.exponent() + 149) as nat);
        if self.bits >= SINGLE_SIGN {
            -count
        } else {
            count
        }
    }
}

/// The steps of a single number without its sign.
proof fn lemma_single_steps(a: Single)
    ensures
        ({
            let count = a.mantissa() * pow2((a.exponent() + 149) as nat);
            let step = a.magnitude() / SINGLE_STEP as int;
            let digits = a.magnitude() % SINGLE_STEP as int;
            &&& a.magnitude() == step * SINGLE_STEP + digits
            &&& step == 0 ==> count == digits
            &&& step > 0 ==> count == (SINGLE_STEP + digits) * pow2((step - 1) as nat)
            &&& 0 <= step
            &&& 0 <= digits < SINGLE_STEP
            &&& count >= 0
        }),
{
    let magnitude = a.magnitude();
    let step = magnitude / SINGLE_STEP as int;
    lemma2_to64();
    assert(step > 0 <==> magnitude >= SINGLE_STEP);
    let mantissa = a.mantissa();
    let power = pow2((a.exponent() + 149) as nat) as int;
    assert(mantissa * power >= 0 && (power == 1 ==> mantissa * power == mantissa))
        by (nonlinear_arith)
        requires
            mantissa >= 0,
            power >= 0,
    ;
}

/// Greater patterns without a sign stand for greater single numbers.
proof fn lemma_single_steps_increase(a: Single, b: Single)
    requires
        a.magnitude() < b.magnitude(),
    ensures
        a.mantissa() * pow2((a.exponent() + 149) as nat) < b.mantissa() * pow2(
            (b.exponent() + 149) as nat,
        ),
{
    lemma_single_steps(a);
    lemma_single_steps(b);
    let one = SINGLE_STEP as int;
    let from = a.magnitude() / one;
    let to = b.magnitude() / one;
    let digits = a.magnitude() % one;
    let more = b.magnitude() % one;
    assert(from <= to);
    lemma2_to64();
    if from == to {
        if to > 0 {
            let power = pow2((to - 1) as nat) as int;
            lemma_pow2_pos((to - 1) as nat);
            assert((one + digits) * power < (one + more) * power) by (nonlinear_arith)
                requires
                    digits < more,
                    power > 0,
            ;
        }
    } else {
        let power = pow2((to - 1) as nat) as int;
        lemma_pow2_pos((to - 1) as nat);
        assert((one + more) * power >= one * power) by (nonlinear_arith)
            requires
                more >= 0,
                power > 0,
        ;
        if from == 0 {
            assert(one * power >= one) by (nonlinear_arith)
                requires
                    power >= 1,
                    one > 0,
            ;
        } else {
            let less = pow2((from - 1) as nat) as int;
            lemma_pow2_pos((from - 1) as nat);
            lemma_pow2_unfold(from as nat);
            if from < to - 1 {
                lemma_pow2_strictly_increases(from as nat, (to - 1) as nat);
            }
            assert((one + digits) * less < one * power) by (nonlinear_arith)
                requires
                    digits < one,
                    less > 0,
                    2 * less <= power,
                    one > 0,
            ;
        }
    }
}

/// Comparing bit patterns of single numbers is comparing numbers, and the other sign
/// makes the opposite number.
pub proof fn law_single_order_is_numeric(a: Single, b: Single)
    requires
        !a.nan(),
        !b.nan(),
    ensures
        a.below(b) <==> a.steps() < b.steps(),
        a.at_most(b) <==> a.steps() <= b.steps(),
        a.opposite().steps() == -a.steps(),
        !a.opposite().nan(),
{
    let zero = Single { bits: 0 };
    lemma_single_steps(a);
    lemma_single_steps(b);
    lemma_single_steps(zero);
    assert(zero.steps() == 0);
    if a.magnitude() > 0 {
        lemma_single_steps_increase(zero, a);
    }
    if b.magnitude() > 0 {
        lemma_single_steps_increase(zero, b);
    }
    if a.magnitude() < b.magnitude() {
        lemma_single_steps_increase(a, b);
    } else if b.magnitude() < a.magnitude() {
        lemma_single_steps_increase(b, a);
    } else {
        assert(a.mantissa() == b.mantissa() && a.exponent() == b.exponent());
    }
    assert(a.opposite().magnitude() == a.magnitude());
}

/// A single number held in a range lies in it, and stays what it is if it lay in it; no
/// number is held.
pub proof fn law_held_singles_lie_in_range(a: Single, low: Single, high: Single)
    requires
        low.at_most(high),
    ensures
        a.nan() ==> a.clipped(low, high) == a,
        low.at_most(a) && a.at_most(high) ==> a.clipped(low, high) == a,
        a.below(low) ==> a.clipped(low, high) == low,
        high.below(a) ==> a.clipped(low, high) == high,
{
}

/// A single number becomes a sixteen-bit one by losing its digits behind the point. It
/// is held in range, and what is no number becomes zero.
pub proof fn law_samples_lose_their_fraction(a: Single)
    ensures
        a.nan() ==> a.as_u16() == 0,
        !a.nan() && a.steps() <= 0 ==> a.as_u16() == 0,
        !a.nan() && a.steps() >= 65535 * single_unit() ==> a.as_u16() == 65535,
        !a.nan() && 0 <= a.steps() < 65536 * single_unit() ==> a.as_u16() * single_unit()
            <= a.steps() < (a.as_u16() + 1) * single_unit(),
{
    lemma_single_steps(a);
    lemma_pow2_pos(149);
    let one = single_unit();
    let whole = a.whole();
    let count = a.mantissa() * pow2((a.exponent() + 149) as nat);
    let rest: int;
    if a.exponent() >= 0 {
        let power = pow2(a.exponent() as nat) as int;
        lemma_pow2_adds(a.exponent() as nat, 149);
        assert(a.mantissa() * (power * one) == a.mantissa() * power * one) by (nonlinear_arith);
        rest = 0;
    } else {
        let shift = -a.exponent();
        let part = pow2(shift as nat) as int;
        let power = pow2((149 - shift) as nat) as int;
        let digits = a.mantissa() % part;
        lemma_pow2_pos(shift as nat);
        lemma_pow2_pos((149 - shift) as nat);
        lemma_pow2_adds(shift as nat, (149 - shift) as nat);
        lemma_fundamental_div_mod(a.mantissa(), part);
        assert(a.mantissa() * power == whole * one + digits * power) by (nonlinear_arith)
            requires
                a.mantissa() == part * whole + digits,
                one == part * power,
        ;
        assert(0 <= digits * power < one) by (nonlinear_arith)
            requires
                0 <= digits < part,
                power > 0,
                one == part * power,
        ;
        rest = digits * power;
    }
    assert(count == whole * one + rest && 0 <= rest < one);
    assert((whole + 1) * one == whole * one + one) by (nonlinear_arith);
    assert((whole >= 65535 <==> count >= 65535 * one) && (whole >= 65536 <==> count >= 65536
        * one) && (whole <= 0 <==> count < one) && (count >= 0 ==> whole >= 0)) by (nonlinear_arith)
        requires
            count == whole * one + rest,
            0 <= rest < one,
    ;
}

/// What is no number compares to nothing, not even to itself; every other pattern stands
/// for a number, the greatest of which is infinity.
pub proof fn law_no_number_compares_to_nothing(a: Double, b: Double)
    ensures
        a.nan() <==> 0x7FF0_0000_0000_0000 < a.bits < 0x8000_0000_0000_0000 || a.bits
            > 0xFFF0_0000_0000_0000,
        a.nan() || b.nan() ==> !a.below(b) && !a.at_most(b) && !a.same(b),
{
}

/// What is no single number compares to nothing; every other pattern stands for a
/// number.
pub proof fn law_no_single_number_compares_to_nothing(a: Single, b: Single)
    ensures
        a.nan() <==> 0x7F80_0000 < a.bits < 0x8000_0000 || a.bits > 0xFF80_0000,
        a.nan() || b.nan() ==> !a.below(b) && !a.at_most(b),
{
}

} // verus!
