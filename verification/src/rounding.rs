//! Places on the disk: ratios of whole numbers and their differences, rounded to
//! the nearest doubles.
use crate::double::{
    in_double, law_small_numbers_are_held, law_whole_numbers_are_near, lemma_steps_increase,
    spacing, unit, whole_in_double, Double, DOUBLE_DIGITS, DOUBLE_INFINITY, DOUBLE_SIGN,
    DOUBLE_STEP,
};
use vstd::arithmetic::div_mod::lemma_fundamental_div_mod;
use vstd::arithmetic::power2::{
    lemma2_to64, lemma2_to64_rest, lemma_pow2_adds, lemma_pow2_pos, lemma_pow2_strictly_increases,
    lemma_pow2_unfold, pow2,
};
use vstd::prelude::*;

verus! {

/// How far `d` is off the ratio `num / den`, both counted in the smallest steps
/// between numbers, times `den`.
pub open spec fn off_ratio(d: Double, num: int, den: int) -> int {
    if d.steps() * den >= num {
        d.steps() * den - num
    } else {
        num - d.steps() * den
    }
}

/// Whether `d` is a number that is not negative.
pub open spec fn is_size(d: Double) -> bool {
    d.bits < DOUBLE_INFINITY
}

/// Whether `d` is the double nearest to `num / den` steps; of two that are equally
/// near, it is the one with the even pattern.
pub open spec fn is_nearest(d: Double, num: int, den: int) -> bool {
    &&& is_size(d)
    &&& forall|other: Double| #[trigger]
        is_size(other) ==> off_ratio(d, num, den) <= off_ratio(other, num, den)
    &&& forall|other: Double| #[trigger]
        is_size(other) && other != d && off_ratio(other, num, den) == off_ratio(d, num, den)
            ==> d.bits % 2 == 0
}

/// The double nearest to `num / den` steps.
pub open spec fn nearest(num: int, den: int) -> Double {
    choose|d: Double| is_nearest(d, num, den)
}

/// Two sizes compare as their patterns do.
proof fn lemma_sizes_increase(a: Double, b: Double)
    requires
        is_size(a),
        is_size(b),
        a.bits < b.bits,
    ensures
        a.steps() < b.steps(),
{
    lemma_steps_increase(a, b);
}

/// There is one nearest double.
pub proof fn lemma_nearest_is_one(d: Double, num: int, den: int)
    requires
        is_nearest(d, num, den),
        den > 0,
    ensures
        nearest(num, den) == d,
{
    let e = nearest(num, den);
    assert(is_nearest(e, num, den));
    if e != d {
        assert(is_size(d) && is_size(e));
        let (low, high) = if d.bits < e.bits {
            (d, e)
        } else {
            (e, d)
        };
        // Both patterns are even, so that there is a nearer one between them.
        let mid = Double { bits: (low.bits + 1) as u64 };
        assert(is_size(mid));
        lemma_sizes_increase(low, mid);
        lemma_sizes_increase(mid, high);
        assert(low.steps() * den < mid.steps() * den && mid.steps() * den < high.steps() * den)
            by (nonlinear_arith)
            requires
                low.steps() < mid.steps() < high.steps(),
                den > 0,
        ;
    }
}

/// The nearer of two neighbours between which a ratio lies is the nearest double.
pub proof fn lemma_nearer_neighbour(low: Double, high: Double, d: Double, num: int, den: int)
    requires
        is_size(low),
        is_size(high),
        high.bits == low.bits + 1,
        den > 0,
        low.steps() * den <= num <= high.steps() * den,
        d == low || d == high,
        off_ratio(low, num, den) < off_ratio(high, num, den) ==> d == low,
        off_ratio(high, num, den) < off_ratio(low, num, den) ==> d == high,
        off_ratio(high, num, den) == off_ratio(low, num, den) ==> d.bits % 2 == 0,
    ensures
        is_nearest(d, num, den),
{
    assert forall|other: Double| #[trigger] is_size(other) implies off_ratio(d, num, den)
        <= off_ratio(other, num, den) && (other != d && off_ratio(other, num, den) == off_ratio(
        d,
        num,
        den,
    ) ==> d.bits % 2 == 0) by {
        if other.bits < low.bits {
            lemma_sizes_increase(other, low);
            assert(other.steps() * den < low.steps() * den) by (nonlinear_arith)
                requires
                    other.steps() < low.steps(),
                    den > 0,
            ;
        } else if other.bits > high.bits {
            lemma_sizes_increase(high, other);
            assert(other.steps() * den > high.steps() * den) by (nonlinear_arith)
                requires
                    other.steps() > high.steps(),
                    den > 0,
            ;
        } else if other.bits == low.bits {
            assert(other == low);
        } else {
            assert(other == high);
        }
    }
}

/// Equal ratios have one nearest double.
proof fn lemma_equal_ratios(d: Double, num: int, den: int, more: int, over: int)
    requires
        is_nearest(d, more, over),
        den > 0,
        over > 0,
        num * over == more * den,
    ensures
        is_nearest(d, num, den),
{
    assert forall|other: Double| off_ratio(other, num, den) * over == #[trigger] off_ratio(
        other,
        more,
        over,
    ) * den by {
        let steps = other.steps();
        assert((steps * den - num) * over == (steps * over - more) * den && (num - steps * den)
            * over == (more - steps * over) * den) by (nonlinear_arith)
            requires
                num * over == more * den,
        ;
        assert(steps * den >= num <==> steps * over >= more) by (nonlinear_arith)
            requires
                (steps * den - num) * over == (steps * over - more) * den,
                den > 0,
                over > 0,
        ;
    }
    assert forall|other: Double| #[trigger] is_size(other) implies off_ratio(d, num, den)
        <= off_ratio(other, num, den) && (other != d && off_ratio(other, num, den) == off_ratio(
        d,
        num,
        den,
    ) ==> d.bits % 2 == 0) by {
        let here = off_ratio(d, num, den);
        let there = off_ratio(other, num, den);
        assert(here * over == off_ratio(d, more, over) * den);
        assert(there * over == off_ratio(other, more, over) * den);
        let near = off_ratio(d, more, over);
        let far = off_ratio(other, more, over);
        assert(here <= there && (here == there ==> near == far)) by (nonlinear_arith)
            requires
                here * over == near * den,
                there * over == far * den,
                near <= far,
                den > 0,
                over > 0,
        ;
    }
}

/// The double with a given mantissa of all digits and a given exponent.
proof fn lemma_of_parts(mantissa: int, exponent: int, d: Double)
    requires
        DOUBLE_STEP <= mantissa <= 2 * DOUBLE_STEP,
        -1074 <= exponent < 900,
        d.bits == (exponent + 1075) * DOUBLE_STEP + (mantissa - DOUBLE_STEP),
    ensures
        is_size(d),
        d.steps() == mantissa * pow2((exponent + 1074) as nat),
        mantissa < 2 * DOUBLE_STEP ==> d.mantissa() == mantissa && d.exponent() == exponent,
        mantissa == 2 * DOUBLE_STEP ==> d.mantissa() == DOUBLE_STEP && d.exponent() == exponent
            + 1,
{
    if mantissa < 2 * DOUBLE_STEP {
        assert(d.magnitude() / DOUBLE_STEP as int == exponent + 1075);
        assert(d.magnitude() % DOUBLE_STEP as int == mantissa - DOUBLE_STEP);
    } else {
        assert(d.magnitude() / DOUBLE_STEP as int == exponent + 1076);
        assert(d.magnitude() % DOUBLE_STEP as int == 0);
        lemma_pow2_unfold((exponent + 1075) as nat);
        let power = pow2((exponent + 1074) as nat) as int;
        assert(DOUBLE_STEP * (2 * power) == (2 * DOUBLE_STEP) * power) by (nonlinear_arith);
    }
}

/// `num` over `den` brought to a quotient of all digits: the two, one of them doubled
/// so often, and how often each was.
fn normalized(num: u128, den: u128) -> (scaled: (u128, u128, i64, i64))
    requires
        0 < num < 0x4000_0000_0000_0000_0000_0000_0000,
        0 < den < 0x2_0000_0000_0000_0000,
    ensures
        0 <= scaled.2 < 118,
        0 <= scaled.3 < 58,
        num < 0x2_0000_0000_0000_0000 ==> scaled.3 < 13,
        scaled.0 == num * pow2(scaled.2 as nat),
        scaled.1 == den * pow2(scaled.3 as nat),
        0x10_0000_0000_0000 * scaled.1 <= scaled.0 < 0x20_0000_0000_0000 * scaled.1,
        scaled.1 > 0,
        scaled.1 < 0x2_0000_0000_0000_0000,
{
    proof {
        lemma2_to64();
        lemma2_to64_rest();
        lemma_pow2_adds(64, 54);
        assert(num * 1 == num && den * 1 == den);
    }
    if num < 0x10_0000_0000_0000 * den {
        let mut n: u128 = num;
        let mut a: i64 = 0;
        while n < 0x10_0000_0000_0000 * den
            invariant
                num >= 1,
                0 < den < 0x2_0000_0000_0000_0000,
                0 <= a < 118,
                n == num * pow2(a as nat),
                n < 0x20_0000_0000_0000 * den,
                pow2(118) == 0x40_0000_0000_0000_0000_0000_0000_0000,
            decreases 118 - a,
        {
            proof {
                lemma_pow2_unfold((a + 1) as nat);
                let power = pow2(a as nat) as int;
                assert(num * (2 * power) == 2 * (num * power)) by (nonlinear_arith);
                assert(num * (2 * power) >= 2 * power) by (nonlinear_arith)
                    requires
                        num >= 1,
                        power >= 0,
                ;
                if a + 1 >= 118 {
                    assert(a + 1 == 118);
                }
            }
            n = 2 * n;
            a = a + 1;
        }
        (n, den, a, 0)
    } else {
        let mut d: u128 = den;
        let mut b: i64 = 0;
        while num >= 0x20_0000_0000_0000 * d
            invariant
                0 < num < 0x4000_0000_0000_0000_0000_0000_0000,
                0 < d < 0x2_0000_0000_0000_0000,
                den >= 1,
                0 <= b < 58,
                num < 0x2_0000_0000_0000_0000 ==> b < 13,
                d == den * pow2(b as nat),
                num >= 0x10_0000_0000_0000 * d,
                pow2(58) == 0x400_0000_0000_0000,
                pow2(13) == 0x2000,
            decreases num - d,
        {
            proof {
                lemma_pow2_unfold((b + 1) as nat);
                let power = pow2(b as nat) as int;
                assert(den * (2 * power) == 2 * (den * power)) by (nonlinear_arith);
                assert(den * (2 * power) >= 2 * power) by (nonlinear_arith)
                    requires
                        den >= 1,
                        power >= 0,
                ;
            }
            d = 2 * d;
            b = b + 1;
        }
        (num, d, 0, b)
    }
}

/// The double nearest to `num / den` times the power of two `exp`.
fn nearest_double(num: u128, den: u128, exp: i64) -> (d: Double)
    requires
        0 < num < 0x4000_0000_0000_0000_0000_0000_0000,
        0 < den < 0x2_0000_0000_0000_0000,
        -130 <= exp <= 60,
    ensures
        d == nearest(num * pow2((exp + 1074) as nat), den as int),
        is_size(d),
        DOUBLE_STEP <= d.mantissa() < 2 * DOUBLE_STEP,
        exp - 118 <= d.exponent() <= exp + 58,
        num < 0x2_0000_0000_0000_0000 ==> d.exponent() <= exp + 13,
        d.steps() == d.mantissa() * pow2((d.exponent() + 1074) as nat),
{
    let (n, over, a, b): (u128, u128, i64, i64) = normalized(num, den);
    let count: u128 = n / over;
    let rest: u128 = n % over;
    proof {
        lemma_fundamental_div_mod(n as int, over as int);
        assert(0x10_0000_0000_0000 <= count < 0x20_0000_0000_0000) by (nonlinear_arith)
            requires
                n == over * count + rest,
                0 <= rest < over,
                0x10_0000_0000_0000 * over <= n < 0x20_0000_0000_0000 * over,
        ;
    }
    let exponent: i64 = exp + b - a;
    let step: u64 = (exponent + 1075) as u64;
    let below: u64 = step * DOUBLE_STEP + (count as u64 - DOUBLE_STEP);
    let away: bool = rest > over - rest || rest == over - rest && count % 2 == 1;
    let d = Double {
        bits: if away {
            below + 1
        } else {
            below
        },
    };
    proof {
        let low = Double { bits: below };
        let high = Double { bits: (below + 1) as u64 };
        lemma_of_parts(count as int, exponent as int, low);
        lemma_of_parts(count + 1, exponent as int, high);
        let power = pow2((exponent + 1074) as nat) as int;
        lemma_pow2_pos((exponent + 1074) as nat);
        let target = n * power;
        assert(count * power * over + rest * power == target && (count + 1) * power * over
            == target + (over - rest) * power) by (nonlinear_arith)
            requires
                n == over * count + rest,
                target == n * power,
        ;
        assert(rest * power >= 0 && (over - rest) * power > 0 && (rest > over - rest <==> rest
            * power > (over - rest) * power) && (rest == over - rest <==> rest * power == (over
            - rest) * power)) by (nonlinear_arith)
            requires
                0 <= rest < over,
                power > 0,
        ;
        assert(off_ratio(low, target, over as int) == rest * power);
        assert(off_ratio(high, target, over as int) == (over - rest) * power);
        lemma_nearer_neighbour(low, high, d, target, over as int);
        let wanted = num * pow2((exp + 1074) as nat);
        assert(wanted * over == target * den) by {
            let base = pow2((exp + 1074) as nat) as int;
            let up = pow2(a as nat) as int;
            let down = pow2(b as nat) as int;
            lemma_pow2_adds((exp + 1074) as nat, b as nat);
            lemma_pow2_adds(a as nat, (exponent + 1074) as nat);
            assert((exp + 1074) as nat + b as nat == a as nat + (exponent + 1074) as nat);
            assert((num * base) * (den * down) == ((num * up) * power) * den) by (nonlinear_arith)
                requires
                    base * down == up * power,
            ;
        }
        lemma_equal_ratios(d, wanted, den as int, target, over as int);
        lemma_nearest_is_one(d, wanted, den as int);
    }
    d
}

/// A ratio as a double, rounded to tenths.
pub open spec fn tenths(num: int, den: int) -> Double {
    let quotient = nearest(num * unit(), den);
    let tenfold = nearest(10 * quotient.steps(), 1);
    nearest(tenfold.rounded() * unit(), 10)
}

/// Nothing is nearest to zero but zero, and it rounds to zero.
proof fn lemma_zero_is_nearest(den: int)
    requires
        den > 0,
    ensures
        nearest(0, den) == (Double { bits: 0 }),
        (Double { bits: 0 }).steps() == 0,
        (Double { bits: 0 }).rounded() == 0,
{
    let zero = Double { bits: 0 };
    lemma_pow2_pos(1074);
    lemma_pow2_pos(0);
    let unit = pow2(1074) as int;
    assert(zero.mantissa() == 0 && zero.exponent() == -1074);
    assert(zero.steps() == 0) by {
        assert(0 * pow2(0) == 0);
    }
    assert(0int / unit == 0 && 0int % unit == 0) by (nonlinear_arith)
        requires
            unit > 0,
    ;
    assert(zero.steps() * den == 0) by (nonlinear_arith)
        requires
            zero.steps() == 0,
    ;
    assert forall|other: Double| #[trigger] is_size(other) && other != zero implies off_ratio(
        other,
        0,
        den,
    ) > 0 by {
        lemma_sizes_increase(zero, other);
        assert(other.steps() * den > 0) by (nonlinear_arith)
            requires
                other.steps() > 0,
                den > 0,
        ;
    }
    assert(is_nearest(zero, 0, den));
    lemma_nearest_is_one(zero, 0, den);
}

/// Whether `d` is zero or a size of all digits that is neither very small nor very
/// great.
spec fn is_place(d: Double) -> bool {
    d.bits == 0 || {
        &&& is_size(d)
        &&& DOUBLE_STEP <= d.mantissa() < 2 * DOUBLE_STEP
        &&& -118 <= d.exponent() <= 58
    }
}

fn round_to_tenths(num: u128, den: u128) -> (rounded: Double)
    requires
        num < 0x2_0000_0000_0000_0000,
        0 < den < 0x2_0000_0000_0000_0000,
    ensures
        rounded == tenths(num as int, den as int),
        is_place(rounded),
{
    proof {
        lemma_zero_is_nearest(den as int);
        lemma_zero_is_nearest(1);
        lemma_zero_is_nearest(10);
        assert(0 * unit() == 0);
    }
    if num == 0 {
        return Double { bits: 0 };
    }
    let quotient: Double = nearest_double(num, den, 0);
    let (mantissa, exponent): (u64, i64) = quotient.parts();
    let tenfold: Double = nearest_double(10 * mantissa as u128, 1, exponent);
    proof {
        let power = pow2((exponent + 1074) as nat) as int;
        assert((10 * mantissa) * power == 10 * (mantissa * power)) by (nonlinear_arith);
    }
    let whole: u128 = tenfold.round_to_u128();
    if whole == 0 {
        return Double { bits: 0 };
    }
    nearest_double(whole, 10, 0)
}

/// Bit pattern of no number.
pub const NO_NUMBER: u64 = 0x7FF8_0000_0000_0000;

/// `d` with the sign of a negative number.
pub open spec fn negative(d: Double) -> Double {
    Double { bits: (d.bits + DOUBLE_SIGN) as u64 }
}

/// Where the sample `file_loc` lies, in fields of `field_len` samples, rounded to
/// tenths. Fields without samples put it infinitely far off, or nowhere.
pub open spec fn disk_location(file_loc: i64, field_len: usize) -> Double {
    let sample = in_double(file_loc as int);
    let len = in_double(field_len as int);
    if len == 0 && sample == 0 {
        Double { bits: NO_NUMBER }
    } else if len == 0 {
        if sample < 0 {
            negative(Double { bits: DOUBLE_INFINITY })
        } else {
            Double { bits: DOUBLE_INFINITY }
        }
    } else if sample < 0 {
        negative(tenths(-sample, len))
    } else {
        tenths(sample, len)
    }
}

/// The double nearest to a double is that double.
proof fn lemma_exact_is_nearest(d: Double)
    requires
        is_size(d),
    ensures
        nearest(d.steps(), 1) == d,
{
    assert forall|other: Double| #[trigger] is_size(other) && other != d implies off_ratio(
        other,
        d.steps(),
        1,
    ) > 0 by {
        if other.bits < d.bits {
            lemma_sizes_increase(other, d);
        } else {
            lemma_sizes_increase(d, other);
        }
    }
    assert(is_nearest(d, d.steps(), 1));
    lemma_nearest_is_one(d, d.steps(), 1);
}

/// A place is no part of the places far above it: it takes nothing off them, and
/// adds nothing to them.
proof fn lemma_far_places(great: Double, small: Double)
    requires
        is_place(great),
        is_place(small),
        great.bits != 0,
        small.bits != 0,
        great.exponent() - small.exponent() >= 57,
    ensures
        nearest(great.steps() - small.steps(), 1) == great,
        nearest(great.steps() + small.steps(), 1) == great,
        great.steps() > small.steps() > 0,
{
    let gap = great.exponent() - small.exponent();
    let power = pow2((small.exponent() + 1074) as nat) as int;
    let step = pow2((great.exponent() + 1074) as nat) as int;
    lemma_pow2_pos((small.exponent() + 1074) as nat);
    lemma_pow2_pos((gap - 57) as nat);
    lemma_pow2_adds(57, (gap - 57) as nat);
    lemma_pow2_adds(gap as nat, (small.exponent() + 1074) as nat);
    lemma2_to64();
    lemma2_to64_rest();
    let off = small.mantissa() * power;
    assert(small.steps() == off);
    assert(pow2(gap as nat) >= 0x200_0000_0000_0000) by {
        let rest = pow2((gap - 57) as nat) as int;
        assert(0x200_0000_0000_0000 * rest >= 0x200_0000_0000_0000) by (nonlinear_arith)
            requires
                rest >= 1,
        ;
    }
    assert(0 < 16 * off <= step) by (nonlinear_arith)
        requires
            off == small.mantissa() * power,
            0 < small.mantissa() < 0x20_0000_0000_0000,
            power > 0,
            step == pow2(gap as nat) * power,
            pow2(gap as nat) >= 0x200_0000_0000_0000,
    ;
    let mantissa = great.mantissa();
    let exponent = great.exponent();
    let above = Double { bits: (great.bits + 1) as u64 };
    let below = Double { bits: (great.bits - 1) as u64 };
    lemma_of_parts(mantissa, exponent, great);
    lemma_of_parts(mantissa + 1, exponent, above);
    assert((mantissa + 1) * step == mantissa * step + step && (mantissa - 1) * step == mantissa
        * step - step && mantissa * step >= step) by (nonlinear_arith)
        requires
            mantissa >= 1,
            step > 0,
    ;
    if mantissa > DOUBLE_STEP {
        lemma_of_parts(mantissa - 1, exponent, below);
    } else {
        lemma_of_parts(0x1F_FFFF_FFFF_FFFF, exponent - 1, below);
        lemma_pow2_unfold((exponent + 1074) as nat);
        let half = pow2((exponent + 1073) as nat) as int;
        assert(0x1F_FFFF_FFFF_FFFF * half == 0x10_0000_0000_0000 * (2 * half) - half)
            by (nonlinear_arith);
    }
    lemma_nearer_neighbour(great, above, great, great.steps() + off, 1);
    lemma_nearer_neighbour(below, great, great, great.steps() - off, 1);
    lemma_nearest_is_one(great, great.steps() + off, 1);
    lemma_nearest_is_one(great, great.steps() - off, 1);
}

/// A mantissa doubled `times` times.
fn doubled(mantissa: u64, times: i64) -> (more: u128)
    requires
        mantissa < 0x20_0000_0000_0000,
        0 <= times <= 56,
    ensures
        more == mantissa * pow2(times as nat),
        more < 0x2000_0000_0000_0000_0000_0000_0000,
{
    let mut more: u128 = mantissa as u128;
    let mut i: i64 = 0;
    proof {
        lemma2_to64();
        lemma2_to64_rest();
        assert(mantissa * 1 == mantissa);
    }
    while i < times
        invariant
            0 <= i <= times <= 56,
            mantissa < 0x20_0000_0000_0000,
            more == mantissa * pow2(i as nat),
            more < 0x2000_0000_0000_0000_0000_0000_0000,
            pow2(56) == 0x100_0000_0000_0000,
        decreases times - i,
    {
        proof {
            lemma_pow2_unfold((i + 1) as nat);
            let power = pow2(i as nat) as int;
            if i + 1 < 56 {
                lemma_pow2_strictly_increases((i + 1) as nat, 56);
            }
            assert(mantissa * (2 * power) == 2 * (mantissa * power)) by (nonlinear_arith);
            assert(mantissa * (2 * power) < 0x2000_0000_0000_0000_0000_0000_0000)
                by (nonlinear_arith)
                requires
                    0 <= mantissa < 0x20_0000_0000_0000,
                    0 <= 2 * power <= 0x100_0000_0000_0000,
            ;
        }
        more = 2 * more;
        i = i + 1;
    }
    more
}

/// The sum of two places, or the difference where `less` says so.
fn combined(great: Double, small: Double, less: bool) -> (d: Double)
    requires
        is_place(great),
        is_place(small),
        great.bits > small.bits || great.bits == small.bits && !less && great.bits != 0,
    ensures
        less ==> d == nearest(great.steps() - small.steps(), 1),
        !less ==> d == nearest(great.steps() + small.steps(), 1),
        is_size(d),
        less ==> great.steps() > small.steps(),
        small.steps() >= 0,
{
    if small.bits == 0 {
        proof {
            lemma_zero_is_nearest(1);
            lemma_exact_is_nearest(great);
            lemma_sizes_increase(small, great);
        }
        return great;
    }
    let (top, above): (u64, i64) = great.parts();
    let (rest, exponent): (u64, i64) = small.parts();
    let gap: i64 = above - exponent;
    if gap >= 57 {
        proof {
            lemma_far_places(great, small);
        }
        return great;
    }
    let more: u128 = doubled(top, gap);
    proof {
        let power = pow2((exponent + 1074) as nat) as int;
        let times = pow2(gap as nat) as int;
        lemma_pow2_pos((exponent + 1074) as nat);
        lemma_pow2_adds(gap as nat, (exponent + 1074) as nat);
        assert((gap + (exponent + 1074)) as nat == (above + 1074) as nat);
        assert(top * (times * power) == (top * times) * power) by (nonlinear_arith);
        assert(great.steps() == more * power);
        assert(small.steps() == rest * power);
        if great.bits > small.bits {
            lemma_sizes_increase(small, great);
            assert(more > rest) by (nonlinear_arith)
                requires
                    more * power > rest * power,
                    power > 0,
            ;
        }
        assert((more - rest) * power == more * power - rest * power && (more + rest) * power
            == more * power + rest * power && rest * power >= 0) by (nonlinear_arith)
            requires
                power > 0,
                rest >= 0,
        ;
    }
    let num: u128 = if less {
        more - rest as u128
    } else {
        more + rest as u128
    };
    nearest_double(num, 1, exponent)
}

/// Finds where a sample lies, in fields of some samples: whether it lies before the
/// start, and how far off it.
fn place_of(file_loc: i64, field_len: usize) -> (place: (bool, Double))
    requires
        field_len > 0,
    ensures
        is_place(place.1),
        disk_location(file_loc, field_len) == signed(place.0, place.1),
{
    let before: bool = file_loc < 0;
    let magnitude: u64 = if before {
        (-(file_loc + 1)) as u64 + 1
    } else {
        file_loc as u64
    };
    let sample: u128 = whole_in_double(magnitude);
    let len: u128 = whole_in_double(field_len as u64);
    proof {
        lemma_zero_is_held(magnitude as int);
        lemma_zero_is_held(field_len as int);
    }
    (before, round_to_tenths(sample, len))
}

/// A size with a sign.
spec fn signed(minus: bool, d: Double) -> Double {
    if minus {
        negative(d)
    } else {
        d
    }
}

fn with_sign(minus: bool, d: Double) -> (number: Double)
    requires
        is_size(d),
    ensures
        number == signed(minus, d),
{
    if minus {
        Double { bits: d.bits + DOUBLE_SIGN }
    } else {
        d
    }
}

/// Finds where a sample lies, in fields.
pub fn locate_on_disk(file_loc: i64, field_len: usize) -> (place: Double)
    ensures
        place == disk_location(file_loc, field_len),
{
    if field_len == 0 {
        proof {
            lemma_zero_is_held(0);
            lemma_zero_is_held(
                if file_loc < 0 {
                    -file_loc
                } else {
                    file_loc as int
                },
            );
        }
        return Double {
            bits: if file_loc == 0 {
                NO_NUMBER
            } else if file_loc < 0 {
                DOUBLE_SIGN + DOUBLE_INFINITY
            } else {
                DOUBLE_INFINITY
            },
        };
    }
    let (before, size): (bool, Double) = place_of(file_loc, field_len);
    with_sign(before, size)
}

/// `a - b`, where that is no greater than every double.
pub open spec fn difference(a: Double, b: Double) -> Double {
    if a.nan() || b.nan() || a.magnitude() == DOUBLE_INFINITY && a == b {
        Double { bits: NO_NUMBER }
    } else if a.magnitude() == DOUBLE_INFINITY {
        a
    } else if b.magnitude() == DOUBLE_INFINITY {
        if b.bits == DOUBLE_INFINITY {
            negative(b)
        } else {
            Double { bits: DOUBLE_INFINITY }
        }
    } else {
        let steps = a.steps() - b.steps();
        if steps > 0 {
            nearest(steps, 1)
        } else if steps < 0 {
            negative(nearest(-steps, 1))
        } else if a.bits == DOUBLE_SIGN && b.bits == 0 {
            a
        } else {
            Double { bits: 0 }
        }
    }
}

/// How far the sample `file_loc` lies behind the sample `previous`, in fields of
/// `field_len` samples.
pub open spec fn disk_distance(file_loc: i64, previous: i64, field_len: usize) -> Double {
    difference(disk_location(file_loc, field_len), disk_location(previous, field_len))
}

/// The sign counts the steps of a place down.
proof fn lemma_signed_place(minus: bool, d: Double)
    requires
        is_place(d),
    ensures
        signed(minus, d).steps() == if minus {
            -d.steps()
        } else {
            d.steps()
        },
        d.steps() >= 0,
        d.steps() == 0 <==> d.bits == 0,
        !signed(minus, d).nan(),
        signed(minus, d).magnitude() < DOUBLE_INFINITY,
{
    lemma_zero_is_nearest(1);
    let zero = Double { bits: 0 };
    if d.bits > 0 {
        lemma_sizes_increase(zero, d);
    }
    assert(signed(minus, d).magnitude() == d.magnitude());
}

/// Finds how far a sample lies behind another, in fields.
pub fn distance_on_disk(file_loc: i64, previous: i64, field_len: usize) -> (distance: Double)
    ensures
        distance == disk_distance(file_loc, previous, field_len),
{
    if field_len == 0 {
        let a: Double = locate_on_disk(file_loc, field_len);
        let b: Double = locate_on_disk(previous, field_len);
        proof {
            lemma_zero_is_held(0);
        }
        return if a.is_nan() || b.is_nan() || a.bits == b.bits {
            Double { bits: NO_NUMBER }
        } else {
            a
        };
    }
    let (before, size): (bool, Double) = place_of(file_loc, field_len);
    let (also_before, other): (bool, Double) = place_of(previous, field_len);
    proof {
        lemma_signed_place(before, size);
        lemma_signed_place(also_before, other);
        if size.bits > other.bits {
            lemma_sizes_increase(other, size);
        } else if size.bits < other.bits {
            lemma_sizes_increase(size, other);
        }
    }
    if before == also_before {
        if size.bits == other.bits {
            Double { bits: 0 }
        } else if size.bits > other.bits {
            with_sign(before, combined(size, other, true))
        } else {
            with_sign(!before, combined(other, size, true))
        }
    } else if size.bits == 0 && other.bits == 0 {
        with_sign(before, size)
    } else if size.bits > other.bits {
        with_sign(before, combined(size, other, false))
    } else {
        with_sign(before, combined(other, size, false))
    }
}

/// Only zero becomes zero in a double.
proof fn lemma_zero_is_held(number: int)
    requires
        number >= 0,
    ensures
        in_double(number) >= 0,
        in_double(number) == 0 <==> number == 0,
{
    lemma_spacing(number);
    let step = spacing(number);
    let count = number / step;
    lemma_fundamental_div_mod(number, step);
    assert(count >= 0 && count * step >= 0 && (count + 1) * step > 0 && (number > 0 ==> count * step
        > 0)) by (nonlinear_arith)
        requires
            number == step * count + number % step,
            0 <= number % step < step,
            step <= number || step == 1,
            step >= 1,
            number >= 0,
    ;
}

/// The distance of doubles around a number is not above it.
proof fn lemma_spacing(number: int)
    requires
        number >= 0,
    ensures
        spacing(number) >= 1,
        spacing(number) == 1 || spacing(number) <= number,
    decreases number,
{
    if number >= DOUBLE_DIGITS {
        lemma_spacing(number / 2);
    }
}

/// The double that follows another.
spec fn following(d: Double) -> Double {
    Double { bits: (d.bits + 1) as u64 }
}

/// Every ratio lies at or behind some size, and before the one that follows it, if one
/// does.
proof fn lemma_between(num: int, den: int, bits: u64) -> (low: Double)
    requires
        num >= 0,
        den > 0,
        bits < DOUBLE_INFINITY,
        bits == DOUBLE_INFINITY - 1 || following(Double { bits }).steps() * den > num,
    ensures
        is_size(low),
        low.steps() * den <= num,
        low.bits == DOUBLE_INFINITY - 1 || following(low).steps() * den > num,
    decreases bits,
{
    let here = Double { bits };
    if here.steps() * den <= num {
        here
    } else {
        if bits == 0 {
            lemma_zero_is_nearest(1);
            assert(0 * den == 0);
        }
        let below = Double { bits: (bits - 1) as u64 };
        assert(following(below) == here);
        lemma_between(num, den, below.bits)
    }
}

/// The nearest double is what it is called: a size that is off by no more than any other,
/// and has the even pattern where another is off by as much.
pub proof fn law_nearest_is_nearest(num: int, den: int)
    requires
        num >= 0,
        den > 0,
    ensures
        is_nearest(nearest(num, den), num, den),
{
    let low = lemma_between(num, den, (DOUBLE_INFINITY - 1) as u64);
    if low.bits == DOUBLE_INFINITY - 1 {
        assert forall|other: Double| #[trigger] is_size(other) && other != low implies off_ratio(
            low,
            num,
            den,
        ) < off_ratio(other, num, den) by {
            lemma_sizes_increase(other, low);
            assert(other.steps() * den < low.steps() * den) by (nonlinear_arith)
                requires
                    other.steps() < low.steps(),
                    den > 0,
            ;
        }
        assert(is_nearest(low, num, den));
    } else {
        let high = following(low);
        let to_low = off_ratio(low, num, den);
        let to_high = off_ratio(high, num, den);
        let d = if to_low < to_high || to_low == to_high && low.bits % 2 == 0 {
            low
        } else {
            high
        };
        lemma_nearer_neighbour(low, high, d, num, den);
    }
}

/// The nearest double is off by no more than one part in two to the power of 53, for
/// ratios that are neither very small nor very great.
proof fn lemma_nearest_is_close(num: int, den: int)
    requires
        den > 0,
        0x10_0000_0000_0000 * den <= num,
        num < pow2(1900) * den,
    ensures
        ({
            let d = nearest(num, den);
            &&& is_size(d)
            &&& 0x20_0000_0000_0000 * off_ratio(d, num, den) <= num
            &&& d.steps() >= 0
        }),
{
    law_nearest_is_nearest(num, den);
    let d = nearest(num, den);
    let low = lemma_between(num, den, (DOUBLE_INFINITY - 1) as u64);
    lemma_steps_increase_or_equal(Double { bits: 0 }, d);
    lemma_zero_is_nearest(1);
    let normal = Double { bits: DOUBLE_STEP };
    lemma2_to64();
    assert(normal.mantissa() == 0x10_0000_0000_0000 && normal.exponent() == -1074);
    assert(normal.steps() == 0x10_0000_0000_0000 * pow2(0));
    assert(low.bits >= DOUBLE_STEP) by {
        if low.bits < DOUBLE_STEP {
            let high = following(low);
            lemma_steps_increase_or_equal(high, normal);
            assert(high.steps() * den <= 0x10_0000_0000_0000 * den) by (nonlinear_arith)
                requires
                    high.steps() <= 0x10_0000_0000_0000,
                    den > 0,
            ;
        }
    }
    let mantissa = low.mantissa();
    let exponent = low.exponent();
    let power = pow2((exponent + 1074) as nat) as int;
    lemma_pow2_pos((exponent + 1074) as nat);
    assert(low.steps() == mantissa * power);
    assert(exponent < 826) by {
        if exponent >= 826 {
            if exponent > 826 {
                lemma_pow2_strictly_increases(1900, (exponent + 1074) as nat);
            }
            assert(mantissa * power * den >= pow2(1900) * den) by (nonlinear_arith)
                requires
                    mantissa >= 1,
                    power >= pow2(1900),
                    pow2(1900) >= 0,
                    den > 0,
            ;
        }
    }
    let high = following(low);
    assert(low.bits == (exponent + 1075) * DOUBLE_STEP + (mantissa - DOUBLE_STEP));
    lemma_of_parts(mantissa, exponent, low);
    lemma_of_parts(mantissa + 1, exponent, high);
    assert((mantissa + 1) * power == mantissa * power + power) by (nonlinear_arith);
    let to_low = off_ratio(low, num, den);
    let to_high = off_ratio(high, num, den);
    let gap = power * den;
    assert((mantissa * power + power) * den == mantissa * power * den + gap) by (nonlinear_arith)
        requires
            gap == power * den,
    ;
    assert(is_size(low) && is_size(high));
    assert(to_low + to_high == gap);
    assert(2 * off_ratio(d, num, den) <= gap);
    assert(0x10_0000_0000_0000 * gap <= num) by (nonlinear_arith)
        requires
            mantissa * power * den <= num,
            mantissa >= 0x10_0000_0000_0000,
            gap == power * den,
            power > 0,
            den > 0,
    ;
}

proof fn lemma_steps_increase_or_equal(a: Double, b: Double)
    requires
        is_size(a),
        is_size(b),
        a.bits <= b.bits,
    ensures
        a.steps() <= b.steps(),
{
    if a.bits < b.bits {
        lemma_sizes_increase(a, b);
    } else {
        assert(a == b);
    }
}

/// A sample lies at the double nearest to a whole number of tenths of a field, and no
/// other whole number of tenths is nearer to where it lies, but for what doubles lose of
/// the ratio. A sample before the start lies as far before it.
pub proof fn law_places_are_nearest_tenths(file_loc: i64, field_len: usize) -> (count: int)
    requires
        0 <= file_loc < 0x20_0000_0000_0000,
        0 < field_len < 0x20_0000_0000_0000,
    ensures
        count >= 0,
        disk_location(file_loc, field_len) == nearest(count * unit(), 10),
        -(0x20_0000_0000_0000 * field_len + 41 * file_loc) <= 0x20_0000_0000_0000 * (2 * (count
            * field_len - 10 * file_loc)) <= 0x20_0000_0000_0000 * field_len + 41 * file_loc,
        41 * file_loc < 0x20_0000_0000_0000 ==> -field_len <= 2 * (count * field_len - 10
            * file_loc) <= field_len,
        file_loc > 0 ==> disk_location((-file_loc) as i64, field_len) == negative(
            disk_location(file_loc, field_len),
        ),
{
    let f = file_loc as int;
    let l = field_len as int;
    let u = unit();
    law_small_numbers_are_held(f);
    law_small_numbers_are_held(-f);
    law_small_numbers_are_held(l);
    lemma_pow2_pos(1074);
    if f == 0 {
        lemma_zero_is_nearest(l);
        lemma_zero_is_nearest(1);
        lemma_zero_is_nearest(10);
        assert(0 * u == 0 && 0 * l == 0);
        0
    } else {
        lemma_bounds_of_ratio(f, l);
        lemma_nearest_is_close(f * u, l);
        let quotient = nearest(f * u, l);
        let q = quotient.steps();
        let first = q * l - f * u;
        assert(-(f * u) <= 0x20_0000_0000_0000 * first <= f * u);
        lemma_bounds_of_tenfold(f, l, q);
        lemma_nearest_is_close(10 * q, 1);
        let tenfold = nearest(10 * q, 1);
        let t = tenfold.steps();
        let second = t - 10 * q;
        assert(t * 1 == t);
        assert(-(10 * q) <= 0x20_0000_0000_0000 * second <= 10 * q);
        law_whole_numbers_are_near(tenfold);
        let count = tenfold.rounded();
        let third = count * u - t;
        assert(-u <= 2 * third <= u);
        assert(count >= 0) by (nonlinear_arith)
            requires
                2 * (count * u - t) >= -u,
                t >= 0,
                u > 0,
        ;
        lemma_sum_of_losses(f, l, u, q, t, count);
        count
    }
}

/// The ratio of a sample and a length is neither very small nor very great.
proof fn lemma_bounds_of_ratio(f: int, l: int)
    requires
        0 < f < 0x20_0000_0000_0000,
        0 < l < 0x20_0000_0000_0000,
    ensures
        0x10_0000_0000_0000 * l <= f * unit(),
        f * unit() < pow2(1900) * l,
        unit() >= 0x20_0000_0000_0000 * 0x20_0000_0000_0000,
{
    lemma2_to64();
    lemma2_to64_rest();
    lemma_pow2_adds(53, 53);
    lemma_pow2_adds(106, 968);
    lemma_pow2_pos(968);
    lemma_pow2_adds(1074, 53);
    lemma_pow2_strictly_increases(1127, 1900);
    let u = unit();
    let rest = pow2(968) as int;
    assert(pow2(106) * rest >= pow2(106)) by (nonlinear_arith)
        requires
            rest >= 1,
            pow2(106) >= 0,
    ;
    assert(0x10_0000_0000_0000 * l <= f * u) by (nonlinear_arith)
        requires
            f >= 1,
            l < 0x20_0000_0000_0000,
            u >= 0x20_0000_0000_0000 * 0x20_0000_0000_0000,
    ;
    assert(f * u < u * 0x20_0000_0000_0000) by (nonlinear_arith)
        requires
            f < 0x20_0000_0000_0000,
            u > 0,
    ;
    assert(pow2(1900) * l >= pow2(1900)) by (nonlinear_arith)
        requires
            l >= 1,
            pow2(1900) >= 0,
    ;
}

/// Nor is ten times what a double holds of it.
proof fn lemma_bounds_of_tenfold(f: int, l: int, q: int)
    requires
        0 < f < 0x20_0000_0000_0000,
        0 < l < 0x20_0000_0000_0000,
        -(f * unit()) <= 0x20_0000_0000_0000 * (q * l - f * unit()) <= f * unit(),
        unit() >= 0x20_0000_0000_0000 * 0x20_0000_0000_0000,
    ensures
        0x10_0000_0000_0000 * 1 <= 10 * q,
        10 * q < pow2(1900) * 1,
{
    let u = unit();
    let over = f * u;
    lemma2_to64();
    lemma2_to64_rest();
    assert(over >= u) by (nonlinear_arith)
        requires
            f >= 1,
            over == f * u,
            u > 0,
    ;
    assert(2 * (q * l) >= over);
    assert(q * l <= 2 * over);
    assert(q >= 0x10_0000_0000_0000) by (nonlinear_arith)
        requires
            2 * (q * l) >= over,
            over >= 0x20_0000_0000_0000 * 0x20_0000_0000_0000,
            0 < l < 0x20_0000_0000_0000,
    ;
    assert(q <= 2 * over) by (nonlinear_arith)
        requires
            q * l <= 2 * over,
            l >= 1,
            over >= 0,
    ;
    lemma_pow2_adds(1074, 53);
    lemma_pow2_adds(1127, 10);
    lemma_pow2_strictly_increases(1137, 1900);
    assert(over <= u * 0x20_0000_0000_0000) by (nonlinear_arith)
        requires
            f < 0x20_0000_0000_0000,
            over == f * u,
            u > 0,
    ;
}

/// What is lost on the way to a number of tenths.
proof fn lemma_sum_of_losses(f: int, l: int, u: int, q: int, t: int, count: int)
    requires
        f > 0,
        l > 0,
        u > 0,
        q >= 0,
        -(f * u) <= 0x20_0000_0000_0000 * (q * l - f * u) <= f * u,
        -(10 * q) <= 0x20_0000_0000_0000 * (t - 10 * q) <= 10 * q,
        -u <= 2 * (count * u - t) <= u,
    ensures
        -(0x20_0000_0000_0000 * l + 41 * f) <= 0x20_0000_0000_0000 * (2 * (count * l - 10 * f))
            <= 0x20_0000_0000_0000 * l + 41 * f,
        41 * f < 0x20_0000_0000_0000 ==> -l <= 2 * (count * l - 10 * f) <= l,
{
    let first = q * l - f * u;
    let second = (t - 10 * q) * l;
    let third = (count * u - t) * l;
    let over = f * u;
    let ql = q * l;
    assert(-(10 * ql) <= 0x20_0000_0000_0000 * second <= 10 * ql) by (nonlinear_arith)
        requires
            -(10 * q) <= 0x20_0000_0000_0000 * (t - 10 * q) <= 10 * q,
            second == (t - 10 * q) * l,
            ql == q * l,
            l > 0,
    ;
    assert(-(u * l) <= 2 * third <= u * l) by (nonlinear_arith)
        requires
            -u <= 2 * (count * u - t) <= u,
            third == (count * u - t) * l,
            l > 0,
    ;
    let sum = count * u * l - 10 * over;
    assert(sum == third + second + 10 * first) by (nonlinear_arith)
        requires
            first == q * l - f * u,
            second == (t - 10 * q) * l,
            third == (count * u - t) * l,
            over == f * u,
            sum == count * u * l - 10 * over,
    ;
    assert(20 * ql <= 21 * over);
    assert(over >= 0) by (nonlinear_arith)
        requires
            f > 0,
            u > 0,
            over == f * u,
    ;
    let most = 0x20_0000_0000_0000 * (u * l) + 41 * over;
    assert(-most <= 0x20_0000_0000_0000 * (2 * sum) <= most);
    let off = 2 * (count * l - 10 * f);
    let limit = 0x20_0000_0000_0000 * l + 41 * f;
    assert(2 * sum == off * u && most == limit * u) by (nonlinear_arith)
        requires
            sum == count * u * l - 10 * over,
            over == f * u,
            off == 2 * (count * l - 10 * f),
            limit == 0x20_0000_0000_0000 * l + 41 * f,
            most == 0x20_0000_0000_0000 * (u * l) + 41 * over,
    ;
    assert(-limit <= 0x20_0000_0000_0000 * off <= limit) by (nonlinear_arith)
        requires
            -(limit * u) <= 0x20_0000_0000_0000 * (off * u) <= limit * u,
            u > 0,
    ;
}

/// Of all doubles, the difference of two places is nearest to how far they are apart; the
/// difference the other way round is the opposite one.
pub proof fn law_differences_are_nearest(a: Double, b: Double, other: Double)
    requires
        a.magnitude() < DOUBLE_INFINITY,
        b.magnitude() < DOUBLE_INFINITY,
        other.magnitude() < DOUBLE_INFINITY,
    ensures
        ({
            let apart = a.steps() - b.steps();
            let found = difference(a, b).steps();
            let tried = other.steps();
            &&& difference(a, b).magnitude() < DOUBLE_INFINITY
            &&& difference(b, a).steps() == -found
            &&& (if found >= apart {
                found - apart
            } else {
                apart - found
            }) <= (if tried >= apart {
                tried - apart
            } else {
                apart - tried
            })
        }),
{
    let apart = a.steps() - b.steps();
    let size = if apart >= 0 {
        apart
    } else {
        -apart
    };
    law_nearest_is_nearest(size, 1);
    lemma_zero_is_nearest(1);
    let d = nearest(size, 1);
    let zero = Double { bits: 0 };
    let plus = Double { bits: other.magnitude() as u64 };
    assert(is_size(zero) && is_size(plus));
    assert(plus.magnitude() == other.magnitude());
    assert(plus.steps() == if other.bits >= DOUBLE_SIGN {
        -other.steps()
    } else {
        other.steps()
    });
    lemma_steps_increase_or_equal(zero, plus);
    lemma_steps_increase_or_equal(zero, d);
    assert(off_ratio(d, size, 1) <= off_ratio(plus, size, 1));
    assert(off_ratio(d, size, 1) <= off_ratio(zero, size, 1));
    assert(negative(d).magnitude() == d.magnitude());
    assert(negative(d).steps() == -d.steps());
    assert((Double { bits: DOUBLE_SIGN }).steps() == 0) by {
        assert((Double { bits: DOUBLE_SIGN }).magnitude() == zero.magnitude());
    }
}

/// Places of fields without samples have no distance where they are one, and otherwise
/// lie infinitely far apart.
pub proof fn law_places_nowhere(file_loc: i64, previous: i64)
    ensures
        file_loc == 0 ==> disk_location(file_loc, 0).nan(),
        file_loc > 0 ==> disk_location(file_loc, 0).bits == 0x7FF0_0000_0000_0000,
        file_loc < 0 ==> disk_location(file_loc, 0).bits == 0xFFF0_0000_0000_0000,
        file_loc > 0 && previous > 0 || file_loc < 0 && previous < 0 || file_loc == 0 || previous
            == 0 ==> disk_distance(file_loc, previous, 0).nan(),
        file_loc > 0 && previous < 0 ==> disk_distance(file_loc, previous, 0).bits
            == 0x7FF0_0000_0000_0000,
        file_loc < 0 && previous > 0 ==> disk_distance(file_loc, previous, 0).bits
            == 0xFFF0_0000_0000_0000,
{
    lemma_zero_is_held(0);
    lemma_zero_is_held(
        if file_loc < 0 {
            -file_loc
        } else {
            file_loc as int
        },
    );
    lemma_zero_is_held(
        if previous < 0 {
            -previous
        } else {
            previous as int
        },
    );
}

} // verus!
