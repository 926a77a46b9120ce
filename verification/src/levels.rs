//! Levels of the output: sixteen-bit samples, and the levels that metadata gives.
use crate::double::{
    held_between, law_integers_are_held_in_range, law_order_is_numeric,
    law_samples_lose_their_fraction, law_single_order_is_numeric, single_unit, unit, Double,
    Single,
};
use vstd::arithmetic::power2::{
    lemma2_to64, lemma2_to64_rest, lemma_pow2_adds, lemma_pow2_pos, pow2,
};
use vstd::prelude::*;

verus! {

/// Bit pattern of the greatest sample, 65535.
pub const SINGLE_TOP: u32 = 0x477F_FF00;

/// Bit pattern of the greatest level, 65535.
pub const DOUBLE_TOP: u64 = 0x40EF_FFE0_0000_0000;

/// The sample that stands for `value`: held in the range of the output, and without
/// its digits behind the point.
pub open spec fn sample_of(value: Single) -> u16 {
    value.clipped(Single { bits: 0 }, Single { bits: SINGLE_TOP }).as_u16()
}

/// Whether `output` encodes `input`: every sample stands for what `scale`, with
/// `factors`, makes of the one in its place.
pub open spec fn is_encoded<C, F: Fn(C, Single) -> Single>(
    input: Seq<Single>,
    factors: C,
    scale: F,
    output: Seq<u16>,
) -> bool {
    &&& output.len() == input.len()
    &&& forall|i: int|
        0 <= i < input.len() ==> is_encoded_sample(input[i], factors, scale, #[trigger] output[i])
}

/// Whether `out` stands for what `scale`, with `factors`, makes of `sample`.
pub open spec fn is_encoded_sample<C, F: Fn(C, Single) -> Single>(
    sample: Single,
    factors: C,
    scale: F,
    out: u16,
) -> bool {
    exists|value: Single| #[trigger]
        scale.ensures((factors, sample), value) && out == sample_of(value)
}

/// Encodes a signal: `scale`, with `factors`, brings a sample to the scale of the
/// output.
pub fn hz_to_output_array<C: Copy, F: Fn(C, Single) -> Single>(
    input: &[Single],
    factors: C,
    scale: &F,
) -> (output: Vec<u16>)
    requires
        forall|sample: Single| scale.requires((factors, sample)),
    ensures
        is_encoded(input@, factors, *scale, output@),
{
    let mut output: Vec<u16> = Vec::with_capacity(input.len());
    let low = Single { bits: 0 };
    let high = Single { bits: SINGLE_TOP };
    let mut i: usize = 0;
    while i < input.len()
        invariant
            i <= input@.len(),
            low == (Single { bits: 0 }),
            high == (Single { bits: SINGLE_TOP }),
            forall|sample: Single| scale.requires((factors, sample)),
            output@.len() == i,
            forall|j: int|
                0 <= j < i ==> is_encoded_sample(input@[j], factors, *scale, #[trigger] output@[j]),
        decreases input@.len() - i,
    {
        let value: Single = scale(factors, input[i]);
        output.push(value.clip(low, high).to_u16());
        i += 1;
    }
    output
}

/// A level of the output: a frequency where the samples are raw, a sample where they
/// are encoded.
#[derive(Clone, Copy, Debug, PartialEq, Eq, Structural)]
pub enum OutputLevel {
    Raw(Double),
    Encoded(u16),
}

/// Whether `level` is that of the frequency `hz`: the frequency itself where the
/// output is raw, otherwise the sample nearest to it, held in range. `scaled` brings
/// a frequency to the scale of the output, `add_half` adds one half.
pub open spec fn is_level_of<S: Fn(Double, Double) -> Double, H: Fn(Double) -> Double>(
    raw: bool,
    hz: Double,
    out_scale: Double,
    scaled: S,
    add_half: H,
    level: OutputLevel,
) -> bool {
    if raw {
        level == OutputLevel::Raw(hz)
    } else {
        exists|value: Double, more: Double|
            {
                &&& #[trigger] scaled.ensures((hz, out_scale), value)
                &&& #[trigger] add_half.ensures(
                    (value.clipped(Double { bits: 0 }, Double { bits: DOUBLE_TOP }),),
                    more,
                )
                &&& level == OutputLevel::Encoded(more.as_u16())
            }
    }
}

/// The level of the output that stands for the frequency `hz`.
pub fn hz_to_output_scalar<S: Fn(Double, Double) -> Double, H: Fn(Double) -> Double>(
    raw: bool,
    hz: Double,
    out_scale: Double,
    scaled: &S,
    add_half: &H,
) -> (level: OutputLevel)
    requires
        !raw ==> scaled.requires((hz, out_scale)),
        forall|value: Double| add_half.requires((value,)),
    ensures
        is_level_of(raw, hz, out_scale, *scaled, *add_half, level),
{
    if raw {
        return OutputLevel::Raw(hz);
    }
    let value: Double = scaled(hz, out_scale);
    let held: Double = value.clip(Double { bits: 0 }, Double { bits: DOUBLE_TOP });
    let more: Double = add_half(held);
    assert(scaled.ensures((hz, out_scale), value) && add_half.ensures((held,), more));
    OutputLevel::Encoded(more.to_u16())
}

/// Whether `out` is the sixteen-bit sample of the number `value`: without its digits
/// behind the point, the least sample for what is below the range, the greatest for
/// what is above, and the least for no number.
pub open spec fn is_sample_of(out: u16, value: Single) -> bool {
    if value.nan() || value.steps() <= 0 {
        out == 0
    } else if value.steps() >= 65535 * single_unit() {
        out == 65535
    } else {
        out * single_unit() <= value.steps() < (out + 1) * single_unit()
    }
}

/// The greatest sample and the greatest level are 65535.
proof fn lemma_tops()
    ensures
        (Single { bits: SINGLE_TOP }).steps() == 65535 * single_unit(),
        (Single { bits: 0 }).steps() == 0,
        (Double { bits: DOUBLE_TOP }).steps() == 65535 * unit(),
        (Double { bits: 0 }).steps() == 0,
{
    lemma2_to64();
    lemma2_to64_rest();
    lemma_pow2_adds(8, 141);
    lemma_pow2_adds(37, 1037);
    assert((Single { bits: 0 }).mantissa() == 0 && (Double { bits: 0 }).mantissa() == 0);
    assert(0 * pow2(0) == 0);
    let top = Single { bits: SINGLE_TOP };
    assert(top.mantissa() == 0xFF_FF00 && top.exponent() == -8);
    assert(0xFF_FF00 * pow2(141) == 65535 * (256 * pow2(141))) by (nonlinear_arith);
    let most = Double { bits: DOUBLE_TOP };
    assert(most.mantissa() == 0x1F_FFE0_0000_0000 && most.exponent() == -37);
    assert(0x1F_FFE0_0000_0000 * pow2(1037) == 65535 * (0x20_0000_0000 * pow2(1037)))
        by (nonlinear_arith);
}

/// An encoded signal has a sample for every sample of the input, in its place: the
/// sixteen-bit one of what scaling makes of it.
pub proof fn law_signals_are_encoded_in_place<C, F: Fn(C, Single) -> Single>(
    input: Seq<Single>,
    factors: C,
    scale: F,
    output: Seq<u16>,
    i: int,
)
    requires
        is_encoded(input, factors, scale, output),
        0 <= i < input.len(),
    ensures
        output.len() == input.len(),
        exists|value: Single| #[trigger]
            scale.ensures((factors, input[i]), value) && is_sample_of(output[i], value),
{
    assert(is_encoded_sample(input[i], factors, scale, output[i]));
    let value = choose|value: Single| #[trigger]
        scale.ensures((factors, input[i]), value) && output[i] == sample_of(value);
    let zero = Single { bits: 0 };
    let top = Single { bits: SINGLE_TOP };
    lemma_tops();
    lemma2_to64();
    lemma_pow2_pos(149);
    law_samples_lose_their_fraction(value);
    law_samples_lose_their_fraction(zero);
    law_samples_lose_their_fraction(top);
    if !value.nan() {
        law_single_order_is_numeric(value, zero);
        law_single_order_is_numeric(value, top);
        law_single_order_is_numeric(top, value);
    }
    assert(is_sample_of(output[i], value));
}

/// Where samples are raw, a level is the frequency itself.
pub proof fn law_raw_levels_are_frequencies<
    S: Fn(Double, Double) -> Double,
    H: Fn(Double) -> Double,
>(hz: Double, out_scale: Double, scaled: S, add_half: H, level: OutputLevel)
    requires
        is_level_of(true, hz, out_scale, scaled, add_half, level),
    ensures
        level matches OutputLevel::Raw(found) && found == hz,
{
}

/// Where samples are encoded, a level is that of the scaled frequency, held between the
/// least and the greatest sample: one half more than it, without the digits behind the
/// point.
pub proof fn law_encoded_levels_are_held<
    S: Fn(Double, Double) -> Double,
    H: Fn(Double) -> Double,
>(hz: Double, out_scale: Double, scaled: S, add_half: H, level: OutputLevel)
    requires
        is_level_of(false, hz, out_scale, scaled, add_half, level),
    ensures
        exists|value: Double, held: Double, more: Double|
            {
                &&& #[trigger] scaled.ensures((hz, out_scale), value)
                &&& #[trigger] add_half.ensures((held,), more)
                &&& value.nan() ==> held == value
                &&& !value.nan() ==> {
                    &&& !held.nan()
                    &&& held.steps() == if value.steps() < 0 {
                        0
                    } else if value.steps() > 65535 * unit() {
                        65535 * unit()
                    } else {
                        value.steps()
                    }
                }
                &&& level matches OutputLevel::Encoded(sample) && {
                    &&& more.nan() ==> sample == 0
                    &&& !more.nan() ==> sample == held_between(more.truncated(), 0, 65535)
                }
            },
{
    let zero = Double { bits: 0 };
    let top = Double { bits: DOUBLE_TOP };
    lemma_tops();
    let (value, more) = choose|value: Double, more: Double|
        {
            &&& #[trigger] scaled.ensures((hz, out_scale), value)
            &&& #[trigger] add_half.ensures((value.clipped(zero, top),), more)
            &&& level == OutputLevel::Encoded(more.as_u16())
        };
    let held = value.clipped(zero, top);
    if !value.nan() {
        law_order_is_numeric(value, zero);
        law_order_is_numeric(top, value);
    }
    law_integers_are_held_in_range(more);
    assert(scaled.ensures((hz, out_scale), value) && add_half.ensures((held,), more));
}

} // verus!
