//! Taking the colour out of a luma signal: the signal is brought to a multiple
//! of the carrier frequency, combed, and brought back.
use crate::comb::chromasep_comb;
use crate::double::{law_order_is_numeric, Double, DOUBLE_INFINITY};
use crate::resample::{at_rate, cubic_resample, is_at_rate, law_rates_keep_time, len_at_rate};
use crate::slices::{law_padded_length, pad_or_truncate, padded, rolled};
use vstd::arithmetic::div_mod::lemma_fundamental_div_mod;
use vstd::prelude::*;

verus! {

/// Whether `ratio` is, of `candidates`, a numerator and an error for each
/// denominator from one on, the first of those with the least finite error; zero
/// over one where no error is finite.
pub open spec fn is_best_ratio(candidates: Seq<(usize, Double)>, ratio: (usize, usize)) -> bool {
    let infinite = Double { bits: DOUBLE_INFINITY };
    ||| ratio == (0usize, 1usize) && forall|j: int|
        0 <= j < candidates.len() ==> !(#[trigger] candidates[j]).1.below(infinite)
    ||| {
        let best = ratio.1 - 1;
        &&& 0 <= best < candidates.len()
        &&& ratio.0 == candidates[best].0
        &&& candidates[best].1.below(infinite)
        &&& forall|j: int|
            0 <= j < candidates.len() ==> {
                &&& !(#[trigger] candidates[j]).1.below(candidates[best].1)
                &&& j < best && !candidates[j].1.nan() ==> candidates[best].1.below(
                    candidates[j].1,
                )
            }
    }
}

/// Whether `candidates` is what `approximate` gives for each denominator from
/// one on.
pub open spec fn are_candidates<A: Fn(usize) -> (usize, Double)>(
    candidates: Seq<(usize, Double)>,
    approximate: A,
) -> bool {
    forall|j: int|
        0 <= j < candidates.len() ==> approximate.ensures(
            ((j + 1) as usize,),
            #[trigger] candidates[j],
        )
}

/// Whether `err` is the error of the best denominator so far; infinite before
/// there is one.
spec fn is_error_of(candidates: Seq<(usize, Double)>, best_den: usize, err: Double) -> bool {
    let infinite = Double { bits: DOUBLE_INFINITY };
    ||| err == infinite && forall|j: int|
        0 <= j < candidates.len() ==> !(#[trigger] candidates[j]).1.below(infinite)
    ||| 1 <= best_den <= candidates.len() && err == candidates[best_den - 1].1 && err.below(infinite)
}

/// Finds the best ratio with a denominator of at most `max_den`. `approximate`
/// gives the best numerator for a denominator, and how far the ratio is off.
pub fn limit_denominator<A: Fn(usize) -> (usize, Double)>(
    max_den: usize,
    approximate: A,
) -> (ratio: (usize, usize))
    requires
        forall|den: usize| 1 <= den <= max_den ==> approximate.requires((den,)),
    ensures
        exists|candidates: Seq<(usize, Double)>|
            candidates.len() == max_den && #[trigger] are_candidates(candidates, approximate)
                && is_best_ratio(candidates, ratio),
        ratio.1 >= 1,
{
    let mut best_num: usize = 0;
    let mut best_den: usize = 1;
    let mut best_err = Double { bits: DOUBLE_INFINITY };
    let ghost mut candidates: Seq<(usize, Double)> = Seq::empty();
    let mut tried: usize = 0;
    while tried < max_den
        invariant
            tried <= max_den,
            forall|den: usize| 1 <= den <= max_den ==> approximate.requires((den,)),
            candidates.len() == tried,
            are_candidates(candidates, approximate),
            is_best_ratio(candidates, (best_num, best_den)),
            best_den >= 1,
            is_error_of(candidates, best_den, best_err),
        decreases max_den - tried,
    {
        let den: usize = tried + 1;
        let (num, err): (usize, Double) = approximate(den);
        proof {
            candidates = candidates.push((num, err));
        }
        if err.lt(best_err) {
            best_err = err;
            best_num = num;
            best_den = den;
        }
        tried += 1;
    }
    (best_num, best_den)
}

/// How many times the carrier frequency the comb works at.
pub const SEP_MULTIPLIER: usize = 8;

/// The greatest denominator of the resampling ratio.
pub const SEP_MAX_DEN: usize = 1000;

/// A separator for one ratio of sampling rates.
#[derive(Clone, Copy, Debug)]
pub struct ChromaSepClass {
    pub ratio_num: usize,
    pub ratio_den: usize,
    pub delay: usize,
}

/// Whether `output` is what `combine` makes of every sample and the one `delay`
/// samples before it.
pub open spec fn is_combed<T, C: Fn(T, T) -> T>(
    input: Seq<T>,
    delay: int,
    combine: C,
    output: Seq<T>,
) -> bool {
    &&& output.len() == input.len()
    &&& forall|i: int|
        0 <= i < input.len() ==> combine.ensures(
            (input[i], rolled(input, delay)[i]),
            #[trigger] output[i],
        )
}

impl ChromaSepClass {
    /// A separator for the ratio that `approximate` says the two rates have.
    pub fn new<A: Fn(usize) -> (usize, Double)>(approximate: A) -> (separator: Self)
        requires
            forall|den: usize| 1 <= den <= SEP_MAX_DEN ==> approximate.requires((den,)),
        ensures
            separator.delay == 4,
            separator.ratio_den >= 1,
            exists|candidates: Seq<(usize, Double)>|
                candidates.len() == SEP_MAX_DEN && #[trigger] are_candidates(
                    candidates,
                    approximate,
                ) && is_best_ratio(candidates, (separator.ratio_num, separator.ratio_den)),
    {
        let (ratio_num, ratio_den): (usize, usize) = limit_denominator(SEP_MAX_DEN, approximate);
        ChromaSepClass { ratio_num, ratio_den, delay: SEP_MULTIPLIER / 2 }
    }

    /// Whether a signal of `len` samples can be brought to the rate of the comb
    /// and back.
    pub open spec fn can_work(self, len: int) -> bool {
        let num = self.ratio_num as int;
        let den = self.ratio_den as int;
        let there = len_at_rate(len, den, num);
        &&& len > 0 ==> num > 0 && den > 0
        &&& there <= usize::MAX
        &&& len_at_rate(there, num, den) <= usize::MAX
    }

    /// Tells whether a signal of `len` samples can be brought to the rate of the comb
    /// and back.
    pub fn works_on(&self, len: usize) -> (answer: bool)
        ensures
            answer == self.can_work(len as int),
    {
        if len == 0 {
            return true;
        }
        let num: usize = self.ratio_num;
        let den: usize = self.ratio_den;
        if num == 0 || den == 0 {
            return false;
        }
        match at_rate(len, den, num) {
            Some(there) => at_rate(there, num, den).is_some(),
            None => false,
        }
    }

    /// Resamples the luma signal to the rate of the comb, combs it, resamples
    /// it back and brings it to its old length. The first two arguments behind
    /// the signal weigh the samples on the way there and on the way back.
    pub fn work<
        T: Copy,
        W: Copy,
        F: Fn(usize, usize) -> W,
        G: Fn(usize, usize) -> W,
        M: Fn(W, T, T, T, T) -> T,
        C: Fn(T, T) -> T,
    >(&self, luminance: &[T], weigh_there: F, weigh_back: G, mix: &M, combine: C) -> (output: Vec<T>)
        requires
            self.can_work(luminance@.len() as int),
            forall|p: usize, offset: usize|
                p < self.ratio_num ==> weigh_there.requires((p, offset)),
            forall|p: usize, offset: usize|
                p < self.ratio_den ==> weigh_back.requires((p, offset)),
            forall|w: W, a: T, b: T, c: T, d: T| mix.requires((w, a, b, c, d)),
            forall|a: T, b: T| combine.requires((a, b)),
        ensures
            exists|there: Seq<T>, combed: Seq<T>, back: Seq<T>|
                {
                    &&& #[trigger] is_separated(
                        *self,
                        luminance@,
                        weigh_there,
                        weigh_back,
                        *mix,
                        combine,
                        there,
                        combed,
                        back,
                    )
                    &&& output@ == padded(back, luminance@)
                },
    {
        let there: Vec<T> = cubic_resample(
            luminance,
            self.ratio_den,
            self.ratio_num,
            weigh_there,
            mix,
        );
        let combed: Vec<T> = chromasep_comb(there.as_slice(), self.delay, combine);
        let back: Vec<T> = cubic_resample(
            combed.as_slice(),
            self.ratio_num,
            self.ratio_den,
            weigh_back,
            mix,
        );
        assert(is_separated(
            *self,
            luminance@,
            weigh_there,
            weigh_back,
            *mix,
            combine,
            there@,
            combed@,
            back@,
        ));
        pad_or_truncate(back.as_slice(), luminance)
    }
}

/// Whether a signal goes from `luminance` over `there` and `combed` to `back`.
pub open spec fn is_separated<
    T,
    W,
    F: Fn(usize, usize) -> W,
    G: Fn(usize, usize) -> W,
    M: Fn(W, T, T, T, T) -> T,
    C: Fn(T, T) -> T,
>(
    separator: ChromaSepClass,
    luminance: Seq<T>,
    weigh_there: F,
    weigh_back: G,
    mix: M,
    combine: C,
    there: Seq<T>,
    combed: Seq<T>,
    back: Seq<T>,
) -> bool {
    let num = separator.ratio_num as int;
    let den = separator.ratio_den as int;
    &&& is_at_rate(luminance, den, num, weigh_there, mix, there)
    &&& is_combed(there, separator.delay as int, combine, combed)
    &&& is_at_rate(combed, num, den, weigh_back, mix, back)
}

/// Separation keeps the length of a signal that is not very short: at least
/// twice the samples that rounding on the way there and back can lose.
pub proof fn law_work_keeps_length<
    T,
    W,
    F: Fn(usize, usize) -> W,
    G: Fn(usize, usize) -> W,
    M: Fn(W, T, T, T, T) -> T,
    C: Fn(T, T) -> T,
>(
    separator: ChromaSepClass,
    luminance: Seq<T>,
    weigh_there: F,
    weigh_back: G,
    mix: M,
    combine: C,
    there: Seq<T>,
    combed: Seq<T>,
    back: Seq<T>,
)
    requires
        separator.can_work(luminance.len() as int),
        is_separated(
            separator,
            luminance,
            weigh_there,
            weigh_back,
            mix,
            combine,
            there,
            combed,
            back,
        ),
        luminance.len() * separator.ratio_num >= 2 * (separator.ratio_num + separator.ratio_den),
    ensures
        padded(back, luminance).len() == luminance.len(),
{
    let n = luminance.len() as int;
    let num = separator.ratio_num as int;
    let den = separator.ratio_den as int;
    law_padded_length(back, luminance);
    if n > 0 && num != den {
        let over = n * num;
        let mid = there.len() as int;
        assert(mid == over / den);
        lemma_fundamental_div_mod(over, den);
        assert(mid * den > over - den) by (nonlinear_arith)
            requires
                over == den * mid + over % den,
                over % den < den,
        ;
        if mid > 0 {
            let under = mid * den;
            let out = back.len() as int;
            assert(out == under / num);
            lemma_fundamental_div_mod(under, num);
            assert(out * num > under - num) by (nonlinear_arith)
                requires
                    under == num * out + under % num,
                    under % num < num,
            ;
            assert(2 * out >= n) by (nonlinear_arith)
                requires
                    out * num > over - den - num,
                    over == n * num,
                    over >= 2 * (num + den),
                    num > 0,
            ;
        } else {
            assert(mid * den == 0) by (nonlinear_arith)
                requires
                    mid == 0,
            ;
            assert(over >= 2 * (num + den));
        }
    }
}

/// Of the ratios with a denominator that is allowed, the best is off by no more than any
/// other, and by less than any with a smaller denominator. Only where no error is a
/// finite number, there is none, and zero over one stands for it.
pub proof fn law_best_ratio_is_least_off(
    candidates: Seq<(usize, Double)>,
    ratio: (usize, usize),
    other: int,
)
    requires
        is_best_ratio(candidates, ratio),
        1 <= other <= candidates.len(),
        candidates[other - 1].1.below(Double { bits: DOUBLE_INFINITY }),
    ensures
        1 <= ratio.1 <= candidates.len(),
        ratio.0 == candidates[ratio.1 - 1].0,
        !candidates[ratio.1 - 1].1.nan(),
        candidates[ratio.1 - 1].1.steps() <= candidates[other - 1].1.steps(),
        other < ratio.1 ==> candidates[ratio.1 - 1].1.steps() < candidates[other - 1].1.steps(),
{
    let infinite = Double { bits: DOUBLE_INFINITY };
    assert(candidates[other - 1].1.below(infinite));
    law_order_is_numeric(candidates[other - 1].1, candidates[ratio.1 - 1].1);
    law_order_is_numeric(candidates[ratio.1 - 1].1, candidates[other - 1].1);
}

/// A delay comb combines every sample with the one as many samples before it, around the
/// front.
pub proof fn law_delay_comb_reads_behind<T, C: Fn(T, T) -> T>(
    input: Seq<T>,
    delay: int,
    combine: C,
    output: Seq<T>,
    i: int,
)
    requires
        is_combed(input, delay, combine, output),
        0 <= i < input.len(),
    ensures
        output.len() == input.len(),
        combine.ensures((input[i], input[(i - delay) % input.len() as int]), output[i]),
{
    assert(combine.ensures((input[i], rolled(input, delay)[i]), output[i]));
}

/// On its way, a signal goes from the rate of the input, the denominator of the ratio,
/// to that of the comb, its numerator, is combed there, and goes back. At equal rates it
/// is only combed.
pub proof fn law_separation_goes_there_and_back<
    T,
    W,
    F: Fn(usize, usize) -> W,
    G: Fn(usize, usize) -> W,
    M: Fn(W, T, T, T, T) -> T,
    C: Fn(T, T) -> T,
>(
    separator: ChromaSepClass,
    luminance: Seq<T>,
    weigh_there: F,
    weigh_back: G,
    mix: M,
    combine: C,
    there: Seq<T>,
    combed: Seq<T>,
    back: Seq<T>,
)
    requires
        is_separated(
            separator,
            luminance,
            weigh_there,
            weigh_back,
            mix,
            combine,
            there,
            combed,
            back,
        ),
        separator.ratio_num > 0,
        separator.ratio_den > 0,
    ensures
        is_at_rate(
            luminance,
            separator.ratio_den as int,
            separator.ratio_num as int,
            weigh_there,
            mix,
            there,
        ),
        is_combed(there, separator.delay as int, combine, combed),
        is_at_rate(
            combed,
            separator.ratio_num as int,
            separator.ratio_den as int,
            weigh_back,
            mix,
            back,
        ),
        combed.len() == there.len(),
        separator.ratio_num == separator.ratio_den ==> there == luminance && back == combed,
        there.len() * separator.ratio_den <= luminance.len() * separator.ratio_num,
        back.len() * separator.ratio_num <= there.len() * separator.ratio_den,
{
    let num = separator.ratio_num as int;
    let den = separator.ratio_den as int;
    law_rates_keep_time(luminance.len() as int, 0, den, num);
    law_rates_keep_time(combed.len() as int, 0, num, den);
}

/// A signal can be separated where it is empty, or where both rates are positive and the
/// signal can be addressed at either.
pub proof fn law_separation_needs_room(separator: ChromaSepClass, len: int)
    requires
        0 < len <= usize::MAX,
    ensures
        separator.can_work(0),
        separator.can_work(len) ==> separator.ratio_num > 0 && separator.ratio_den > 0,
        separator.ratio_num == separator.ratio_den && separator.ratio_num > 0
            ==> separator.can_work(len),
        separator.ratio_num > 0 && separator.ratio_den > 0 && len * separator.ratio_num
            <= usize::MAX ==> separator.can_work(len),
{
    let num = separator.ratio_num as int;
    let den = separator.ratio_den as int;
    if num > 0 && den > 0 && num != den {
        law_rates_keep_time(len, 0, den, num);
        let there = len_at_rate(len, den, num);
        assert(there >= 0) by (nonlinear_arith)
            requires
                (there + 1) * den > len * num,
                len * num >= 0,
                den > 0,
        ;
        law_rates_keep_time(there, 0, num, den);
        let back = len_at_rate(there, num, den);
        assert(len * num <= usize::MAX ==> there <= usize::MAX) by (nonlinear_arith)
            requires
                there * den <= len * num,
                there >= 0,
                den >= 1,
        ;
        if there > 0 {
            assert(back <= len) by (nonlinear_arith)
                requires
                    back * num <= there * den,
                    there * den <= len * num,
                    num > 0,
            ;
        }
    }
}

/// The candidates are what is given for the denominators one, two, and so on, and the
/// greatest one that is tried is one thousand; the comb works at eight times the carrier.
pub proof fn law_denominators_are_tried_in_turn<A: Fn(usize) -> (usize, Double)>(
    candidates: Seq<(usize, Double)>,
    approximate: A,
    den: usize,
)
    requires
        are_candidates(candidates, approximate),
        1 <= den <= candidates.len(),
    ensures
        approximate.ensures((den,), candidates[den - 1]),
        SEP_MAX_DEN == 1000,
        SEP_MULTIPLIER == 8,
{
    assert(approximate.ensures(((den - 1 + 1) as usize,), candidates[den - 1]));
}

} // verus!
