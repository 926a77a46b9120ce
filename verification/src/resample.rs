//! Resampling by a ratio of whole numbers.
use vstd::arithmetic::div_mod::{
    lemma_basic_div, lemma_div_is_ordered, lemma_fundamental_div_mod, lemma_fundamental_div_mod_converse,
    lemma_hoist_over_denominator, lemma_multiply_divide_lt,
};
use vstd::arithmetic::mul::lemma_mul_is_commutative;
use vstd::prelude::*;
use vstd::slice::slice_to_vec;

verus! {

/// The number nearest to `idx` that is an index into `len` items.
pub open spec fn clamped(idx: int, len: int) -> int {
    if idx < 0 {
        0
    } else if idx >= len {
        len - 1
    } else {
        idx
    }
}

/// The sample at `idx`, or the one at the end that `idx` lies beyond.
pub fn sample_clamped<T: Copy>(data: &[T], idx: isize) -> (sample: T)
    requires
        data@.len() > 0,
    ensures
        sample == data@[clamped(idx as int, data@.len() as int)],
{
    if idx < 0 {
        data[0]
    } else if idx as usize >= data.len() {
        data[data.len() - 1]
    } else {
        data[idx as usize]
    }
}

/// How many samples `len` samples become.
pub open spec fn resampled_len(len: int, input_rate: int, output_rate: int) -> int {
    len * output_rate / input_rate
}

/// The input sample at or before the position of output sample `i`.
pub open spec fn tap_index(i: int, input_rate: int, output_rate: int) -> int {
    i * input_rate / output_rate
}

/// The input around the position of an output sample: one sample before it and
/// two behind it, each held inside the input.
pub open spec fn taps<T>(data: Seq<T>, idx: int) -> (T, T, T, T) {
    let len = data.len() as int;
    (
        data[clamped(idx - 1, len)],
        data[clamped(idx, len)],
        data[clamped(idx + 1, len)],
        data[clamped(idx + 2, len)],
    )
}

/// The input advances by `input_rate` samples every `output_rate` outputs, and
/// within such a cycle by an amount that depends on the phase alone.
pub proof fn law_taps_go_by_cycles(i: int, input_rate: int, output_rate: int)
    requires
        i >= 0,
        input_rate > 0,
        output_rate > 0,
    ensures
        tap_index(i, input_rate, output_rate) == i / output_rate * input_rate + tap_index(
            i % output_rate,
            input_rate,
            output_rate,
        ),
        tap_index(i, input_rate, output_rate) >= 0,
{
    let cycle = i / output_rate;
    let phase = i % output_rate;
    lemma_fundamental_div_mod(i, output_rate);
    assert(i * input_rate == phase * input_rate + (cycle * input_rate) * output_rate)
        by (nonlinear_arith)
        requires
            i == output_rate * cycle + phase,
    ;
    lemma_hoist_over_denominator(phase * input_rate, cycle * input_rate, output_rate as nat);
    assert(i * input_rate >= 0) by (nonlinear_arith)
        requires
            i >= 0,
            input_rate > 0,
    ;
    lemma_div_is_ordered(0, i * input_rate, output_rate);
}

/// The input never goes back from one output sample to the next.
pub proof fn law_taps_never_go_back(i: int, j: int, input_rate: int, output_rate: int)
    requires
        i <= j,
        input_rate > 0,
        output_rate > 0,
    ensures
        tap_index(i, input_rate, output_rate) <= tap_index(j, input_rate, output_rate),
{
    assert(i * input_rate <= j * input_rate) by (nonlinear_arith)
        requires
            i <= j,
            input_rate > 0,
    ;
    lemma_div_is_ordered(i * input_rate, j * input_rate, output_rate);
}

/// Every output sample lies inside the input.
pub proof fn law_taps_lie_inside(i: int, len: int, input_rate: int, output_rate: int)
    requires
        0 <= i < resampled_len(len, input_rate, output_rate),
        input_rate > 0,
        output_rate > 0,
    ensures
        0 <= tap_index(i, input_rate, output_rate) < len,
{
    let total = len * output_rate;
    lemma_fundamental_div_mod(total, input_rate);
    let count = total / input_rate;
    assert(i * input_rate < output_rate * len) by (nonlinear_arith)
        requires
            total == len * output_rate,
            total == input_rate * count + total % input_rate,
            total % input_rate >= 0,
            i + 1 <= count,
            input_rate > 0,
    ;
    lemma_multiply_divide_lt(i * input_rate, output_rate, len);
    law_taps_go_by_cycles(i, input_rate, output_rate);
}

/// Whether `offsets` holds the tap offset of every phase.
spec fn are_offsets(offsets: Seq<usize>, input_rate: int, output_rate: int) -> bool {
    &&& offsets.len() == output_rate
    &&& forall|p: int|
        0 <= p < output_rate ==> #[trigger] offsets[p] == tap_index(p, input_rate, output_rate)
}

/// The input sample that output sample `i` is found at.
fn tap_at(i: usize, input_rate: usize, output_rate: usize, offsets: &Vec<usize>, len: Ghost<int>) -> (
    idx: usize)
    requires
        input_rate > 0,
        output_rate > 0,
        i < resampled_len(len@, input_rate as int, output_rate as int),
        0 <= len@ <= usize::MAX,
        are_offsets(offsets@, input_rate as int, output_rate as int),
    ensures
        idx == tap_index(i as int, input_rate as int, output_rate as int),
        idx < len@,
{
    proof {
        law_taps_go_by_cycles(i as int, input_rate as int, output_rate as int);
        law_taps_lie_inside(i as int, len@, input_rate as int, output_rate as int);
        law_taps_go_by_cycles(i as int % output_rate as int, input_rate as int, output_rate as int);
        assert(i as int / output_rate as int * input_rate as int >= 0) by (nonlinear_arith)
            requires
                i >= 0,
                input_rate > 0,
                output_rate > 0,
        ;
    }
    i / output_rate * input_rate + offsets[i % output_rate]
}

/// Whether `value` is what `mix` makes of the weights and the input of output
/// sample `i`.
pub open spec fn is_mixed<T, W, M: Fn(W, T, T, T, T) -> T>(
    data: Seq<T>,
    input_rate: int,
    output_rate: int,
    weights: Seq<W>,
    mix: M,
    i: int,
    value: T,
) -> bool {
    let (before, at, next, last) = taps(data, tap_index(i, input_rate, output_rate));
    mix.ensures((weights[i % output_rate], before, at, next, last), value)
}

/// Whether `out` is `data` resampled: every sample is mixed with the weights of
/// its phase, which `weigh` was asked for once per phase.
pub open spec fn is_resampled<T, W, F: Fn(usize, usize) -> W, M: Fn(W, T, T, T, T) -> T>(
    data: Seq<T>,
    input_rate: int,
    output_rate: int,
    weights: Seq<W>,
    weigh: F,
    mix: M,
    out: Seq<T>,
) -> bool {
    &&& weights.len() == output_rate
    &&& forall|p: int|
        0 <= p < output_rate ==> weigh.ensures(
            (p as usize, tap_index(p, input_rate, output_rate) as usize),
            #[trigger] weights[p],
        )
    &&& out.len() == resampled_len(data.len() as int, input_rate, output_rate)
    &&& forall|i: int|
        0 <= i < out.len() ==> is_mixed(
            data,
            input_rate,
            output_rate,
            weights,
            mix,
            i,
            #[trigger] out[i],
        )
}

/// Whether `output` is `input` at another rate.
pub open spec fn is_at_rate<T, W, F: Fn(usize, usize) -> W, M: Fn(W, T, T, T, T) -> T>(
    input: Seq<T>,
    input_rate: int,
    output_rate: int,
    weigh: F,
    mix: M,
    output: Seq<T>,
) -> bool {
    if input.len() == 0 || input_rate == output_rate {
        output == input
    } else {
        exists|weights: Seq<W>| #[trigger]
            is_resampled(input, input_rate, output_rate, weights, weigh, mix, output)
    }
}

/// The length of a signal at another rate.
pub open spec fn len_at_rate(len: int, input_rate: int, output_rate: int) -> int {
    if len == 0 || input_rate == output_rate {
        len
    } else {
        resampled_len(len, input_rate, output_rate)
    }
}

/// The length of a signal at another rate, where it can be addressed.
pub fn at_rate(len: usize, input_rate: usize, output_rate: usize) -> (resampled: Option<usize>)
    requires
        input_rate > 0,
    ensures
        resampled == if len_at_rate(len as int, input_rate as int, output_rate as int)
            <= usize::MAX {
            Some(len_at_rate(len as int, input_rate as int, output_rate as int) as usize)
        } else {
            None
        },
{
    if len == 0 || input_rate == output_rate {
        return Some(len);
    }
    proof {
        assert(0 <= len * output_rate <= u128::MAX) by (nonlinear_arith)
            requires
                0 <= len <= u64::MAX,
                0 <= output_rate <= u64::MAX,
        ;
    }
    let resampled: u128 = len as u128 * output_rate as u128 / input_rate as u128;
    if resampled <= usize::MAX as u128 {
        Some(resampled as usize)
    } else {
        None
    }
}

/// The tap offset and the weights of every phase.
fn phase_tables<W, F: Fn(usize, usize) -> W>(
    input_rate: usize,
    output_rate: usize,
    weigh: &F,
) -> (tables: (Vec<usize>, Vec<W>))
    requires
        input_rate > 0,
        output_rate > 0,
        forall|p: usize, offset: usize| p < output_rate ==> weigh.requires((p, offset)),
    ensures
        are_offsets(tables.0@, input_rate as int, output_rate as int),
        tables.1@.len() == output_rate,
        forall|p: int|
            0 <= p < output_rate ==> weigh.ensures(
                (p as usize, tap_index(p, input_rate as int, output_rate as int) as usize),
                #[trigger] tables.1@[p],
            ),
{
    let mut offsets: Vec<usize> = Vec::with_capacity(output_rate);
    let mut weights: Vec<W> = Vec::with_capacity(output_rate);
    let mut p: usize = 0;
    while p < output_rate
        invariant
            p <= output_rate,
            input_rate > 0,
            output_rate > 0,
            forall|p: usize, offset: usize| p < output_rate ==> weigh.requires((p, offset)),
            offsets@.len() == p,
            forall|q: int|
                0 <= q < p ==> #[trigger] offsets@[q] == tap_index(
                    q,
                    input_rate as int,
                    output_rate as int,
                ),
            weights@.len() == p,
            forall|q: int|
                0 <= q < p ==> weigh.ensures(
                    (q as usize, tap_index(q, input_rate as int, output_rate as int) as usize),
                    #[trigger] weights@[q],
                ),
        decreases output_rate - p,
    {
        proof {
            // A phase begins less than one cycle of the input in.
            assert(p * input_rate < output_rate * input_rate) by (nonlinear_arith)
                requires
                    p < output_rate,
                    input_rate > 0,
            ;
            lemma_multiply_divide_lt(p * input_rate, output_rate as int, input_rate as int);
            law_taps_go_by_cycles(p as int, input_rate as int, output_rate as int);
            assert(p * input_rate <= u128::MAX) by (nonlinear_arith)
                requires
                    p <= u64::MAX,
                    input_rate <= u64::MAX,
            ;
        }
        let offset: usize = (p as u128 * input_rate as u128 / output_rate as u128) as usize;
        offsets.push(offset);
        weights.push(weigh(p, offset));
        p += 1;
    }
    (offsets, weights)
}

/// The output samples whose input needs no holding inside: those from the first
/// result up to the second. The samples before them reach over the front of the
/// input, and those behind them over its end.
fn interior(
    len: usize,
    out_len: usize,
    input_rate: usize,
    output_rate: usize,
    offsets: &Vec<usize>,
) -> (bounds: (usize, usize))
    requires
        input_rate > 0,
        output_rate > 0,
        out_len == resampled_len(len as int, input_rate as int, output_rate as int),
        are_offsets(offsets@, input_rate as int, output_rate as int),
    ensures
        bounds.0 <= bounds.1 <= out_len,
        forall|i: int|
            bounds.0 <= i < bounds.1 ==> {
                let idx = #[trigger] tap_index(i, input_rate as int, output_rate as int);
                1 <= idx && idx + 2 < len
            },
        forall|i: int|
            0 <= i < bounds.0 ==> #[trigger] tap_index(i, input_rate as int, output_rate as int)
                < 1,
        bounds.0 < out_len ==> tap_index(bounds.0 as int, input_rate as int, output_rate as int)
            >= 1,
        forall|i: int|
            bounds.1 <= i < out_len ==> #[trigger] tap_index(
                i,
                input_rate as int,
                output_rate as int,
            ) + 2 >= len,
{
    let mut head_end: usize = 0;
    while head_end < out_len && tap_at(head_end, input_rate, output_rate, offsets, Ghost(len as int))
        < 1
        invariant
            head_end <= out_len,
            input_rate > 0,
            output_rate > 0,
            out_len == resampled_len(len as int, input_rate as int, output_rate as int),
            are_offsets(offsets@, input_rate as int, output_rate as int),
            forall|i: int|
                0 <= i < head_end ==> #[trigger] tap_index(
                    i,
                    input_rate as int,
                    output_rate as int,
                ) < 1,
        ensures
            head_end <= out_len,
            head_end < out_len ==> tap_index(
                head_end as int,
                input_rate as int,
                output_rate as int,
            ) >= 1,
        decreases out_len - head_end,
    {
        head_end += 1;
    }
    let mut lo: usize = head_end;
    let mut hi: usize = out_len;
    while lo < hi
        invariant
            head_end <= lo <= hi <= out_len,
            input_rate > 0,
            output_rate > 0,
            out_len == resampled_len(len as int, input_rate as int, output_rate as int),
            are_offsets(offsets@, input_rate as int, output_rate as int),
            forall|i: int|
                head_end <= i < lo ==> #[trigger] tap_index(
                    i,
                    input_rate as int,
                    output_rate as int,
                ) + 2 < len,
            forall|i: int|
                hi <= i < out_len ==> #[trigger] tap_index(
                    i,
                    input_rate as int,
                    output_rate as int,
                ) + 2 >= len,
        decreases hi - lo,
    {
        let mid: usize = lo + (hi - lo) / 2;
        let idx: usize = tap_at(mid, input_rate, output_rate, offsets, Ghost(len as int));
        if len > 2 && idx < len - 2 {
            assert forall|i: int| head_end <= i < mid + 1 implies #[trigger] tap_index(
                i,
                input_rate as int,
                output_rate as int,
            ) + 2 < len by {
                law_taps_never_go_back(i, mid as int, input_rate as int, output_rate as int);
            }
            lo = mid + 1;
        } else {
            assert forall|i: int| mid <= i < out_len implies #[trigger] tap_index(
                i,
                input_rate as int,
                output_rate as int,
            ) + 2 >= len by {
                law_taps_never_go_back(mid as int, i, input_rate as int, output_rate as int);
            }
            hi = mid;
        }
    }
    assert forall|i: int| head_end <= i < lo implies {
        let idx = #[trigger] tap_index(i, input_rate as int, output_rate as int);
        1 <= idx && idx + 2 < len
    } by {
        law_taps_never_go_back(head_end as int, i, input_rate as int, output_rate as int);
    }
    (head_end, lo)
}

/// One output sample at either end, where the input has to be held inside.
fn mix_clamped<T: Copy, W: Copy, M: Fn(W, T, T, T, T) -> T>(
    data: &[T],
    i: usize,
    input_rate: usize,
    output_rate: usize,
    offsets: &Vec<usize>,
    weights: &Vec<W>,
    mix: &M,
) -> (value: T)
    requires
        input_rate > 0,
        output_rate > 0,
        i < resampled_len(data@.len() as int, input_rate as int, output_rate as int),
        are_offsets(offsets@, input_rate as int, output_rate as int),
        weights@.len() == output_rate,
        forall|w: W, a: T, b: T, c: T, d: T| mix.requires((w, a, b, c, d)),
    ensures
        is_mixed(
            data@,
            input_rate as int,
            output_rate as int,
            weights@,
            *mix,
            i as int,
            value,
        ),
{
    let idx: usize = tap_at(
        i,
        input_rate,
        output_rate,
        offsets,
        Ghost(data@.len() as int),
    );
    let last: usize = data.len() - 1;
    let before: usize = if idx > 0 {
        idx - 1
    } else {
        0
    };
    let next: usize = if idx < last {
        idx + 1
    } else {
        last
    };
    let second: usize = if next < last {
        next + 1
    } else {
        last
    };
    mix(weights[i % output_rate], data[before], data[idx], data[next], data[second])
}

/// Resamples `data` from `input_rate` to `output_rate`, four input samples to
/// each output sample. `weigh` gives the weights of a phase from its number and
/// the input sample at or before its position; `mix` applies them.
pub fn cubic_resample<T: Copy, W: Copy, F: Fn(usize, usize) -> W, M: Fn(W, T, T, T, T) -> T>(
    data: &[T],
    input_rate: usize,
    output_rate: usize,
    weigh: F,
    mix: &M,
) -> (out: Vec<T>)
    requires
        data@.len() > 0 && input_rate != output_rate ==> {
            &&& input_rate > 0
            &&& output_rate > 0
            &&& resampled_len(data@.len() as int, input_rate as int, output_rate as int)
                <= usize::MAX
        },
        forall|p: usize, offset: usize| p < output_rate ==> weigh.requires((p, offset)),
        forall|w: W, a: T, b: T, c: T, d: T| mix.requires((w, a, b, c, d)),
    ensures
        is_at_rate(data@, input_rate as int, output_rate as int, weigh, *mix, out@),
{
    if data.len() == 0 || input_rate == output_rate {
        return slice_to_vec(data);
    }
    proof {
        assert(data@.len() * output_rate <= u128::MAX) by (nonlinear_arith)
            requires
                data@.len() <= u64::MAX,
                output_rate <= u64::MAX,
        ;
    }
    let out_len: usize = (data.len() as u128 * output_rate as u128 / input_rate as u128) as usize;
    let (offsets, weights): (Vec<usize>, Vec<W>) = phase_tables(input_rate, output_rate, &weigh);
    let (head_end, tail_start): (usize, usize) = interior(
        data.len(),
        out_len,
        input_rate,
        output_rate,
        &offsets,
    );
    let mut out: Vec<T> = Vec::with_capacity(out_len);
    let ghost rate_in = input_rate as int;
    let ghost rate_out = output_rate as int;

    let mut i: usize = 0;
    while i < head_end
        invariant
            i <= head_end <= out_len,
            input_rate > 0,
            output_rate > 0,
            rate_in == input_rate,
            rate_out == output_rate,
            out_len == resampled_len(data@.len() as int, rate_in, rate_out),
            are_offsets(offsets@, rate_in, rate_out),
            weights@.len() == output_rate,
            forall|w: W, a: T, b: T, c: T, d: T| mix.requires((w, a, b, c, d)),
            out@.len() == i,
            forall|j: int|
                0 <= j < i ==> is_mixed(
                    data@,
                    rate_in,
                    rate_out,
                    weights@,
                    *mix,
                    j,
                    #[trigger] out@[j],
                ),
        decreases head_end - i,
    {
        let value: T = mix_clamped(data, i, input_rate, output_rate, &offsets, &weights, mix);
        out.push(value);
        i += 1;
    }
    // The interior walks whole phase cycles: no sample of it has to be held
    // inside, and the phase wraps only between two runs.
    let mut phase: usize = head_end % output_rate;
    if head_end < tail_start {
        proof {
            law_taps_go_by_cycles(head_end as int, rate_in, rate_out);
            law_taps_lie_inside(head_end as int, data@.len() as int, rate_in, rate_out);
            law_taps_go_by_cycles(head_end as int % rate_out, rate_in, rate_out);
        }
        let mut base: usize = head_end / output_rate * input_rate;
        while i < tail_start
            invariant
                head_end <= i <= tail_start <= out_len,
                data@.len() <= usize::MAX,
                input_rate > 0,
                output_rate > 0,
                rate_in == input_rate,
                rate_out == output_rate,
                out_len == resampled_len(data@.len() as int, rate_in, rate_out),
                are_offsets(offsets@, rate_in, rate_out),
                weights@.len() == output_rate,
                forall|w: W, a: T, b: T, c: T, d: T| mix.requires((w, a, b, c, d)),
                forall|j: int|
                    head_end <= j < tail_start ==> {
                        let idx = #[trigger] tap_index(j, rate_in, rate_out);
                        1 <= idx && idx + 2 < data@.len()
                    },
                i < tail_start ==> phase == i as int % rate_out,
                i < tail_start ==> base == i as int / rate_out * rate_in,
                out@.len() == i,
                forall|j: int|
                    0 <= j < i ==> is_mixed(
                        data@,
                        rate_in,
                        rate_out,
                        weights@,
                        *mix,
                        j,
                        #[trigger] out@[j],
                    ),
            decreases tail_start - i,
        {
            let left: usize = tail_start - i;
            let whole: usize = output_rate - phase;
            let run: usize = if left < whole {
                left
            } else {
                whole
            };
            let phase_end: usize = phase + run;
            let ghost first = i as int;
            let ghost first_phase = phase as int;
            let mut p: usize = phase;
            while p < phase_end
                invariant
                    first_phase <= p <= phase_end <= output_rate,
                    data@.len() <= usize::MAX,
                    phase_end - first_phase == run,
                    run <= tail_start - first,
                    head_end <= first < tail_start <= out_len,
                    first_phase == first % rate_out,
                    base == first / rate_out * rate_in,
                    input_rate > 0,
                    output_rate > 0,
                    rate_in == input_rate,
                    rate_out == output_rate,
                    out_len == resampled_len(data@.len() as int, rate_in, rate_out),
                    are_offsets(offsets@, rate_in, rate_out),
                    weights@.len() == output_rate,
                    forall|w: W, a: T, b: T, c: T, d: T| mix.requires((w, a, b, c, d)),
                    forall|j: int|
                        head_end <= j < tail_start ==> {
                            let idx = #[trigger] tap_index(j, rate_in, rate_out);
                            1 <= idx && idx + 2 < data@.len()
                        },
                    out@.len() == first + (p - first_phase),
                    forall|j: int|
                        0 <= j < out@.len() ==> is_mixed(
                            data@,
                            rate_in,
                            rate_out,
                            weights@,
                            *mix,
                            j,
                            #[trigger] out@[j],
                        ),
                decreases phase_end - p,
            {
                let ghost j = first + (p - first_phase);
                proof {
                    lemma_same_cycle(first, j, rate_out);
                    law_taps_go_by_cycles(j, rate_in, rate_out);
                    assert(offsets@[p as int] == tap_index(j % rate_out, rate_in, rate_out));
                    assert(tap_index(j, rate_in, rate_out) == base + offsets@[p as int]);
                }
                let at: usize = base + offsets[p];
                let value: T = mix(
                    weights[p],
                    data[at - 1],
                    data[at],
                    data[at + 1],
                    data[at + 2],
                );
                assert(is_mixed(data@, rate_in, rate_out, weights@, *mix, j, value));
                out.push(value);
                p += 1;
            }
            i += run;
            phase = phase_end;
            if phase == output_rate {
                phase = 0;
                proof {
                    lemma_next_cycle(first, i as int, rate_out);
                    if i < tail_start {
                        assert(tap_index(i as int, rate_in, rate_out) + 2 < data@.len());
                        law_taps_go_by_cycles(i as int, rate_in, rate_out);
                        law_taps_go_by_cycles(i as int % rate_out, rate_in, rate_out);
                        let cycle = first / rate_out;
                        assert((cycle + 1) * rate_in == base + rate_in) by (nonlinear_arith)
                            requires
                                base == cycle * rate_in,
                        ;
                    }
                }
                if i < tail_start {
                    base += input_rate;
                }
            } else {
                proof {
                    if i < tail_start {
                        lemma_same_cycle(first, i as int, rate_out);
                    }
                }
            }
        }
    }
    while i < out_len
        invariant
            i <= out_len,
            input_rate > 0,
            output_rate > 0,
            rate_in == input_rate,
            rate_out == output_rate,
            out_len == resampled_len(data@.len() as int, rate_in, rate_out),
            are_offsets(offsets@, rate_in, rate_out),
            weights@.len() == output_rate,
            forall|w: W, a: T, b: T, c: T, d: T| mix.requires((w, a, b, c, d)),
            out@.len() == i,
            forall|j: int|
                0 <= j < i ==> is_mixed(
                    data@,
                    rate_in,
                    rate_out,
                    weights@,
                    *mix,
                    j,
                    #[trigger] out@[j],
                ),
        decreases out_len - i,
    {
        let value: T = mix_clamped(data, i, input_rate, output_rate, &offsets, &weights, mix);
        out.push(value);
        i += 1;
    }
    assert(is_resampled(data@, rate_in, rate_out, weights@, weigh, *mix, out@));
    out
}

/// Numbers up to the end of the cycle of `first` lie in that cycle.
proof fn lemma_same_cycle(first: int, j: int, rate: int)
    requires
        0 <= first <= j,
        rate > 0,
        first % rate + (j - first) < rate,
    ensures
        j / rate == first / rate,
        j % rate == first % rate + (j - first),
{
    lemma_fundamental_div_mod(first, rate);
    lemma_mul_is_commutative(rate, first / rate);
    lemma_fundamental_div_mod_converse(j, rate, first / rate, first % rate + (j - first));
}

/// The number behind the end of the cycle of `first` begins the next cycle.
proof fn lemma_next_cycle(first: int, j: int, rate: int)
    requires
        0 <= first <= j,
        rate > 0,
        first % rate + (j - first) == rate,
    ensures
        j / rate == first / rate + 1,
        j % rate == 0,
{
    lemma_fundamental_div_mod(first, rate);
    assert(j == (first / rate + 1) * rate) by (nonlinear_arith)
        requires
            first == rate * (first / rate) + first % rate,
            first % rate + (j - first) == rate,
    ;
    lemma_fundamental_div_mod_converse(j, rate, first / rate + 1, 0);
}

/// Whether what `weigh` gives for a phase at a whole position makes `mix` hand on
/// the sample there, as far as `alike` can tell, for samples of `data`.
pub open spec fn keeps_whole_positions<
    T,
    W,
    F: Fn(usize, usize) -> W,
    M: Fn(W, T, T, T, T) -> T,
>(
    data: Seq<T>,
    input_rate: int,
    output_rate: int,
    weigh: F,
    mix: M,
    alike: spec_fn(T, T) -> bool,
) -> bool {
    &&& forall|i: int| 0 <= i < data.len() ==> #[trigger] alike(data[i], data[i])
    &&& forall|p: usize, offset: usize, w: W, a: T, b: T, c: T, d: T, value: T|
        #![trigger weigh.ensures((p, offset), w), mix.ensures((w, a, b, c, d), value)]
        p * input_rate == offset * output_rate && weigh.ensures((p, offset), w) && mix.ensures(
            (w, a, b, c, d),
            value,
        ) && data.contains(a) && data.contains(b) && data.contains(c) && data.contains(d) ==> alike(
            value,
            b,
        )
}

/// An output sample at a whole position is the input sample there.
proof fn lemma_whole_position<T, W, F: Fn(usize, usize) -> W, M: Fn(W, T, T, T, T) -> T>(
    data: Seq<T>,
    input_rate: int,
    output_rate: int,
    weights: Seq<W>,
    weigh: F,
    mix: M,
    alike: spec_fn(T, T) -> bool,
    out: Seq<T>,
    i: int,
    at: int,
)
    requires
        0 < input_rate <= usize::MAX,
        0 < output_rate <= usize::MAX,
        is_resampled(data, input_rate, output_rate, weights, weigh, mix, out),
        keeps_whole_positions(data, input_rate, output_rate, weigh, mix, alike),
        0 <= i < out.len(),
        i * input_rate == at * output_rate,
    ensures
        0 <= at < data.len(),
        alike(out[i], data[at]),
{
    let len = data.len() as int;
    let phase = i % output_rate;
    let cycle = i / output_rate;
    let offset = tap_index(phase, input_rate, output_rate);
    law_taps_go_by_cycles(i, input_rate, output_rate);
    law_taps_go_by_cycles(phase, input_rate, output_rate);
    law_taps_lie_inside(i, len, input_rate, output_rate);
    lemma_fundamental_div_mod_converse(i * input_rate, output_rate, at, 0);
    assert(tap_index(i, input_rate, output_rate) == at);
    lemma_fundamental_div_mod(i, output_rate);
    assert(phase * input_rate == offset * output_rate) by (nonlinear_arith)
        requires
            i == output_rate * cycle + phase,
            i * input_rate == at * output_rate,
            at == cycle * input_rate + offset,
    ;
    assert(phase * input_rate < output_rate * input_rate) by (nonlinear_arith)
        requires
            phase < output_rate,
            input_rate > 0,
    ;
    lemma_multiply_divide_lt(phase * input_rate, output_rate, input_rate);
    let (a, b, c, d) = taps(data, at);
    assert(is_mixed(data, input_rate, output_rate, weights, mix, i, out[i]));
    assert(weigh.ensures((phase as usize, offset as usize), weights[phase]));
    assert(mix.ensures((weights[phase], a, b, c, d), out[i]));
    assert(data.contains(a) && data.contains(b) && data.contains(c) && data.contains(d));
}

/// Taking every `k`-th sample is exact: at a rate `k` times lower, the output is
/// made of the input samples `k` apart.
pub proof fn law_decimation_is_exact<T, W, F: Fn(usize, usize) -> W, M: Fn(W, T, T, T, T) -> T>(
    data: Seq<T>,
    k: int,
    m: int,
    weigh: F,
    mix: M,
    alike: spec_fn(T, T) -> bool,
    out: Seq<T>,
)
    requires
        k >= 1,
        m >= 1,
        k * m <= usize::MAX,
        is_at_rate(data, k * m, m, weigh, mix, out),
        keeps_whole_positions(data, k * m, m, weigh, mix, alike),
    ensures
        out.len() == data.len() as int / k,
        forall|i: int| 0 <= i < out.len() ==> #[trigger] (i * k) < data.len(),
        forall|i: int| 0 <= i < out.len() ==> alike(#[trigger] out[i], data[i * k]),
{
    let len = data.len() as int;
    assert(k * m >= m && k * m >= k) by (nonlinear_arith)
        requires
            k >= 1,
            m >= 1,
    ;
    if len == 0 {
        lemma_basic_div(0, k);
    } else if k * m == m {
        assert(k == 1) by (nonlinear_arith)
            requires
                k * m == m,
                m >= 1,
        ;
        assert(len / 1 == len);
    } else {
        lemma_mul_is_commutative(len, m);
        lemma_mul_is_commutative(k, m);
        lemma_shared_factor(len, k, m);
    }
    assert forall|i: int| 0 <= i < out.len() implies #[trigger] (i * k) < data.len() && alike(
        out[i],
        data[i * k],
    ) by {
        if k * m == m {
            assert(k == 1) by (nonlinear_arith)
                requires
                    k * m == m,
                    m >= 1,
            ;
            assert(i * k == i) by (nonlinear_arith)
                requires
                    k == 1,
            ;
            assert(alike(data[i], data[i]));
        } else {
            let weights = choose|weights: Seq<W>| #[trigger]
                is_resampled(data, k * m, m, weights, weigh, mix, out);
            assert(i * (k * m) == (i * k) * m) by (nonlinear_arith);
            lemma_whole_position(data, k * m, m, weights, weigh, mix, alike, out, i, i * k);
        }
    }
}

/// A factor that both sides of a division share does not change it.
proof fn lemma_shared_factor(len: int, k: int, m: int)
    requires
        len >= 0,
        k > 0,
        m > 0,
    ensures
        (m * len) / (m * k) == len / k,
{
    let q = len / k;
    let r = len % k;
    lemma_fundamental_div_mod(len, k);
    assert(m * len == q * (m * k) + m * r && 0 <= m * r < m * k) by (nonlinear_arith)
        requires
            len == k * q + r,
            0 <= r < k,
            m > 0,
    ;
    lemma_fundamental_div_mod_converse(m * len, m * k, q, m * r);
}

/// Interpolation keeps the samples: at a rate `k` times higher, every `k`-th
/// output sample is an input sample.
pub proof fn law_interpolation_keeps_samples<
    T,
    W,
    F: Fn(usize, usize) -> W,
    M: Fn(W, T, T, T, T) -> T,
>(data: Seq<T>, k: int, weigh: F, mix: M, alike: spec_fn(T, T) -> bool, out: Seq<T>)
    requires
        1 <= k <= usize::MAX,
        is_at_rate(data, 1, k, weigh, mix, out),
        keeps_whole_positions(data, 1, k, weigh, mix, alike),
    ensures
        out.len() == data.len() * k,
        forall|i: int|
            0 <= i < data.len() ==> #[trigger] (i * k) < out.len() && alike(out[i * k], data[i]),
{
    let len = data.len() as int;
    if len == 0 || k == 1 {
        assert(len * k == len) by (nonlinear_arith)
            requires
                len == 0 || k == 1,
        ;
        assert forall|i: int| 0 <= i < data.len() implies #[trigger] (i * k) < out.len() && alike(
            out[i * k],
            data[i],
        ) by {
            assert(i * k == i) by (nonlinear_arith)
                requires
                    k == 1,
            ;
            assert(alike(data[i], data[i]));
        }
    } else {
        let weights = choose|weights: Seq<W>| #[trigger]
            is_resampled(data, 1, k, weights, weigh, mix, out);
        assert(len * k / 1 == len * k);
        assert forall|i: int| 0 <= i < data.len() implies #[trigger] (i * k) < out.len() && alike(
            out[i * k],
            data[i],
        ) by {
            assert(0 <= i * k && i * k < len * k) by (nonlinear_arith)
                requires
                    0 <= i < len,
                    k > 0,
            ;
            lemma_whole_position(data, 1, k, weights, weigh, mix, alike, out, i * k, i);
        }
    }
}

/// The samples of a signal at another rate take as long as those of the signal: one more
/// would take longer. Every one of them lies at or behind the input sample that it is
/// found at, and before the next.
pub proof fn law_rates_keep_time(len: int, i: int, input_rate: int, output_rate: int)
    requires
        len >= 0,
        i >= 0,
        input_rate > 0,
        output_rate > 0,
    ensures
        ({
            let count = resampled_len(len, input_rate, output_rate);
            let idx = tap_index(i, input_rate, output_rate);
            &&& count * input_rate <= len * output_rate < (count + 1) * input_rate
            &&& idx * output_rate <= i * input_rate < (idx + 1) * output_rate
        }),
        len_at_rate(len, input_rate, input_rate) == len,
        len > 0 && input_rate != output_rate ==> len_at_rate(len, input_rate, output_rate)
            == resampled_len(len, input_rate, output_rate),
        len_at_rate(0, input_rate, output_rate) == 0,
{
    let total = len * output_rate;
    let at = i * input_rate;
    lemma_fundamental_div_mod(total, input_rate);
    lemma_fundamental_div_mod(at, output_rate);
    let count = total / input_rate;
    let idx = at / output_rate;
    assert(count * input_rate <= total < (count + 1) * input_rate) by (nonlinear_arith)
        requires
            total == input_rate * count + total % input_rate,
            0 <= total % input_rate < input_rate,
    ;
    assert(idx * output_rate <= at < (idx + 1) * output_rate) by (nonlinear_arith)
        requires
            at == output_rate * idx + at % output_rate,
            0 <= at % output_rate < output_rate,
    ;
}

/// The samples around a position are the one before it, the one at it and the two behind
/// it, in this order; those that would lie outside are the sample at that end.
pub proof fn law_taps_are_neighbours<T>(data: Seq<T>, idx: int)
    requires
        0 <= idx < data.len(),
    ensures
        ({
            let (before, at, next, last) = taps(data, idx);
            let len = data.len() as int;
            &&& at == data[idx]
            &&& before == if idx >= 1 {
                data[idx - 1]
            } else {
                data[0]
            }
            &&& next == if idx + 1 < len {
                data[idx + 1]
            } else {
                data[len - 1]
            }
            &&& last == if idx + 2 < len {
                data[idx + 2]
            } else {
                data[len - 1]
            }
        }),
        forall|beyond: int|
            #![trigger clamped(beyond, data.len() as int)]
            {
                &&& beyond < 0 ==> clamped(beyond, data.len() as int) == 0
                &&& beyond >= data.len() ==> clamped(beyond, data.len() as int) == data.len() - 1
                &&& 0 <= beyond < data.len() ==> clamped(beyond, data.len() as int) == beyond
            },
{
}

/// A sample at another rate is mixed of the four input samples around its position, with
/// the weights that belong to its place between two of them: those of its phase, which
/// comes back every `output_rate` samples. At the same rate, a signal stays as it is.
pub proof fn law_samples_are_mixed_of_neighbours<
    T,
    W,
    F: Fn(usize, usize) -> W,
    M: Fn(W, T, T, T, T) -> T,
>(
    input: Seq<T>,
    input_rate: int,
    output_rate: int,
    weigh: F,
    mix: M,
    output: Seq<T>,
    i: int,
    at: int,
    phase: int,
    offset: int,
    cycle: int,
)
    requires
        0 < input_rate <= usize::MAX,
        0 < output_rate <= usize::MAX,
        is_at_rate(input, input_rate, output_rate, weigh, mix, output),
        0 <= i < output.len(),
        // The input sample at or before the position.
        at * output_rate <= i * input_rate < (at + 1) * output_rate,
        // The place in a cycle, and the input sample there.
        i == cycle * output_rate + phase,
        0 <= phase < output_rate,
        offset * output_rate <= phase * input_rate < (offset + 1) * output_rate,
    ensures
        input_rate == output_rate ==> output == input,
        input_rate != output_rate ==> {
            &&& 0 <= at < input.len()
            &&& exists|w: W| #[trigger]
                weigh.ensures((phase as usize, offset as usize), w) && mix.ensures(
                    (w, taps(input, at).0, taps(input, at).1, taps(input, at).2, taps(input, at).3),
                    output[i],
                )
        },
{
    if input_rate != output_rate && input.len() > 0 {
        let weights = choose|weights: Seq<W>| #[trigger]
            is_resampled(input, input_rate, output_rate, weights, weigh, mix, output);
        let idx = tap_index(i, input_rate, output_rate);
        let off = tap_index(phase, input_rate, output_rate);
        law_rates_keep_time(input.len() as int, i, input_rate, output_rate);
        law_rates_keep_time(input.len() as int, phase, input_rate, output_rate);
        law_taps_lie_inside(i, input.len() as int, input_rate, output_rate);
        assert(idx == at) by (nonlinear_arith)
            requires
                at * output_rate <= i * input_rate < (at + 1) * output_rate,
                idx * output_rate <= i * input_rate < (idx + 1) * output_rate,
                output_rate > 0,
        ;
        assert(off == offset) by (nonlinear_arith)
            requires
                offset * output_rate <= phase * input_rate < (offset + 1) * output_rate,
                off * output_rate <= phase * input_rate < (off + 1) * output_rate,
                output_rate > 0,
        ;
        lemma_fundamental_div_mod_converse(i, output_rate, cycle, phase);
        assert(is_mixed(input, input_rate, output_rate, weights, mix, i, output[i]));
        assert(weigh.ensures((phase as usize, offset as usize), weights[phase]));
    }
}

} // verus!
