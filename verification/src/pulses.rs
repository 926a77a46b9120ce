//! Finding sync pulses: stretches of the signal at or below a threshold.
use crate::double::{law_whole_numbers_are_near, saturated, unit, Double, Single};
use vstd::arithmetic::power2::lemma_pow2_pos;
use vstd::prelude::*;
use vstd::slice::slice_subrange;

verus! {

/// Whether the signal is in a pulse before sample `k`. A sample above the
/// threshold ends a pulse, one at or below it begins one; a sample that is no
/// number does neither.
pub open spec fn in_pulse(signal: Seq<Single>, high: Single, k: int) -> bool
    decreases k,
{
    if k <= 0 {
        signal[0].at_most(high)
    } else if in_pulse(signal, high, k - 1) {
        !high.below(signal[k - 1])
    } else {
        signal[k - 1].at_most(high)
    }
}

/// Where the last pulse before sample `k` began; zero before any.
pub open spec fn pulse_start(signal: Seq<Single>, high: Single, k: int) -> int
    decreases k,
{
    if k <= 0 {
        0
    } else if !in_pulse(signal, high, k - 1) && in_pulse(signal, high, k) {
        k - 1
    } else {
        pulse_start(signal, high, k - 1)
    }
}

/// The first sample and the length of every pulse that ends before sample `k`
/// and is of a length from `least` to `most`. A pulse that the signal begins
/// with is not counted.
pub open spec fn pulses(
    signal: Seq<Single>,
    high: Single,
    least: int,
    most: int,
    k: int,
) -> Seq<(int, int)>
    decreases k,
{
    if k <= 0 {
        Seq::empty()
    } else {
        let found = pulses(signal, high, least, most, k - 1);
        let start = pulse_start(signal, high, k - 1);
        let length = k - 1 - start;
        if in_pulse(signal, high, k - 1) && !in_pulse(signal, high, k) && least <= length <= most
            && start != 0 {
            found.push((start, length))
        } else {
            found
        }
    }
}

/// Whether `starts` and `lengths` list `found`.
pub open spec fn lists(starts: Seq<i64>, lengths: Seq<i64>, found: Seq<(int, int)>) -> bool {
    &&& starts.len() == found.len()
    &&& lengths.len() == found.len()
    &&& forall|i: int|
        0 <= i < found.len() ==> (#[trigger] starts[i]) as int == found[i].0
            && lengths[i] as int == found[i].1
}

/// Whether some sample lies on the given side of the threshold: above it, or at
/// or below it.
pub fn chunk_crosses(chunk: &[Single], high: Single, above: bool) -> (crosses: bool)
    ensures
        crosses == exists|i: int|
            0 <= i < chunk@.len() && if above {
                high.below(#[trigger] chunk@[i])
            } else {
                chunk@[i].at_most(high)
            },
{
    let mut i: usize = 0;
    while i < chunk.len()
        invariant
            i <= chunk@.len(),
            forall|j: int|
                0 <= j < i ==> !if above {
                    high.below(#[trigger] chunk@[j])
                } else {
                    chunk@[j].at_most(high)
                },
        decreases chunk@.len() - i,
    {
        let value: Single = chunk[i];
        if above {
            if high.lt(value) {
                assert(high.below(chunk@[i as int]));
                return true;
            }
        } else if value.le(high) {
            assert(chunk@[i as int].at_most(high));
            return true;
        }
        i += 1;
    }
    false
}

/// A stretch without a crossing changes nothing.
proof fn lemma_no_crossing(
    signal: Seq<Single>,
    high: Single,
    least: int,
    most: int,
    from: int,
    to: int,
)
    requires
        0 <= from <= to <= signal.len(),
        forall|j: int|
            from <= j < to ==> !if in_pulse(signal, high, from) {
                high.below(#[trigger] signal[j])
            } else {
                signal[j].at_most(high)
            },
    ensures
        in_pulse(signal, high, to) == in_pulse(signal, high, from),
        pulse_start(signal, high, to) == pulse_start(signal, high, from),
        pulses(signal, high, least, most, to) == pulses(signal, high, least, most, from),
    decreases to - from,
{
    if from < to {
        lemma_no_crossing(signal, high, least, most, from, to - 1);
    }
}

/// The pulse that the signal is in before sample `k` began before it.
proof fn lemma_start_before(signal: Seq<Single>, high: Single, k: int)
    requires
        0 <= k,
    ensures
        0 <= pulse_start(signal, high, k) <= k,
        k > 0 ==> pulse_start(signal, high, k) < k,
    decreases k,
{
    if k > 0 {
        lemma_start_before(signal, high, k - 1);
    }
}

/// Samples that are tested for a crossing in one go.
pub const CHUNK: usize = 64;

/// The least and the greatest whole number between `min` and `max`; an empty
/// range where either is no number.
pub open spec fn length_bounds(min: Double, max: Double) -> (int, int) {
    if min.nan() || max.nan() {
        (1, 0)
    } else {
        (min.ceil(), max.floor())
    }
}

/// Finds the sync pulses in a signal: their first samples and their lengths.
pub fn findpulses_raw(
    sync_ref: &[Single],
    high: Single,
    min_synclen: Double,
    max_synclen: Double,
) -> (found: (Vec<i64>, Vec<i64>))
    requires
        0 < sync_ref@.len() < i64::MAX,
    ensures
        lists(
            found.0@,
            found.1@,
            pulses(
                sync_ref@,
                high,
                length_bounds(min_synclen, max_synclen).0,
                length_bounds(min_synclen, max_synclen).1,
                sync_ref@.len() as int,
            ),
        ),
{
    let ghost (least, most) = length_bounds(min_synclen, max_synclen);
    let numbers: bool = !min_synclen.is_nan() && !max_synclen.is_nan();
    let shortest: i64 = if numbers {
        min_synclen.ceil_to_i64()
    } else {
        1
    };
    let longest: i64 = if numbers {
        max_synclen.floor_to_i64()
    } else {
        0
    };
    let mut inside: bool = sync_ref[0].le(high);
    let mut starts: Vec<i64> = Vec::new();
    let mut lengths: Vec<i64> = Vec::new();
    let mut cur_start: usize = 0;
    // The signal crosses the threshold rarely, so whole chunks are tested for
    // a crossing first, and only those with one are gone through.
    let mut pos: usize = 0;
    let n: usize = sync_ref.len();
    while pos < n
        invariant
            pos <= n,
            n == sync_ref@.len(),
            0 < n < i64::MAX,
            shortest == saturated(least),
            longest == saturated(most),
            inside == in_pulse(sync_ref@, high, pos as int),
            cur_start == pulse_start(sync_ref@, high, pos as int),
            lists(starts@, lengths@, pulses(sync_ref@, high, least, most, pos as int)),
        decreases n - pos,
    {
        let end: usize = if n - pos > CHUNK {
            pos + CHUNK
        } else {
            n
        };
        let chunk: &[Single] = slice_subrange(sync_ref, pos, end);
        if !chunk_crosses(chunk, high, inside) {
            proof {
                assert forall|j: int| pos <= j < end implies !if inside {
                    high.below(#[trigger] sync_ref@[j])
                } else {
                    sync_ref@[j].at_most(high)
                } by {
                    assert(sync_ref@[j] == chunk@[j - pos]);
                }
                lemma_no_crossing(sync_ref@, high, least, most, pos as int, end as int);
            }
            pos = end;
            continue;
        }
        let mut k: usize = pos;
        while k < end
            invariant
                pos <= k <= end <= n,
                n == sync_ref@.len(),
                0 < n < i64::MAX,
                shortest == saturated(least),
                longest == saturated(most),
                inside == in_pulse(sync_ref@, high, k as int),
                cur_start == pulse_start(sync_ref@, high, k as int),
                lists(starts@, lengths@, pulses(sync_ref@, high, least, most, k as int)),
            decreases end - k,
        {
            let value: Single = sync_ref[k];
            proof {
                lemma_start_before(sync_ref@, high, k as int);
            }
            if inside {
                if high.lt(value) {
                    let length: i64 = (k - cur_start) as i64;
                    if length >= shortest && length <= longest && cur_start != 0 {
                        starts.push(cur_start as i64);
                        lengths.push(length);
                    }
                    inside = false;
                }
            } else if value.le(high) {
                cur_start = k;
                inside = true;
            }
            assert(inside == in_pulse(sync_ref@, high, k + 1));
            k += 1;
        }
        pos = end;
    }
    (starts, lengths)
}

/// What is reported as a pulse is one: it does not begin the signal, its length
/// is allowed, the signal was in no pulse before it, it begins at or below the
/// threshold, no sample of it is above, and the sample behind it is.
pub proof fn law_pulses_are_pulses(
    signal: Seq<Single>,
    high: Single,
    least: int,
    most: int,
    k: int,
    i: int,
)
    requires
        0 <= k <= signal.len(),
        0 <= i < pulses(signal, high, least, most, k).len(),
    ensures
        ({
            let (start, length) = pulses(signal, high, least, most, k)[i];
            &&& 0 < start && start + length < k
            &&& least <= length <= most
            &&& !in_pulse(signal, high, start)
            &&& signal[start].at_most(high)
            &&& forall|j: int|
                start <= j < start + length ==> !high.below(#[trigger] signal[j])
            &&& high.below(signal[start + length])
        }),
    decreases k,
{
    let found = pulses(signal, high, least, most, k - 1);
    if i < found.len() {
        law_pulses_are_pulses(signal, high, least, most, k - 1, i);
    } else {
        lemma_start_before(signal, high, k - 1);
        lemma_inside_since_start(signal, high, k - 1);
    }
}

/// Every pulse is reported: a stretch that the signal enters at or below the
/// threshold at sample `start`, stays not above in, and leaves at sample `end`,
/// if its length is allowed.
pub proof fn law_pulses_are_found(
    signal: Seq<Single>,
    high: Single,
    least: int,
    most: int,
    k: int,
    start: int,
    end: int,
)
    requires
        0 < start < end < k <= signal.len(),
        !in_pulse(signal, high, start),
        signal[start].at_most(high),
        forall|j: int| start <= j < end ==> !high.below(#[trigger] signal[j]),
        high.below(signal[end]),
        least <= end - start <= most,
    ensures
        pulses(signal, high, least, most, k).contains((start, end - start)),
    decreases k,
{
    if k > end + 1 {
        law_pulses_are_found(signal, high, least, most, k - 1, start, end);
        let found = pulses(signal, high, least, most, k - 1);
        let i = choose|i: int| 0 <= i < found.len() && found[i] == (start, end - start);
        assert(pulses(signal, high, least, most, k)[i] == (start, end - start));
    } else {
        lemma_inside_from(signal, high, start, end);
        let found = pulses(signal, high, least, most, k);
        assert(found.last() == (start, end - start));
    }
}

/// A pulse goes on as long as no sample is above the threshold.
proof fn lemma_inside_from(signal: Seq<Single>, high: Single, start: int, k: int)
    requires
        0 < start < k <= signal.len(),
        !in_pulse(signal, high, start),
        signal[start].at_most(high),
        forall|j: int| start <= j < k ==> !high.below(#[trigger] signal[j]),
    ensures
        in_pulse(signal, high, k),
        pulse_start(signal, high, k) == start,
    decreases k,
{
    if k > start + 1 {
        lemma_inside_from(signal, high, start, k - 1);
    }
    assert(!high.below(signal[k - 1]));
}

/// In a pulse, no sample since its start is above the threshold, and there was no
/// pulse right before it.
proof fn lemma_inside_since_start(signal: Seq<Single>, high: Single, k: int)
    requires
        0 <= k <= signal.len(),
        in_pulse(signal, high, k),
        pulse_start(signal, high, k) > 0,
    ensures
        ({
            let start = pulse_start(signal, high, k);
            &&& start < k
            &&& !in_pulse(signal, high, start)
            &&& signal[start].at_most(high)
            &&& forall|j: int| start <= j < k ==> !high.below(#[trigger] signal[j])
        }),
    decreases k,
{
    if in_pulse(signal, high, k - 1) {
        lemma_inside_since_start(signal, high, k - 1);
    }
}

/// Pulses are reported in order, and each ends before the next begins.
pub proof fn law_pulses_are_ordered(
    signal: Seq<Single>,
    high: Single,
    least: int,
    most: int,
    k: int,
    i: int,
    j: int,
)
    requires
        0 <= k <= signal.len(),
        0 <= i < j < pulses(signal, high, least, most, k).len(),
    ensures
        ({
            let found = pulses(signal, high, least, most, k);
            found[i].0 + found[i].1 < found[j].0
        }),
    decreases k,
{
    let found = pulses(signal, high, least, most, k - 1);
    if j < found.len() {
        law_pulses_are_ordered(signal, high, least, most, k - 1, i, j);
    } else {
        lemma_last_end_before(signal, high, least, most, k - 1, i);
    }
}

/// Reported pulses end before the pulse that the signal is in begins.
proof fn lemma_last_end_before(
    signal: Seq<Single>,
    high: Single,
    least: int,
    most: int,
    k: int,
    i: int,
)
    requires
        0 <= k <= signal.len(),
        0 <= i < pulses(signal, high, least, most, k).len(),
    ensures
        ({
            let (start, length) = pulses(signal, high, least, most, k)[i];
            &&& in_pulse(signal, high, k) ==> start + length < pulse_start(signal, high, k)
            &&& !in_pulse(signal, high, k) ==> start + length < k
        }),
    decreases k,
{
    let found = pulses(signal, high, least, most, k - 1);
    if i < found.len() {
        lemma_last_end_before(signal, high, least, most, k - 1, i);
        lemma_start_before(signal, high, k - 1);
    }
}

/// The signal is in a pulse exactly if some sample before was at or below the threshold,
/// and none since was above.
pub proof fn law_pulses_last_until_a_sample_above(signal: Seq<Single>, high: Single, k: int)
    requires
        0 < k <= signal.len(),
    ensures
        in_pulse(signal, high, k) <==> exists|j: int|
            0 <= j < k && (#[trigger] signal[j]).at_most(high) && none_above(signal, high, j, k),
    decreases k,
{
    if k > 1 {
        law_pulses_last_until_a_sample_above(signal, high, k - 1);
        if in_pulse(signal, high, k - 1) {
            let j = choose|j: int|
                0 <= j < k - 1 && (#[trigger] signal[j]).at_most(high) && none_above(
                    signal,
                    high,
                    j,
                    k - 1,
                );
            if !high.below(signal[k - 1]) {
                assert(none_above(signal, high, j, k));
                assert(signal[j].at_most(high));
            } else {
                assert forall|j: int|
                    0 <= j < k && (#[trigger] signal[j]).at_most(high) implies !none_above(
                    signal,
                    high,
                    j,
                    k,
                ) by {
                    if j < k - 1 {
                        assert(high.below(signal[k - 1]));
                    }
                }
            }
        } else if signal[k - 1].at_most(high) {
            assert(none_above(signal, high, k - 1, k));
        } else {
            assert forall|j: int|
                0 <= j < k && (#[trigger] signal[j]).at_most(high) implies !none_above(
                signal,
                high,
                j,
                k,
            ) by {
                if none_above(signal, high, j, k) && j < k - 1 {
                    assert(none_above(signal, high, j, k - 1));
                }
            }
        }
    } else {
        assert(in_pulse(signal, high, 0) == signal[0].at_most(high));
        if in_pulse(signal, high, 1) {
            assert(none_above(signal, high, 0, 1));
            assert(signal[0].at_most(high));
        }
    }
}

/// Whether no sample between the samples `from` and `to` is above the threshold.
pub open spec fn none_above(signal: Seq<Single>, high: Single, from: int, to: int) -> bool {
    forall|i: int| from < i < to ==> !high.below(#[trigger] signal[i])
}

/// A length is allowed exactly if it lies between the two given numbers, both included;
/// none is where one of them is no number.
pub proof fn law_lengths_lie_between_the_bounds(min: Double, max: Double, length: int)
    ensures
        length_bounds(min, max).0 <= length <= length_bounds(min, max).1 <==> !min.nan()
            && !max.nan() && min.steps() <= length * unit() && length * unit() <= max.steps(),
{
    law_whole_numbers_are_near(min);
    law_whole_numbers_are_near(max);
    lemma_pow2_pos(1074);
    let one = unit();
    let least = min.ceil();
    let most = max.floor();
    assert((least <= length ==> least * one <= length * one) && (length < least ==> length * one
        <= (least - 1) * one) && (length <= most ==> length * one <= most * one) && (most < length
        ==> (most + 1) * one <= length * one)) by (nonlinear_arith)
        requires
            one > 0,
    ;
}

} // verus!
