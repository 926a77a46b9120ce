//! Decisions on spectra: which bins make the analytic signal, and which bin
//! holds the colour carrier.
use crate::double::{
    law_order_is_numeric, law_single_order_is_numeric, Double, Single, DOUBLE_INFINITY,
    DOUBLE_SIGN,
};
use vstd::prelude::*;

verus! {

/// What becomes of a bin on the way to the analytic signal.
#[derive(Clone, Copy, Debug, PartialEq, Eq, Structural)]
pub enum BinRole {
    Keep,
    Double,
    Clear,
}

/// The part of bin `k` of `n`: bins of positive frequency count twice, those of
/// negative frequency not at all; the constant bin and the bin of half the
/// sampling rate, which have no counterpart, stay.
pub open spec fn role(k: int, n: int) -> BinRole {
    if k == 0 || 2 * k == n {
        BinRole::Keep
    } else if 2 * k < n {
        BinRole::Double
    } else {
        BinRole::Clear
    }
}

/// A bin that counts twice has a counterpart that does not count, and the other
/// way round.
pub proof fn law_bins_pair_up(k: int, n: int)
    requires
        0 < k < n,
    ensures
        role(k, n) == BinRole::Double <==> role(n - k, n) == BinRole::Clear,
        role(k, n) == BinRole::Keep <==> role(n - k, n) == BinRole::Keep,
{
}

/// Whether `analytic` is the spectrum of the analytic signal of a real signal, whose
/// spectrum is `spectrum`.
pub open spec fn is_analytic<C, F: Fn(C) -> C>(
    spectrum: Seq<C>,
    twice: F,
    zero: C,
    analytic: Seq<C>,
) -> bool {
    &&& analytic.len() == spectrum.len()
    &&& forall|k: int|
        0 <= k < spectrum.len() ==> match role(k, spectrum.len() as int) {
            BinRole::Keep => #[trigger] analytic[k] == spectrum[k],
            BinRole::Double => twice.ensures((spectrum[k],), analytic[k]),
            BinRole::Clear => analytic[k] == zero,
        }
}

/// Turns the spectrum of a real signal into that of its analytic signal.
pub fn hilbert<C: Copy, F: Fn(C) -> C>(spectrum: Vec<C>, twice: F, zero: C) -> (analytic: Vec<C>)
    requires
        forall|bin: C| twice.requires((bin,)),
    ensures
        is_analytic(spectrum@, twice, zero, analytic@),
{
    let n: usize = spectrum.len();
    let mut analytic: Vec<C> = Vec::with_capacity(n);
    let mut k: usize = 0;
    while k < n
        invariant
            k <= n,
            n == spectrum@.len(),
            forall|bin: C| twice.requires((bin,)),
            analytic@.len() == k,
            forall|j: int|
                0 <= j < k ==> match role(j, n as int) {
                    BinRole::Keep => #[trigger] analytic@[j] == spectrum@[j],
                    BinRole::Double => twice.ensures((spectrum@[j],), analytic@[j]),
                    BinRole::Clear => analytic@[j] == zero,
                },
        decreases n - k,
    {
        // The distance to the end tells the sign of a frequency.
        if k == 0 || k == n - k {
            analytic.push(spectrum[k]);
        } else if k < n - k {
            analytic.push(twice(spectrum[k]));
        } else {
            analytic.push(zero);
        }
        k += 1;
    }
    analytic
}

/// Why no carrier was found.
#[derive(Clone, Copy, Debug, PartialEq, Eq, Structural)]
pub enum CarrierError {
    /// There are fewer than three samples.
    TooFewSamples,
    /// No bin of positive frequency has two such neighbours.
    NoInteriorBins,
    /// No such bin stands out at a finite distance.
    NoPeak,
}

/// The number of the first bin of negative frequency.
pub open spec fn positive_end(len: int) -> int {
    (len + 1) / 2
}

/// Bit pattern of negative infinity.
pub const SINGLE_LEAST: u32 = 0xFF80_0000;

/// The greatest of the first `count` values, passing over those that are no
/// numbers; negative infinity where there are none. Of equal values, the first.
pub open spec fn greatest(values: Seq<Single>, count: int) -> Single
    decreases count,
{
    if count <= 0 {
        Single { bits: SINGLE_LEAST }
    } else {
        let rest = greatest(values, count - 1);
        if rest.below(values[count - 1]) {
            values[count - 1]
        } else {
            rest
        }
    }
}

fn find_greatest(values: &[Single]) -> (most: Single)
    ensures
        most == greatest(values@, values@.len() as int),
{
    let mut most = Single { bits: SINGLE_LEAST };
    let mut k: usize = 0;
    while k < values.len()
        invariant
            k <= values@.len(),
            most == greatest(values@, k as int),
        decreases values@.len() - k,
    {
        if most.lt(values[k]) {
            most = values[k];
        }
        k += 1;
    }
    most
}

/// Whether bin `k` stands out from both its neighbours among the bins of
/// positive frequency, the constant bin left out.
pub open spec fn is_peak(power: Seq<Single>, low: Single, high: Single, k: int) -> bool {
    &&& 2 <= k < positive_end(power.len() as int) - 1
    &&& power[k - 1].clipped(low, high).below(power[k].clipped(low, high))
    &&& power[k + 1].clipped(low, high).below(power[k].clipped(low, high))
}

/// Whether `k` is, of the peaks before bin `bound`, the first of those at the
/// least finite distance.
pub open spec fn is_nearest_peak(
    power: Seq<Single>,
    low: Single,
    high: Single,
    distances: Seq<Double>,
    bound: int,
    k: int,
) -> bool {
    &&& is_peak(power, low, high, k)
    &&& k < bound
    &&& distances[k].below(Double { bits: DOUBLE_INFINITY })
    &&& forall|j: int| #[trigger]
        is_peak(power, low, high, j) && j < bound ==> {
            &&& !distances[j].below(distances[k])
            &&& j < k && !distances[j].nan() ==> distances[k].below(distances[j])
        }
}

/// Whether no peak before bin `bound` is at a finite distance.
pub open spec fn has_no_peak(
    power: Seq<Single>,
    low: Single,
    high: Single,
    distances: Seq<Double>,
    bound: int,
) -> bool {
    forall|j: int| #[trigger]
        is_peak(power, low, high, j) && j < bound ==> !distances[j].below(
            Double { bits: DOUBLE_INFINITY },
        )
}

/// Whether bin `j` is off by `off`: `gap` of what `frequency` gives for it.
pub open spec fn is_distance<F: Fn(isize) -> Double, G: Fn(Double) -> Double>(
    frequency: F,
    gap: G,
    j: int,
    off: Double,
) -> bool {
    exists|at: Double|
        frequency.ensures((j as isize,), at) && #[trigger] gap.ensures((at,), off)
}

/// Whether `distances` holds the distance of every peak before bin `bound`.
pub open spec fn are_distances<F: Fn(isize) -> Double, G: Fn(Double) -> Double>(
    power: Seq<Single>,
    low: Single,
    high: Single,
    frequency: F,
    gap: G,
    distances: Seq<Double>,
    bound: int,
) -> bool {
    &&& distances.len() == power.len()
    &&& forall|j: int| #[trigger]
        is_peak(power, low, high, j) && j < bound ==> is_distance(
            frequency,
            gap,
            j,
            distances[j],
        )
}

/// The number of a bin, where there is one.
pub open spec fn number_of(bin: Option<usize>) -> Option<int> {
    match bin {
        Some(k) => Some(k as int),
        None => None,
    }
}

/// Whether `bin` is what a search for the carrier comes to, where the least power
/// that counts is `low` and the peaks are off by `distances`.
pub open spec fn is_carrier_search<
    C: Fn(Single) -> Single,
    F: Fn(isize) -> Double,
    G: Fn(Double) -> Double,
>(
    power: Seq<Single>,
    threshold: C,
    frequency: F,
    gap: G,
    low: Single,
    distances: Seq<Double>,
    bin: Option<int>,
) -> bool {
    let high = greatest(power, power.len() as int);
    let end = positive_end(power.len() as int);
    &&& threshold.ensures((high,), low)
    &&& are_distances(power, low, high, frequency, gap, distances, end)
    &&& match bin {
        Some(k) => is_nearest_peak(power, low, high, distances, end, k),
        None => has_no_peak(power, low, high, distances, end),
    }
}

/// The peak of a power spectrum nearest to where the carrier should be.
fn nearest_peak<C: Fn(Single) -> Single, F: Fn(isize) -> Double, G: Fn(Double) -> Double>(
    power: &[Single],
    threshold: &C,
    frequency: &F,
    gap: &G,
) -> (bin: Option<usize>)
    requires
        5 <= power@.len() < isize::MAX,
        threshold.requires((greatest(power@, power@.len() as int),)),
        forall|at: isize| -power@.len() < at < power@.len() ==> frequency.requires((at,)),
        forall|at: Double| gap.requires((at,)),
    ensures
        exists|low: Single, distances: Seq<Double>| #[trigger]
            is_carrier_search(
                power@,
                *threshold,
                *frequency,
                *gap,
                low,
                distances,
                number_of(bin),
            ),
        bin matches Some(k) ==> k < power@.len(),
{
    let len: usize = power.len();
    let high: Single = find_greatest(power);
    let low: Single = threshold(high);
    let end: usize = len / 2 + len % 2;
    let mut nearest: Option<usize> = None;
    let mut least = Double { bits: DOUBLE_INFINITY };
    let ghost mut distances: Seq<Double> = Seq::new(
        power@.len(),
        |j: int| Double { bits: DOUBLE_INFINITY },
    );
    let mut k: usize = 2;
    while k < end - 1
        invariant
            2 <= k <= end - 1,
            end == positive_end(power@.len() as int),
            end <= power@.len() < isize::MAX,
            forall|at: isize| -power@.len() < at < power@.len() ==> frequency.requires((at,)),
            forall|at: Double| gap.requires((at,)),
            are_distances(power@, low, high, *frequency, *gap, distances, k as int),
            match nearest {
                Some(best) => {
                    &&& is_nearest_peak(power@, low, high, distances, k as int, best as int)
                    &&& least == distances[best as int]
                },
                None => {
                    &&& has_no_peak(power@, low, high, distances, k as int)
                    &&& least == (Double { bits: DOUBLE_INFINITY })
                },
            },
        decreases end - k,
    {
        let here: Single = power[k].clip(low, high);
        let before: Single = power[k - 1].clip(low, high);
        let behind: Single = power[k + 1].clip(low, high);
        let ghost known = distances;
        if before.lt(here) && behind.lt(here) {
            let off: Double = gap(frequency(k as isize));
            proof {
                distances = distances.update(k as int, off);
            }
            assert(is_distance(*frequency, *gap, k as int, off));
            if off.lt(least) {
                least = off;
                nearest = Some(k);
            }
        }
        assert(forall|j: int| 0 <= j < k ==> distances[j] == known[j]);
        k += 1;
    }
    assert(are_distances(power@, low, high, *frequency, *gap, distances, end as int));
    assert(is_carrier_search(
        power@,
        *threshold,
        *frequency,
        *gap,
        low,
        distances,
        number_of(nearest),
    ));
    nearest
}

/// The frequency of bin `k` of `len`, in bins: those in the second half are
/// negative.
pub open spec fn signed_bin(k: int, len: int) -> int {
    if k < positive_end(len) {
        k
    } else {
        k - len
    }
}

/// Whether what `frequency` gives for bin `k` of `len` is `carrier`, or is not.
pub open spec fn bin_is<F: Fn(isize) -> Double>(
    frequency: F,
    k: int,
    len: int,
    carrier: Double,
    answer: bool,
) -> bool {
    exists|at: Double| #[trigger]
        frequency.ensures((signed_bin(k, len) as isize,), at) && at.same(carrier) == answer
}

/// Whether `bin` is the first of `len` bins whose frequency is `carrier`.
pub open spec fn is_carrier_bin<F: Fn(isize) -> Double>(
    frequency: F,
    len: int,
    carrier: Double,
    bin: Option<int>,
) -> bool {
    match bin {
        Some(k) => {
            &&& 0 <= k < len
            &&& bin_is(frequency, k, len, carrier, true)
            &&& forall|j: int| 0 <= j < k ==> #[trigger] bin_is(frequency, j, len, carrier, false)
        },
        None => forall|j: int|
            0 <= j < len ==> #[trigger] bin_is(frequency, j, len, carrier, false),
    }
}

/// The first bin whose frequency is `carrier`.
fn carrier_bin<F: Fn(isize) -> Double>(len: usize, frequency: &F, carrier: Double) -> (bin: Option<
    usize,
>)
    requires
        len < isize::MAX,
        forall|at: isize| -len < at < len ==> frequency.requires((at,)),
    ensures
        is_carrier_bin(
            *frequency,
            len as int,
            carrier,
            number_of(bin),
        ),
{
    let end: usize = (len + 1) / 2;
    let mut k: usize = 0;
    while k < len
        invariant
            k <= len < isize::MAX,
            end == positive_end(len as int),
            forall|at: isize| -len < at < len ==> frequency.requires((at,)),
            forall|j: int|
                0 <= j < k ==> #[trigger] bin_is(*frequency, j, len as int, carrier, false),
        decreases len - k,
    {
        let at: isize = if k < end {
            k as isize
        } else {
            k as isize - len as isize
        };
        assert(at == signed_bin(k as int, len as int));
        let here: Double = frequency(at);
        let found: bool = here.is_same(carrier);
        assert(bin_is(*frequency, k as int, len as int, carrier, found));
        if found {
            return Some(k);
        }
        k += 1;
    }
    None
}

/// Which of three neighbouring frequencies to take.
#[derive(Clone, Copy, Debug, PartialEq, Eq, Structural)]
pub enum TuneStep {
    Stay,
    More,
    Less,
}

/// The choice between a frequency and those one step more and one step less, by
/// their distances to the carrier: one step less where nothing is nearer.
pub open spec fn tune_choice(here: Double, more: Double, less: Double) -> TuneStep {
    if here.below(less) && here.below(more) {
        TuneStep::Stay
    } else if more.below(less) {
        TuneStep::More
    } else {
        TuneStep::Less
    }
}

/// Chooses between three neighbouring frequencies.
pub fn fine_tune_step(here: Double, more: Double, less: Double) -> (step: TuneStep)
    ensures
        step == tune_choice(here, more, less),
{
    if here.lt(less) && here.lt(more) {
        TuneStep::Stay
    } else if more.lt(less) {
        TuneStep::More
    } else {
        TuneStep::Less
    }
}

/// The frequency that is taken is the nearest of the three.
pub proof fn law_nearest_is_taken(here: Double, more: Double, less: Double)
    requires
        !here.nan(),
        !more.nan(),
        !less.nan(),
    ensures
        ({
            let taken = match tune_choice(here, more, less) {
                TuneStep::Stay => here,
                TuneStep::More => more,
                TuneStep::Less => less,
            };
            taken.at_most(here) && taken.at_most(more) && taken.at_most(less)
        }),
{
}

/// Whether `next` is `at` one step nearer to `carrier`.
pub open spec fn is_nearer<P: Fn(Double) -> Double, Q: Fn(Double) -> Double>(
    at: Double,
    carrier: Double,
    more: P,
    less: Q,
    next: Double,
) -> bool {
    if carrier.below(at) {
        less.ensures((at,), next)
    } else {
        more.ensures((at,), next)
    }
}

/// Whether a walk from `freq` towards `carrier` comes to an end: distances are not
/// negative, and from everywhere no farther off than `freq`, but `max_step` or
/// farther, a step brings it nearer.
pub open spec fn can_tune_from<
    G: Fn(Double) -> Double,
    P: Fn(Double) -> Double,
    Q: Fn(Double) -> Double,
>(freq: Double, carrier: Double, max_step: Double, gap: G, more: P, less: Q) -> bool {
    &&& forall|at: Double| gap.requires((at,))
    &&& forall|at: Double| more.requires((at,))
    &&& forall|at: Double| less.requires((at,))
    &&& forall|at: Double, off: Double| #[trigger]
        gap.ensures((at,), off) ==> off.nan() || off.rank() >= 0
    &&& forall|start: Double, at: Double, off: Double, next: Double, rest: Double|
        #![trigger gap.ensures((freq,), start), comes_nearer(at, off, next, rest)]
        gap.ensures((freq,), start) && gap.ensures((at,), off) && off.at_most(start)
            && max_step.at_most(off) && is_nearer(at, carrier, more, less, next) && gap.ensures(
            (next,),
            rest,
        ) ==> comes_nearer(at, off, next, rest)
}

/// Whether `next`, off by `rest`, is nearer than `at`, off by `off`.
pub open spec fn comes_nearer(at: Double, off: Double, next: Double, rest: Double) -> bool {
    rest.nan() || rest.rank() < off.rank()
}

/// Whether `path`, off by `offs`, is a walk from `freq` towards `carrier` that
/// goes on as long as it is `max_step` or farther off.
pub open spec fn is_walk<G: Fn(Double) -> Double, P: Fn(Double) -> Double, Q: Fn(Double) -> Double>(
    freq: Double,
    carrier: Double,
    max_step: Double,
    gap: G,
    more: P,
    less: Q,
    path: Seq<Double>,
    offs: Seq<Double>,
) -> bool {
    &&& path.len() >= 1
    &&& offs.len() == path.len()
    &&& path[0] == freq
    &&& forall|k: int| 0 <= k < path.len() ==> gap.ensures((path[k],), #[trigger] offs[k])
    &&& forall|k: int|
        0 < k < path.len() ==> is_nearer(path[k - 1], carrier, more, less, #[trigger] path[k])
    &&& forall|k: int| 0 <= k < path.len() - 1 ==> max_step.at_most(#[trigger] offs[k])
}

/// Whether `tuned` is the choice between `at`, which is off by `off`, and its
/// neighbours.
pub open spec fn is_choice<G: Fn(Double) -> Double, P: Fn(Double) -> Double, Q: Fn(Double) -> Double>(
    at: Double,
    off: Double,
    gap: G,
    more: P,
    less: Q,
    tuned: Double,
) -> bool {
    exists|above: Double, below: Double, above_off: Double, below_off: Double|
        {
            &&& more.ensures((at,), above)
            &&& less.ensures((at,), below)
            &&& #[trigger] gap.ensures((above,), above_off)
            &&& #[trigger] gap.ensures((below,), below_off)
            &&& tuned == match tune_choice(off, above_off, below_off) {
                TuneStep::Stay => at,
                TuneStep::More => above,
                TuneStep::Less => below,
            }
        }
}

/// Whether `tuned` is what tuning `freq` to `carrier` comes to: the choice at the
/// end of a walk.
pub open spec fn is_tuned<G: Fn(Double) -> Double, P: Fn(Double) -> Double, Q: Fn(Double) -> Double>(
    freq: Double,
    carrier: Double,
    max_step: Double,
    gap: G,
    more: P,
    less: Q,
    tuned: Double,
) -> bool {
    exists|path: Seq<Double>, offs: Seq<Double>|
        {
            &&& #[trigger] is_walk(freq, carrier, max_step, gap, more, less, path, offs)
            &&& !max_step.at_most(offs.last())
            &&& is_choice(path.last(), offs.last(), gap, more, less, tuned)
        }
}

/// Brings a frequency near to that of the carrier in steps of `max_step`. `gap`
/// is the distance of a frequency to the carrier; `more` and `less` are one step
/// more and one step less.
pub fn fine_tune_frequency<
    G: Fn(Double) -> Double,
    P: Fn(Double) -> Double,
    Q: Fn(Double) -> Double,
>(freq: Double, color_under: Double, max_step: Double, gap: &G, more: &P, less: &Q) -> (tuned:
    Double)
    requires
        can_tune_from(freq, color_under, max_step, *gap, *more, *less),
    ensures
        is_tuned(freq, color_under, max_step, *gap, *more, *less, tuned),
{
    let mut at: Double = freq;
    let mut off: Double = gap(at);
    let ghost mut path: Seq<Double> = seq![freq];
    let ghost mut offs: Seq<Double> = seq![off];
    let ghost start = off;
    while max_step.le(off)
        invariant
            can_tune_from(freq, color_under, max_step, *gap, *more, *less),
            gap.ensures((freq,), start),
            off.nan() || off.at_most(start),
            is_walk(freq, color_under, max_step, *gap, *more, *less, path, offs),
            at == path.last(),
            off == offs.last(),
            gap.ensures((at,), off),
        decreases (if off.nan() { 0int } else { off.rank() + 1 }),
    {
        let next: Double = if color_under.lt(at) {
            less(at)
        } else {
            more(at)
        };
        let rest: Double = gap(next);
        proof {
            assert(is_nearer(at, color_under, *more, *less, next));
            assert(comes_nearer(at, off, next, rest));
            path = path.push(next);
            offs = offs.push(rest);
        }
        at = next;
        off = rest;
    }
    let above: Double = more(at);
    let below: Double = less(at);
    let above_off: Double = gap(above);
    let below_off: Double = gap(below);
    let tuned: Double = match fine_tune_step(off, above_off, below_off) {
        TuneStep::Stay => at,
        TuneStep::More => above,
        TuneStep::Less => below,
    };
    assert(gap.ensures((above,), above_off) && gap.ensures((below,), below_off));
    assert(is_choice(at, off, *gap, *more, *less, tuned));
    tuned
}

/// The distance of two numbers, in the smallest steps between numbers.
pub open spec fn apart(a: Double, b: Double) -> int {
    if a.steps() <= b.steps() {
        b.steps() - a.steps()
    } else {
        a.steps() - b.steps()
    }
}

/// Whether `at` lies a whole number of steps of `max_step` from `freq`.
pub open spec fn on_grid(at: Double, freq: Double, max_step: Double) -> bool {
    exists|k: int| at.steps() == freq.steps() + #[trigger] (k * max_step.steps())
}

/// Whether distances and steps are exact for the frequencies that tuning `freq`
/// comes by: those on its grid that are no farther off than one step beyond it.
pub open spec fn is_exact<G: Fn(Double) -> Double, P: Fn(Double) -> Double, Q: Fn(Double) -> Double>(
    freq: Double,
    carrier: Double,
    max_step: Double,
    gap: G,
    more: P,
    less: Q,
) -> bool {
    let step = max_step.steps();
    let reach = apart(freq, carrier);
    &&& !freq.nan() && !carrier.nan() && !max_step.nan()
    &&& step > 0
    &&& forall|at: Double, next: Double| #[trigger]
        more.ensures((at,), next) && !at.nan() && on_grid(at, freq, max_step) && apart(at, carrier)
            <= reach ==> !next.nan() && next.steps() == at.steps() + step
    &&& forall|at: Double, next: Double| #[trigger]
        less.ensures((at,), next) && !at.nan() && on_grid(at, freq, max_step) && apart(at, carrier)
            <= reach ==> !next.nan() && next.steps() == at.steps() - step
    &&& forall|at: Double, off: Double| #[trigger]
        gap.ensures((at,), off) && !at.nan() && on_grid(at, freq, max_step) && apart(at, carrier)
            <= reach + step ==> !off.nan() && off.steps() == apart(at, carrier)
}

/// A step from the grid leads to the grid.
proof fn lemma_grid_goes_on(at: Double, next: Double, freq: Double, max_step: Double)
    requires
        on_grid(at, freq, max_step),
        next.steps() == at.steps() + max_step.steps() || next.steps() == at.steps()
            - max_step.steps(),
    ensures
        on_grid(next, freq, max_step),
{
    let step = max_step.steps();
    let k = choose|k: int| at.steps() == freq.steps() + #[trigger] (k * step);
    assert((k + 1) * step == k * step + step && (k - 1) * step == k * step - step)
        by (nonlinear_arith);
    if next.steps() == at.steps() + step {
        assert(next.steps() == freq.steps() + (k + 1) * step);
    } else {
        assert(next.steps() == freq.steps() + (k - 1) * step);
    }
}

/// A walk in exact steps stays on its grid and comes no farther off.
proof fn lemma_exact_walk<G: Fn(Double) -> Double, P: Fn(Double) -> Double, Q: Fn(Double) -> Double>(
    freq: Double,
    carrier: Double,
    max_step: Double,
    gap: G,
    more: P,
    less: Q,
    path: Seq<Double>,
    offs: Seq<Double>,
    k: int,
)
    requires
        is_exact(freq, carrier, max_step, gap, more, less),
        is_walk(freq, carrier, max_step, gap, more, less, path, offs),
        0 <= k < path.len(),
    ensures
        !path[k].nan(),
        on_grid(path[k], freq, max_step),
        apart(path[k], carrier) <= apart(freq, carrier),
        !offs[k].nan(),
        offs[k].steps() == apart(path[k], carrier),
    decreases k,
{
    let step = max_step.steps();
    if k == 0 {
        assert(freq.steps() == freq.steps() + 0 * step);
    } else {
        lemma_exact_walk(freq, carrier, max_step, gap, more, less, path, offs, k - 1);
        let last = path[k - 1];
        assert(max_step.at_most(offs[k - 1]));
        law_order_is_numeric(max_step, offs[k - 1]);
        law_order_is_numeric(carrier, last);
        assert(is_nearer(last, carrier, more, less, path[k]));
        lemma_grid_goes_on(last, path[k], freq, max_step);
    }
    assert(gap.ensures((path[k],), offs[k]));
}

/// Tuned in exact steps, a frequency becomes the one of its grid that is nearest
/// to the carrier: at most half a step off, and the frequency itself where it is
/// less.
pub proof fn law_tuned_is_nearest<
    G: Fn(Double) -> Double,
    P: Fn(Double) -> Double,
    Q: Fn(Double) -> Double,
>(freq: Double, carrier: Double, max_step: Double, gap: G, more: P, less: Q, tuned: Double)
    requires
        is_exact(freq, carrier, max_step, gap, more, less),
        is_tuned(freq, carrier, max_step, gap, more, less, tuned),
    ensures
        on_grid(tuned, freq, max_step),
        2 * apart(tuned, carrier) <= max_step.steps(),
        forall|at: Double| #[trigger]
            on_grid(at, freq, max_step) ==> apart(tuned, carrier) <= apart(at, carrier),
        2 * apart(freq, carrier) < max_step.steps() ==> tuned == freq,
{
    let step = max_step.steps();
    let (path, offs) = choose|path: Seq<Double>, offs: Seq<Double>|
        {
            &&& #[trigger] is_walk(freq, carrier, max_step, gap, more, less, path, offs)
            &&& !max_step.at_most(offs.last())
            &&& is_choice(path.last(), offs.last(), gap, more, less, tuned)
        };
    let at = path.last();
    let off = offs.last();
    lemma_exact_walk(freq, carrier, max_step, gap, more, less, path, offs, path.len() - 1);
    law_order_is_numeric(max_step, off);
    let (above, below, above_off, below_off) = choose|
        above: Double,
        below: Double,
        above_off: Double,
        below_off: Double,
    |
        {
            &&& more.ensures((at,), above)
            &&& less.ensures((at,), below)
            &&& #[trigger] gap.ensures((above,), above_off)
            &&& #[trigger] gap.ensures((below,), below_off)
            &&& tuned == match tune_choice(off, above_off, below_off) {
                TuneStep::Stay => at,
                TuneStep::More => above,
                TuneStep::Less => below,
            }
        };
    lemma_grid_goes_on(at, above, freq, max_step);
    lemma_grid_goes_on(at, below, freq, max_step);
    law_order_is_numeric(off, above_off);
    law_order_is_numeric(off, below_off);
    law_order_is_numeric(above_off, below_off);
    let k = choose|k: int| tuned.steps() == freq.steps() + #[trigger] (k * step);
    assert forall|other: Double| #[trigger] on_grid(other, freq, max_step) implies apart(
        tuned,
        carrier,
    ) <= apart(other, carrier) by {
        let m = choose|m: int| other.steps() == freq.steps() + #[trigger] (m * step);
        if m != k {
            assert(m * step - k * step >= step || k * step - m * step >= step) by (nonlinear_arith)
                requires
                    m != k,
                    step > 0,
            ;
        }
    }
    if 2 * apart(freq, carrier) < step {
        lemma_exact_walk(freq, carrier, max_step, gap, more, less, path, offs, 0);
        law_order_is_numeric(max_step, offs[0]);
        assert(path.len() == 1) by {
            if path.len() > 1 {
                assert(max_step.at_most(offs[0]));
            }
        }
    }
}

/// Whether `freq` and `phase` are those of the carrier, where `bin` is its peak:
/// the tuned frequency of that bin, and the angle of the bin of that frequency,
/// or zero where there is none.
pub open spec fn is_carrier<
    F: Fn(isize) -> Double,
    G: Fn(Double) -> Double,
    P: Fn(Double) -> Double,
    Q: Fn(Double) -> Double,
    A: Fn(usize) -> Double,
>(
    len: int,
    color_under: Double,
    max_step: Double,
    frequency: F,
    gap: G,
    more: P,
    less: Q,
    angle: A,
    bin: int,
    freq: Double,
    phase: Double,
) -> bool {
    &&& exists|peak: Double| #[trigger]
        frequency.ensures((bin as isize,), peak) && is_tuned(
            peak,
            color_under,
            max_step,
            gap,
            more,
            less,
            freq,
        )
    &&& exists|at: Option<int>| #[trigger]
        is_carrier_bin(frequency, len, freq, at) && match at {
            Some(k) => angle.ensures((k as usize,), phase),
            None => phase == (Double { bits: 0 }),
        }
}

/// Whether the frequency of every peak can be tuned.
pub open spec fn peaks_can_be_tuned<
    C: Fn(Single) -> Single,
    F: Fn(isize) -> Double,
    G: Fn(Double) -> Double,
    P: Fn(Double) -> Double,
    Q: Fn(Double) -> Double,
>(
    power: Seq<Single>,
    color_under: Double,
    max_step: Double,
    threshold: C,
    frequency: F,
    gap: G,
    more: P,
    less: Q,
) -> bool {
    let high = greatest(power, power.len() as int);
    forall|low: Single, bin: int, peak: Double|
        #![trigger is_peak(power, low, high, bin), frequency.ensures((bin as isize,), peak)]
        threshold.ensures((high,), low) && is_peak(power, low, high, bin) && frequency.ensures(
            (bin as isize,),
            peak,
        ) ==> can_tune_from(peak, color_under, max_step, gap, more, less)
}

/// Whether `carrier` is what a search for the colour carrier in a power spectrum comes
/// to.
pub open spec fn is_center_freq<
    C: Fn(Single) -> Single,
    F: Fn(isize) -> Double,
    G: Fn(Double) -> Double,
    P: Fn(Double) -> Double,
    Q: Fn(Double) -> Double,
    A: Fn(usize) -> Double,
>(
    power: Seq<Single>,
    color_under: Double,
    max_step: Double,
    threshold: C,
    frequency: F,
    gap: G,
    more: P,
    less: Q,
    angle: A,
    carrier: Result<(Double, Double), CarrierError>,
) -> bool {
    &&& carrier == Err::<(Double, Double), CarrierError>(CarrierError::TooFewSamples)
        <==> power.len() < 3
    &&& carrier == Err::<(Double, Double), CarrierError>(CarrierError::NoInteriorBins) <==> 3
        <= power.len() <= 4
    &&& power.len() > 4 ==> exists|low: Single, distances: Seq<Double>, bin: Option<int>|
        {
            &&& #[trigger] is_carrier_search(
                power,
                threshold,
                frequency,
                gap,
                low,
                distances,
                bin,
            )
            &&& match bin {
                Some(k) => carrier matches Ok((freq, phase)) && is_carrier(
                    power.len() as int,
                    color_under,
                    max_step,
                    frequency,
                    gap,
                    more,
                    less,
                    angle,
                    k,
                    freq,
                    phase,
                ),
                None => carrier == Err::<(Double, Double), CarrierError>(CarrierError::NoPeak),
            }
        }
}

/// Finds the colour carrier in the power spectrum of a signal: its frequency and
/// its phase. Of the peaks of positive frequency, the one nearest to where the
/// carrier should be is tuned towards it. `threshold` maps the greatest power to
/// the least that counts, `frequency` a bin, counted from the constant one, to
/// its frequency, and `angle` a bin to its phase; the others are those of
/// [`fine_tune_frequency`].
pub fn cafc_fft_center_freq<
    C: Fn(Single) -> Single,
    F: Fn(isize) -> Double,
    G: Fn(Double) -> Double,
    P: Fn(Double) -> Double,
    Q: Fn(Double) -> Double,
    A: Fn(usize) -> Double,
>(
    power: &[Single],
    color_under: Double,
    max_step: Double,
    threshold: C,
    frequency: F,
    gap: G,
    more: P,
    less: Q,
    angle: A,
) -> (carrier: Result<(Double, Double), CarrierError>)
    requires
        power@.len() < isize::MAX,
        threshold.requires((greatest(power@, power@.len() as int),)),
        forall|at: isize| -power@.len() < at < power@.len() ==> frequency.requires((at,)),
        forall|at: Double| gap.requires((at,)),
        forall|k: usize| k < power@.len() ==> angle.requires((k,)),
        peaks_can_be_tuned(power@, color_under, max_step, threshold, frequency, gap, more, less),
    ensures
        carrier is Ok ==> power@.len() >= 7,
        is_center_freq(
            power@,
            color_under,
            max_step,
            threshold,
            frequency,
            gap,
            more,
            less,
            angle,
            carrier,
        ),
{
    let len: usize = power.len();
    if len < 3 {
        return Err(CarrierError::TooFewSamples);
    }
    if len <= 4 {
        return Err(CarrierError::NoInteriorBins);
    }
    let bin: Option<usize> = nearest_peak(power, &threshold, &frequency, &gap);
    let best: usize = match bin {
        Some(best) => best,
        None => {
            return Err(CarrierError::NoPeak);
        },
    };
    let peak: Double = frequency(best as isize);
    let freq: Double = fine_tune_frequency(peak, color_under, max_step, &gap, &more, &less);
    let at: Option<usize> = carrier_bin(len, &frequency, freq);
    let phase: Double = match at {
        Some(k) => angle(k),
        None => Double { bits: 0 },
    };
    proof {
        assert(frequency.ensures((best as int as isize,), peak));
        assert(is_carrier_bin(frequency, len as int, freq, number_of(at)));
        assert(is_carrier(
            len as int,
            color_under,
            max_step,
            frequency,
            gap,
            more,
            less,
            angle,
            best as int,
            freq,
            phase,
        ));
    }
    Ok((freq, phase))
}

/// Bins of positive frequency count twice, those of negative frequency do not count, and
/// those without a counterpart, the first one and the one in the middle, stay.
pub proof fn law_positive_bins_count_twice(k: int, n: int)
    requires
        0 <= k < n,
    ensures
        0 < k && k < n - k <==> role(k, n) == BinRole::Double,
        0 < k && k > n - k <==> role(k, n) == BinRole::Clear,
        k == 0 || k == n - k <==> role(k, n) == BinRole::Keep,
{
}

/// A bin is of positive frequency exactly if it lies in the first half. In bins, its
/// frequency is its number, or that less the number of all bins, whichever is nearer to
/// zero; that of the bin in the middle is negative.
pub proof fn law_bins_have_two_signs(k: int, len: int)
    requires
        0 <= k < len,
    ensures
        k < positive_end(len) <==> 2 * k < len,
        2 * k < len ==> signed_bin(k, len) == k,
        2 * k >= len ==> signed_bin(k, len) == k - len,
        -len <= 2 * signed_bin(k, len) < len,
{
}

/// The greatest value is one of the values, and no value is above it; where there are no
/// numbers, it is below every number.
pub proof fn law_greatest_is_above_all(values: Seq<Single>, count: int)
    requires
        0 <= count <= values.len(),
    ensures
        !greatest(values, count).nan(),
        forall|i: int|
            0 <= i < count && !(#[trigger] values[i]).nan() ==> values[i].at_most(
                greatest(values, count),
            ),
        greatest(values, count).bits == 0xFF80_0000 || exists|i: int|
            0 <= i < count && #[trigger] values[i] == greatest(values, count),
    decreases count,
{
    if count > 0 {
        law_greatest_is_above_all(values, count - 1);
        let rest = greatest(values, count - 1);
        if rest.below(values[count - 1]) {
            assert(values[count - 1] == greatest(values, count));
        } else if rest.bits != 0xFF80_0000 {
            let i = choose|i: int| 0 <= i < count - 1 && #[trigger] values[i] == rest;
            assert(values[i] == greatest(values, count));
        }
    }
}

/// A peak is a bin of positive frequency, not the constant one and with two neighbours of
/// its kind, whose power is above the least that counts and above that of both
/// neighbours.
pub proof fn law_peaks_stand_out(power: Seq<Single>, low: Single, k: int)
    requires
        2 <= k,
        k + 1 < power.len(),
        !power[k - 1].nan(),
        !power[k].nan(),
        !power[k + 1].nan(),
        low.at_most(greatest(power, power.len() as int)),
    ensures
        is_peak(power, low, greatest(power, power.len() as int), k) <==> {
            &&& 2 * (k + 1) < power.len()
            &&& low.steps() < power[k].steps()
            &&& power[k - 1].steps() < power[k].steps()
            &&& power[k + 1].steps() < power[k].steps()
        },
{
    let high = greatest(power, power.len() as int);
    law_greatest_is_above_all(power, power.len() as int);
    let (a, b, c) = (power[k - 1], power[k], power[k + 1]);
    law_single_order_is_numeric(a, b);
    law_single_order_is_numeric(c, b);
    law_single_order_is_numeric(low, b);
    assert(b.at_most(high) && a.at_most(high) && c.at_most(high));
}

/// There are no other peaks: not among the first two bins, nor where no bin with a
/// neighbour of its kind lies.
pub proof fn law_peaks_are_inside(power: Seq<Single>, low: Single, high: Single, k: int)
    requires
        is_peak(power, low, high, k),
    ensures
        2 <= k,
        2 * (k + 1) < power.len(),
        power.len() >= 7,
{
}

/// The peak that is taken is at a finite distance, no peak is nearer, and none before it
/// is as near.
pub proof fn law_nearest_peak_is_taken(
    power: Seq<Single>,
    low: Single,
    high: Single,
    distances: Seq<Double>,
    bound: int,
    k: int,
    other: int,
)
    requires
        is_nearest_peak(power, low, high, distances, bound, k),
        is_peak(power, low, high, other),
        other < bound,
        !distances[other].nan(),
    ensures
        is_peak(power, low, high, k),
        k < bound,
        !distances[k].nan(),
        distances[k].magnitude() < DOUBLE_INFINITY || distances[k].bits >= DOUBLE_SIGN,
        distances[k].steps() <= distances[other].steps(),
        other < k ==> distances[k].steps() < distances[other].steps(),
{
    law_order_is_numeric(distances[other], distances[k]);
    law_order_is_numeric(distances[k], distances[other]);
}

/// A search comes to a bin exactly if some peak is at a finite distance.
pub proof fn law_peaks_are_not_passed_over(
    power: Seq<Single>,
    low: Single,
    high: Single,
    distances: Seq<Double>,
    bound: int,
    k: int,
)
    requires
        is_peak(power, low, high, k),
        k < bound,
        !distances[k].nan(),
        distances[k].magnitude() < DOUBLE_INFINITY,
    ensures
        !has_no_peak(power, low, high, distances, bound),
{
    assert(is_peak(power, low, high, k) && k < bound);
}

/// A frequency is kept where it is nearer to the carrier than those on both sides; one
/// step more is taken only where it is nearer than one step less.
pub proof fn law_ties_go_one_step_less(here: Double, more: Double, less: Double)
    requires
        !here.nan(),
        !more.nan(),
        !less.nan(),
    ensures
        tune_choice(here, more, less) == TuneStep::Stay <==> here.steps() < less.steps()
            && here.steps() < more.steps(),
        tune_choice(here, more, less) == TuneStep::More <==> more.steps() < less.steps()
            && more.steps() <= here.steps(),
        tune_choice(here, more, less) == TuneStep::Less <==> less.steps() <= more.steps()
            && less.steps() <= here.steps(),
{
    law_order_is_numeric(here, more);
    law_order_is_numeric(here, less);
    law_order_is_numeric(more, less);
}

/// A walk towards the carrier starts at the frequency, goes down from above the carrier
/// and up from elsewhere, and stops as soon as it is less than a step off.
pub proof fn law_walks_stop_near_the_carrier<
    G: Fn(Double) -> Double,
    P: Fn(Double) -> Double,
    Q: Fn(Double) -> Double,
>(
    freq: Double,
    carrier: Double,
    max_step: Double,
    gap: G,
    more: P,
    less: Q,
    path: Seq<Double>,
    offs: Seq<Double>,
    k: int,
)
    requires
        is_walk(freq, carrier, max_step, gap, more, less, path, offs),
        !carrier.nan(),
        !max_step.nan(),
        0 <= k < path.len() - 1,
        !path[k].nan(),
    ensures
        path[0] == freq,
        gap.ensures((path[k],), offs[k]),
        !offs[k].nan(),
        max_step.steps() <= offs[k].steps(),
        path[k].steps() > carrier.steps() ==> less.ensures((path[k],), path[k + 1]),
        path[k].steps() <= carrier.steps() ==> more.ensures((path[k],), path[k + 1]),
{
    assert(max_step.at_most(offs[k]));
    law_order_is_numeric(max_step, offs[k]);
    law_order_is_numeric(carrier, path[k]);
    assert(is_nearer(path[k + 1 - 1], carrier, more, less, path[k + 1]));
    assert(gap.ensures((path[k],), offs[k]));
}

/// The carrier is the tuned frequency of its peak. Its phase is the angle of the first
/// bin of that very frequency, in which no bin before it is; zero where no bin is of it.
pub proof fn law_phase_is_that_of_the_carrier<
    F: Fn(isize) -> Double,
    G: Fn(Double) -> Double,
    P: Fn(Double) -> Double,
    Q: Fn(Double) -> Double,
    A: Fn(usize) -> Double,
>(
    len: int,
    color_under: Double,
    max_step: Double,
    frequency: F,
    gap: G,
    more: P,
    less: Q,
    angle: A,
    bin: int,
    freq: Double,
    phase: Double,
)
    requires
        is_carrier(
            len,
            color_under,
            max_step,
            frequency,
            gap,
            more,
            less,
            angle,
            bin,
            freq,
            phase,
        ),
    ensures
        exists|peak: Double| #[trigger]
            frequency.ensures((bin as isize,), peak) && is_tuned(
                peak,
                color_under,
                max_step,
                gap,
                more,
                less,
                freq,
            ),
        phase.bits == 0 && all_bins_differ(frequency, len, freq, len) || exists|k: int|
            0 <= k < len && #[trigger] bin_has(frequency, k, len, freq, true) && all_bins_differ(
                frequency,
                len,
                freq,
                k,
            ) && angle.ensures((k as usize,), phase),
{
    let at = choose|at: Option<int>| #[trigger]
        is_carrier_bin(frequency, len, freq, at) && match at {
            Some(k) => angle.ensures((k as usize,), phase),
            None => phase == (Double { bits: 0 }),
        };
    let bound = match at {
        Some(k) => k,
        None => len,
    };
    assert forall|j: int| 0 <= j < bound implies #[trigger] bin_has(
        frequency,
        j,
        len,
        freq,
        false,
    ) by {
        assert(bin_is(frequency, j, len, freq, false));
        lemma_bin_has(frequency, j, len, freq, false);
    }
    assert(all_bins_differ(frequency, len, freq, bound));
    if let Some(k) = at {
        assert(bin_is(frequency, k, len, freq, true));
        lemma_bin_has(frequency, k, len, freq, true);
    }
}

proof fn lemma_bin_has<F: Fn(isize) -> Double>(
    frequency: F,
    k: int,
    len: int,
    carrier: Double,
    answer: bool,
)
    requires
        0 <= k < len,
        bin_is(frequency, k, len, carrier, answer),
    ensures
        bin_has(frequency, k, len, carrier, answer),
{
    let at = choose|at: Double| #[trigger]
        frequency.ensures((signed_bin(k, len) as isize,), at) && at.same(carrier) == answer;
    law_bins_have_two_signs(k, len);
    assert(nearest_number(k, len) == signed_bin(k, len));
    assert(frequency.ensures((nearest_number(k, len) as isize,), at));
}

/// Of the number `k` and that less `len`, the one nearer to zero, and the negative one of
/// two.
pub open spec fn nearest_number(k: int, len: int) -> int {
    if k < len - k {
        k
    } else {
        k - len
    }
}

/// Whether bin `k` of `len` is of the frequency `carrier`, or is not.
pub open spec fn bin_has<F: Fn(isize) -> Double>(
    frequency: F,
    k: int,
    len: int,
    carrier: Double,
    answer: bool,
) -> bool {
    exists|at: Double| #[trigger]
        frequency.ensures((nearest_number(k, len) as isize,), at) && at.same(carrier) == answer
}

/// Whether none of the first `count` bins is of the frequency `carrier`.
pub open spec fn all_bins_differ<F: Fn(isize) -> Double>(
    frequency: F,
    len: int,
    carrier: Double,
    count: int,
) -> bool {
    forall|j: int| 0 <= j < count ==> #[trigger] bin_has(frequency, j, len, carrier, false)
}

/// The analytic signal has the bins of positive frequency twice, none of negative
/// frequency, and the first one and the one in the middle as they are.
pub proof fn law_analytic_signals_have_positive_bins<C, F: Fn(C) -> C>(
    spectrum: Seq<C>,
    twice: F,
    zero: C,
    analytic: Seq<C>,
    k: int,
)
    requires
        is_analytic(spectrum, twice, zero, analytic),
        0 <= k < spectrum.len(),
    ensures
        analytic.len() == spectrum.len(),
        0 < k && 2 * k < spectrum.len() ==> twice.ensures((spectrum[k],), analytic[k]),
        2 * k > spectrum.len() ==> analytic[k] == zero,
        k == 0 || 2 * k == spectrum.len() ==> analytic[k] == spectrum[k],
{
    let bin = analytic[k];
}

/// A search for the carrier needs three samples, and a bin with two neighbours. It then
/// comes to the nearest peak, if one is at a finite distance, and to none otherwise. The
/// least power that counts is by the greatest of all, and the distance of a peak is that
/// of its frequency to where the carrier should be.
pub proof fn law_searches_come_to_the_nearest_peak<
    C: Fn(Single) -> Single,
    F: Fn(isize) -> Double,
    G: Fn(Double) -> Double,
    P: Fn(Double) -> Double,
    Q: Fn(Double) -> Double,
    A: Fn(usize) -> Double,
>(
    power: Seq<Single>,
    color_under: Double,
    max_step: Double,
    threshold: C,
    frequency: F,
    gap: G,
    more: P,
    less: Q,
    angle: A,
    carrier: Result<(Double, Double), CarrierError>,
)
    requires
        is_center_freq(
            power,
            color_under,
            max_step,
            threshold,
            frequency,
            gap,
            more,
            less,
            angle,
            carrier,
        ),
    ensures
        power.len() < 3 ==> carrier is Err && carrier->Err_0 is TooFewSamples,
        3 <= power.len() <= 4 ==> carrier is Err && carrier->Err_0 is NoInteriorBins,
        power.len() >= 5 ==> exists|low: Single, distances: Seq<Double>|
            {
                let high = greatest(power, power.len() as int);
                &&& threshold.ensures((high,), low)
                &&& #[trigger] measures_peaks(power, low, frequency, gap, distances)
                &&& carrier is Err ==> carrier->Err_0 is NoPeak && forall|k: int| #[trigger]
                    is_peak(power, low, high, k) ==> distances[k].nan()
                        || distances[k].magnitude() >= DOUBLE_INFINITY && distances[k].bits
                        < DOUBLE_SIGN
                &&& carrier is Ok ==> exists|k: int|
                    {
                        &&& #[trigger] is_nearest_peak(
                            power,
                            low,
                            high,
                            distances,
                            power.len() as int,
                            k,
                        )
                        &&& is_carrier(
                            power.len() as int,
                            color_under,
                            max_step,
                            frequency,
                            gap,
                            more,
                            less,
                            angle,
                            k,
                            carrier->Ok_0.0,
                            carrier->Ok_0.1,
                        )
                    }
            },
{
    if power.len() >= 5 {
        let (low, distances, bin) = choose|
            low: Single,
            distances: Seq<Double>,
            bin: Option<int>,
        |
            {
                &&& #[trigger] is_carrier_search(
                    power,
                    threshold,
                    frequency,
                    gap,
                    low,
                    distances,
                    bin,
                )
                &&& match bin {
                    Some(k) => carrier matches Ok((freq, phase)) && is_carrier(
                        power.len() as int,
                        color_under,
                        max_step,
                        frequency,
                        gap,
                        more,
                        less,
                        angle,
                        k,
                        freq,
                        phase,
                    ),
                    None => carrier == Err::<(Double, Double), CarrierError>(CarrierError::NoPeak),
                }
            };
        let high = greatest(power, power.len() as int);
        let end = positive_end(power.len() as int);
        assert(measures_peaks(power, low, frequency, gap, distances)) by {
            assert forall|k: int| #[trigger] is_peak(power, low, high, k) implies exists|
                at: Double,
            |
                frequency.ensures((k as isize,), at) && #[trigger] gap.ensures(
                    (at,),
                    distances[k],
                ) by {
                assert(is_peak(power, low, high, k) && k < end);
                assert(is_distance(frequency, gap, k, distances[k]));
            }
        }
        if let Some(k) = bin {
            assert forall|j: int| #[trigger] is_peak(power, low, high, j) implies j < end by {}
            assert(is_nearest_peak(power, low, high, distances, power.len() as int, k));
        }
    }
}

/// Whether `distances` holds the distance of every peak: `gap` of what `frequency` gives
/// for its bin.
pub open spec fn measures_peaks<F: Fn(isize) -> Double, G: Fn(Double) -> Double>(
    power: Seq<Single>,
    low: Single,
    frequency: F,
    gap: G,
    distances: Seq<Double>,
) -> bool {
    &&& distances.len() == power.len()
    &&& forall|k: int| #[trigger]
        is_peak(power, low, greatest(power, power.len() as int), k) ==> exists|at: Double|
            frequency.ensures((k as isize,), at) && #[trigger] gap.ensures((at,), distances[k])
}

/// The choice at the end of a walk is between where it ended and one step on either side,
/// by how far each is off: where it ended if that is nearest, otherwise the nearer side,
/// and one step less of two that are equally near.
pub proof fn law_choices_are_nearest<
    G: Fn(Double) -> Double,
    P: Fn(Double) -> Double,
    Q: Fn(Double) -> Double,
>(at: Double, off: Double, gap: G, more: P, less: Q, tuned: Double)
    requires
        is_choice(at, off, gap, more, less, tuned),
        !off.nan(),
    ensures
        exists|above: Double, below: Double, above_off: Double, below_off: Double|
            {
                &&& more.ensures((at,), above)
                &&& less.ensures((at,), below)
                &&& #[trigger] gap.ensures((above,), above_off)
                &&& #[trigger] gap.ensures((below,), below_off)
                &&& !above_off.nan() && !below_off.nan() ==> tuned == if off.steps()
                    < above_off.steps() && off.steps() < below_off.steps() {
                    at
                } else if above_off.steps() < below_off.steps() {
                    above
                } else {
                    below
                }
            },
{
    let (above, below, above_off, below_off) = choose|
        above: Double,
        below: Double,
        above_off: Double,
        below_off: Double,
    |
        {
            &&& more.ensures((at,), above)
            &&& less.ensures((at,), below)
            &&& #[trigger] gap.ensures((above,), above_off)
            &&& #[trigger] gap.ensures((below,), below_off)
            &&& tuned == match tune_choice(off, above_off, below_off) {
                TuneStep::Stay => at,
                TuneStep::More => above,
                TuneStep::Less => below,
            }
        };
    if !above_off.nan() && !below_off.nan() {
        law_ties_go_one_step_less(off, above_off, below_off);
    }
    assert(gap.ensures((above,), above_off) && gap.ensures((below,), below_off));
}

/// A tuned frequency is the choice at the end of a walk from the frequency, and the walk
/// ended because it was less than a step off.
pub proof fn law_tuning_ends_within_a_step<
    G: Fn(Double) -> Double,
    P: Fn(Double) -> Double,
    Q: Fn(Double) -> Double,
>(freq: Double, carrier: Double, max_step: Double, gap: G, more: P, less: Q, tuned: Double)
    requires
        is_tuned(freq, carrier, max_step, gap, more, less, tuned),
        !max_step.nan(),
    ensures
        exists|path: Seq<Double>, offs: Seq<Double>|
            {
                &&& #[trigger] is_walk(freq, carrier, max_step, gap, more, less, path, offs)
                &&& offs.last().nan() || offs.last().steps() < max_step.steps()
                &&& is_choice(path.last(), offs.last(), gap, more, less, tuned)
            },
{
    let (path, offs) = choose|path: Seq<Double>, offs: Seq<Double>|
        {
            &&& #[trigger] is_walk(freq, carrier, max_step, gap, more, less, path, offs)
            &&& !max_step.at_most(offs.last())
            &&& is_choice(path.last(), offs.last(), gap, more, less, tuned)
        };
    if !offs.last().nan() {
        law_order_is_numeric(max_step, offs.last());
    }
    assert(is_walk(freq, carrier, max_step, gap, more, less, path, offs));
}

} // verus!
