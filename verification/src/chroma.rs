//! The colour path: the carrier that brings the colour signal back up, the
//! memory of its frequency, and the filters before it.
use crate::double::{law_order_is_numeric, Double};
use crate::slices::{roll, rolled};
use vstd::prelude::*;
use vstd::slice::{slice_subrange, slice_to_vec};

verus! {

/// A moving average over the last values of a stack.
#[derive(Debug)]
pub struct StackableMa {
    pub window_average: usize,
    pub min_watermark: usize,
    pub stack: Vec<Double>,
}

/// The last `count` items, or all where there are fewer.
pub open spec fn last_items<T>(items: Seq<T>, count: int) -> Seq<T> {
    if items.len() <= count {
        items
    } else {
        items.skip(items.len() - count)
    }
}

impl StackableMa {
    pub fn new(min_watermark: usize, window_average: usize) -> (average: Self)
        ensures
            average.min_watermark == min_watermark,
            average.window_average == window_average,
            average.stack@ == Seq::<Double>::empty(),
    {
        StackableMa { window_average, min_watermark, stack: Vec::new() }
    }

    pub fn push(&mut self, value: Double)
        ensures
            final(self).stack@ == old(self).stack@.push(value),
            final(self).window_average == old(self).window_average,
            final(self).min_watermark == old(self).min_watermark,
    {
        self.stack.push(value);
    }

    /// Forgets all but the values of the window, and gives what `mean` makes of
    /// those, if there are any.
    pub fn pull<M: Fn(&Vec<Double>) -> Double>(&mut self, mean: M) -> (average: Option<Double>)
        requires
            forall|values: &Vec<Double>| mean.requires((values,)),
        ensures
            final(self).stack@ == last_items(old(self).stack@, old(self).window_average as int),
            final(self).window_average == old(self).window_average,
            final(self).min_watermark == old(self).min_watermark,
            match average {
                Some(value) => final(self).stack@.len() > 0 && mean.ensures(
                    (&final(self).stack,),
                    value,
                ),
                None => final(self).stack@.len() == 0,
            },
    {
        if self.stack.len() > self.window_average {
            let keep_from: usize = self.stack.len() - self.window_average;
            let kept: Vec<Double> = self.stack.split_off(keep_from);
            self.stack = kept;
        }
        if self.stack.len() == 0 {
            None
        } else {
            Some(mean(&self.stack))
        }
    }

    pub fn has_values(&self) -> (answer: bool)
        ensures
            answer == (self.stack@.len() > self.min_watermark),
    {
        self.stack.len() > self.min_watermark
    }

    pub fn size(&self) -> (size: usize)
        ensures
            size == self.stack@.len(),
    {
        self.stack.len()
    }
}

/// Whether `tables` holds the four phases of the carrier whose sine and cosine
/// are `waves`: minus the cosine, the sine, the cosine, minus the sine.
pub open spec fn are_phases<T, N: Fn(T) -> T>(
    tables: Seq<Vec<T>>,
    waves: Seq<(T, T)>,
    negate: N,
) -> bool {
    &&& tables.len() == 4
    &&& forall|k: int| 0 <= k < 4 ==> (#[trigger] tables[k])@.len() == waves.len()
    &&& forall|i: int|
        0 <= i < waves.len() ==> {
            let (sin, cos) = #[trigger] waves[i];
            &&& negate.ensures((cos,), tables[0]@[i])
            &&& tables[1]@[i] == sin
            &&& tables[2]@[i] == cos
            &&& negate.ensures((sin,), tables[3]@[i])
        }
}

/// Whether `waves` is what `carrier` gives for every sample.
pub open spec fn is_wave<T, C: Fn(usize) -> (T, T)>(waves: Seq<(T, T)>, carrier: C) -> bool {
    forall|i: int| 0 <= i < waves.len() ==> carrier.ensures((i as usize,), #[trigger] waves[i])
}

/// Generates the four phases of a carrier of `field_len` samples. `carrier`
/// gives the sine and the cosine of a sample.
pub fn gen_chroma_heterodyne<T: Copy, C: Fn(usize) -> (T, T), N: Fn(T) -> T>(
    field_len: usize,
    carrier: C,
    negate: N,
) -> (tables: Vec<Vec<T>>)
    requires
        forall|i: usize| i < field_len ==> carrier.requires((i,)),
        forall|sample: T| negate.requires((sample,)),
    ensures
        exists|waves: Seq<(T, T)>|
            waves.len() == field_len && is_wave(waves, carrier) && #[trigger] are_phases(
                tables@,
                waves,
                negate,
            ),
{
    let mut phase0: Vec<T> = Vec::with_capacity(field_len);
    let mut phase1: Vec<T> = Vec::with_capacity(field_len);
    let mut phase2: Vec<T> = Vec::with_capacity(field_len);
    let mut phase3: Vec<T> = Vec::with_capacity(field_len);
    let ghost mut waves: Seq<(T, T)> = Seq::empty();
    let mut i: usize = 0;
    while i < field_len
        invariant
            i <= field_len,
            forall|i: usize| i < field_len ==> carrier.requires((i,)),
            forall|sample: T| negate.requires((sample,)),
            waves.len() == i,
            is_wave(waves, carrier),
            phase0@.len() == i,
            phase1@.len() == i,
            phase2@.len() == i,
            phase3@.len() == i,
            forall|j: int|
                0 <= j < i ==> {
                    let (sin, cos) = #[trigger] waves[j];
                    &&& negate.ensures((cos,), phase0@[j])
                    &&& phase1@[j] == sin
                    &&& phase2@[j] == cos
                    &&& negate.ensures((sin,), phase3@[j])
                },
        decreases field_len - i,
    {
        let (sin, cos): (T, T) = carrier(i);
        phase0.push(negate(cos));
        phase1.push(sin);
        phase2.push(cos);
        phase3.push(negate(sin));
        proof {
            waves = waves.push((sin, cos));
        }
        i += 1;
    }
    let mut tables: Vec<Vec<T>> = Vec::with_capacity(4);
    tables.push(phase0);
    tables.push(phase1);
    tables.push(phase2);
    tables.push(phase3);
    assert(are_phases(tables@, waves, negate));
    tables
}

/// The carrier turns by a quarter from phase to phase: the phase two places on
/// is the opposite one.
pub proof fn law_phases_are_opposite<T, N: Fn(T) -> T>(
    tables: Seq<Vec<T>>,
    waves: Seq<(T, T)>,
    negate: N,
    i: int,
)
    requires
        are_phases(tables, waves, negate),
        0 <= i < waves.len(),
    ensures
        negate.ensures((tables[2]@[i],), tables[0]@[i]),
        negate.ensures((tables[1]@[i],), tables[3]@[i]),
{
    let wave = waves[i];
}

/// The samples of the longer of two kinds of fields.
pub open spec fn longer_field(outlinelen: int, lines: int, other_lines: int) -> int {
    outlinelen * if lines >= other_lines {
        lines
    } else {
        other_lines
    }
}

/// The samples of the longer kind of field.
pub fn heterodyne_len(outlinelen: usize, field_lines: (usize, usize)) -> (len: usize)
    requires
        outlinelen * field_lines.0 <= usize::MAX,
        outlinelen * field_lines.1 <= usize::MAX,
    ensures
        len == longer_field(outlinelen as int, field_lines.0 as int, field_lines.1 as int),
{
    if field_lines.0 >= field_lines.1 {
        outlinelen * field_lines.0
    } else {
        outlinelen * field_lines.1
    }
}

/// Values that the drift of the carrier is averaged over.
pub const DRIFT_WINDOW: usize = 8192;

/// The tracking of the colour carrier.
#[derive(Debug)]
pub struct ChromaAfcState<T> {
    pub cc_phase: Double,
    pub cc_freq_mhz: Double,
    pub chroma_heterodyne: Vec<Vec<T>>,
    /// The measured frequencies and their drift; `None` where the carrier is
    /// not tracked.
    pub meas_stack: Option<StackableMa>,
    pub chroma_log_drift: Option<StackableMa>,
}

/// An empty stack of frequencies.
pub open spec fn is_fresh_stack(stack: Option<StackableMa>) -> bool {
    stack matches Some(stack) && stack.stack@.len() == 0 && stack.min_watermark == 0
        && stack.window_average == DRIFT_WINDOW
}

/// Whether `after` is what becomes of `before` with the measurement of a carrier.
pub open spec fn is_followed<
    T,
    G: Fn(Double, Double) -> Vec<Vec<T>>,
    U: Fn(Double) -> Double,
    V: Fn(Double) -> Double,
    W: Fn(Double) -> Double,
>(
    before: ChromaAfcState<T>,
    measured: Double,
    cc_phase: Double,
    low: Double,
    high: Double,
    adjustf: bool,
    to_mhz: U,
    to_hz: V,
    drift: W,
    generate: G,
    offset: (Double, bool),
    after: ChromaAfcState<T>,
) -> bool {
    &&& offset.1 == !measured.same(measured.clipped(low, high))
    &&& after.cc_phase == cc_phase
    &&& match (before.meas_stack, after.meas_stack) {
        (Some(old_stack), Some(new_stack)) => {
            &&& new_stack.stack@ == if adjustf {
                old_stack.stack@.push(measured.clipped(low, high))
            } else {
                old_stack.stack@
            }
            &&& new_stack.window_average == old_stack.window_average
            &&& new_stack.min_watermark == old_stack.min_watermark
        },
        (None, None) => true,
        _ => false,
    }
    &&& exists|freq: Double|
        {
            &&& adjustf ==> freq == measured.clipped(low, high)
            &&& !adjustf ==> to_hz.ensures((before.cc_freq_mhz,), freq)
            &&& #[trigger] to_mhz.ensures((freq,), after.cc_freq_mhz)
            &&& drift.ensures((freq,), offset.0)
            &&& after.chroma_log_drift matches Some(log)
            &&& log.stack@ == last_items(
                before.chroma_log_drift->0.stack@.push(offset.0),
                before.chroma_log_drift->0.window_average as int,
            )
            &&& log.window_average == before.chroma_log_drift->0.window_average
            &&& log.min_watermark == before.chroma_log_drift->0.min_watermark
        }
    &&& generate.ensures((after.cc_freq_mhz, cc_phase), after.chroma_heterodyne)
}

impl<T> ChromaAfcState<T> {
    /// A carrier of frequency `cc_freq_mhz` and phase zero; it is tracked if
    /// `enabled`. `generate` makes the carrier of a frequency and a phase.
    pub fn new<G: Fn(Double, Double) -> Vec<Vec<T>>>(
        enabled: bool,
        cc_freq_mhz: Double,
        generate: G,
    ) -> (state: Self)
        requires
            forall|freq: Double, phase: Double| generate.requires((freq, phase)),
        ensures
            state.cc_phase == (Double { bits: 0 }),
            state.cc_freq_mhz == cc_freq_mhz,
            generate.ensures((cc_freq_mhz, Double { bits: 0 }), state.chroma_heterodyne),
            enabled ==> is_fresh_stack(state.meas_stack) && is_fresh_stack(state.chroma_log_drift),
            !enabled ==> state.meas_stack is None && state.chroma_log_drift is None,
    {
        let mut state = ChromaAfcState {
            cc_phase: Double { bits: 0 },
            cc_freq_mhz: Double { bits: 0 },
            chroma_heterodyne: Vec::new(),
            meas_stack: None,
            chroma_log_drift: None,
        };
        if enabled {
            state.meas_stack = Some(StackableMa::new(0, DRIFT_WINDOW));
            state.chroma_log_drift = Some(StackableMa::new(0, DRIFT_WINDOW));
        }
        state.set_cc(cc_freq_mhz, generate);
        state
    }

    /// Takes a frequency, and generates its carrier with the last phase that
    /// was measured.
    pub fn set_cc<G: Fn(Double, Double) -> Vec<Vec<T>>>(
        &mut self,
        cc_freq_mhz: Double,
        generate: G,
    )
        requires
            forall|freq: Double, phase: Double| generate.requires((freq, phase)),
        ensures
            final(self).cc_freq_mhz == cc_freq_mhz,
            generate.ensures((cc_freq_mhz, old(self).cc_phase), final(self).chroma_heterodyne),
            final(self).cc_phase == old(self).cc_phase,
            final(self).meas_stack == old(self).meas_stack,
            final(self).chroma_log_drift == old(self).chroma_log_drift,
    {
        self.cc_freq_mhz = cc_freq_mhz;
        self.chroma_heterodyne = generate(self.cc_freq_mhz, self.cc_phase);
    }

    /// Takes a measurement of the carrier, a frequency and a phase: holds the
    /// frequency between `low` and `high`, takes it over if `adjustf`, generates
    /// the carrier anew and remembers its drift. The result is what the carrier is
    /// off by, and whether the measured frequency had to be held. `to_mhz` and
    /// `to_hz` convert frequencies, `drift` is what a frequency is off by.
    pub fn freq_offset<
        G: Fn(Double, Double) -> Vec<Vec<T>>,
        U: Fn(Double) -> Double,
        V: Fn(Double) -> Double,
        W: Fn(Double) -> Double,
        M: Fn(&Vec<Double>) -> Double,
    >(
        &mut self,
        measured: Double,
        cc_phase: Double,
        low: Double,
        high: Double,
        adjustf: bool,
        to_mhz: U,
        to_hz: V,
        drift: W,
        mean: M,
        generate: G,
    ) -> (offset: (Double, bool))
        requires
            low.at_most(high),
            adjustf ==> old(self).meas_stack is Some,
            old(self).chroma_log_drift is Some,
            forall|freq: Double, phase: Double| generate.requires((freq, phase)),
            forall|freq: Double| to_mhz.requires((freq,)),
            forall|freq: Double| to_hz.requires((freq,)),
            forall|freq: Double| drift.requires((freq,)),
            forall|values: &Vec<Double>| mean.requires((values,)),
        ensures
            is_followed(
                *old(self),
                measured,
                cc_phase,
                low,
                high,
                adjustf,
                to_mhz,
                to_hz,
                drift,
                generate,
                offset,
                *final(self),
            ),
    {
        self.cc_phase = cc_phase;
        let within: Double = measured.clip(low, high);
        let held: bool = !measured.is_same(within);
        let freq: Double = if adjustf {
            let mut stack: Option<StackableMa> = self.meas_stack.take();
            if let Some(stack) = &mut stack {
                stack.push(within);
            }
            self.meas_stack = stack;
            within
        } else {
            to_hz(self.cc_freq_mhz)
        };
        self.set_cc(to_mhz(freq), generate);
        let off: Double = drift(freq);
        let mut stack: Option<StackableMa> = self.chroma_log_drift.take();
        if let Some(stack) = &mut stack {
            stack.push(off);
            // Only for the trimming of the window.
            let _ = stack.pull(mean);
        }
        self.chroma_log_drift = stack;
        assert(to_mhz.ensures((freq,), self.cc_freq_mhz));
        assert(drift.ensures((freq,), off));
        (off, held)
    }
}

/// The carrier in use: the tracked one if the carrier is tracked.
pub fn active_chroma_heterodyne<'a, T>(
    tracked_carrier: bool,
    state: &'a ChromaAfcState<T>,
    fixed: &'a Vec<Vec<T>>,
) -> (carrier: &'a Vec<Vec<T>>)
    ensures
        *carrier == if tracked_carrier {
            state.chroma_heterodyne
        } else {
            *fixed
        },
{
    if tracked_carrier {
        &state.chroma_heterodyne
    } else {
        fixed
    }
}

/// The window keeps the newest values, and pulling again changes nothing.
pub proof fn law_window_is_bounded<T>(items: Seq<T>, count: int)
    requires
        count >= 0,
    ensures
        last_items(items, count).len() <= count,
        last_items(last_items(items, count), count) == last_items(items, count),
        items.len() > 0 && count > 0 ==> last_items(items, count).last() == items.last(),
{
}

/// Whether `output` is `moved` with the level `dc` taken off every sample.
pub open spec fn is_levelled<T, L: Fn(&Vec<T>) -> T, R: Fn(T, T) -> T>(
    moved: Vec<T>,
    dc: T,
    level: L,
    remove: R,
    output: Seq<T>,
) -> bool {
    &&& level.ensures((&moved,), dc)
    &&& output.len() == moved@.len()
    &&& forall|i: int|
        0 <= i < output.len() ==> remove.ensures((moved@[i], dc), #[trigger] output[i])
}

/// Turns the colour signal by `move_by` samples and takes its level off every
/// sample.
pub fn shift_chroma_and_remove_dc<T: Copy, L: Fn(&Vec<T>) -> T, R: Fn(T, T) -> T>(
    signal: Vec<T>,
    move_by: isize,
    level: L,
    remove: R,
) -> (output: Vec<T>)
    requires
        forall|samples: &Vec<T>| level.requires((samples,)),
        forall|sample: T, dc: T| remove.requires((sample, dc)),
    ensures
        signal@.len() == 0 ==> output@ == signal@,
        signal@.len() > 0 ==> exists|moved: Vec<T>, dc: T|
            moved@ == rolled(signal@, move_by as int) && #[trigger] is_levelled(
                moved,
                dc,
                level,
                remove,
                output@,
            ),
{
    if signal.len() == 0 {
        return signal;
    }
    let mut moved: Vec<T> = signal;
    roll(moved.as_mut_slice(), move_by);
    let dc: T = level(&moved);
    let mut output: Vec<T> = Vec::with_capacity(moved.len());
    let mut i: usize = 0;
    while i < moved.len()
        invariant
            i <= moved@.len(),
            forall|sample: T, dc: T| remove.requires((sample, dc)),
            output@.len() == i,
            forall|j: int| 0 <= j < i ==> remove.ensures((moved@[j], dc), #[trigger] output@[j]),
        decreases moved@.len() - i,
    {
        output.push(remove(moved[i], dc));
        i += 1;
    }
    assert(is_levelled(moved, dc, level, remove, output@));
    output
}

/// Whether `output` is what `apply` makes of `input` with `filter`.
pub open spec fn is_filtered<S, T, A: Fn(&S, &[T]) -> Vec<T>>(
    apply: A,
    filter: S,
    input: Seq<T>,
    output: Seq<T>,
) -> bool {
    exists|samples: &[T], result: Vec<T>|
        samples@ == input && result@ == output && #[trigger] apply.ensures(
            (&filter, samples),
            result,
        )
}

/// Whether `stages` is a run through `filters`, one after the other, of a signal
/// that begins as `input`.
pub open spec fn is_chain<S, T, A: Fn(&S, &[T]) -> Vec<T>>(
    apply: A,
    filters: Seq<&S>,
    input: Seq<T>,
    stages: Seq<Seq<T>>,
) -> bool {
    &&& stages.len() == filters.len() + 1
    &&& stages[0] == input
    &&& forall|k: int|
        0 <= k < filters.len() ==> is_filtered(
            apply,
            *(#[trigger] filters[k]),
            stages[k],
            stages[k + 1],
        )
}

/// Runs a signal through filters, one after the other.
pub fn chroma_afc_chainfiltfilt<S, T: Copy, A: Fn(&S, &[T]) -> Vec<T>>(
    filters: &[&S],
    data: &[T],
    apply: &A,
) -> (filtered: Vec<T>)
    requires
        forall|filter: &S, samples: &[T]| apply.requires((filter, samples)),
    ensures
        exists|stages: Seq<Seq<T>>| #[trigger]
            is_chain(*apply, filters@, data@, stages) && filtered@ == stages.last(),
{
    let mut filtered: Vec<T> = slice_to_vec(data);
    let ghost mut stages: Seq<Seq<T>> = seq![data@];
    let mut k: usize = 0;
    while k < filters.len()
        invariant
            k <= filters@.len(),
            forall|filter: &S, samples: &[T]| apply.requires((filter, samples)),
            is_chain(*apply, filters@.take(k as int), data@, stages),
            filtered@ == stages.last(),
        decreases filters@.len() - k,
    {
        let next: Vec<T> = apply(filters[k], filtered.as_slice());
        proof {
            assert(is_filtered(*apply, *filters@[k as int], filtered@, next@));
            let before = stages;
            stages = stages.push(next@);
            let done = filters@.take(k + 1);
            assert forall|j: int| 0 <= j < done.len() implies is_filtered(
                *apply,
                *(#[trigger] done[j]),
                stages[j],
                stages[j + 1],
            ) by {
                if j < k {
                    assert(done[j] == filters@.take(k as int)[j]);
                    assert(stages[j] == before[j] && stages[j + 1] == before[j + 1]);
                }
            }
        }
        filtered = next;
        k += 1;
    }
    assert(filters@.take(k as int) =~= filters@);
    filtered
}

/// The filters of the colour signal: the band filter, and the notches that are
/// in use.
pub open spec fn chroma_filters<'a, S>(
    filter: &'a S,
    audio_notch: Option<&'a S>,
    video_notch: Option<&'a S>,
) -> Seq<&'a S> {
    let band = seq![filter];
    let audio = match audio_notch {
        Some(notch) => band.push(notch),
        None => band,
    };
    match video_notch {
        Some(notch) => audio.push(notch),
        None => audio,
    }
}

/// The first `count` items, or all where there are fewer.
pub open spec fn first_items<T>(items: Seq<T>, count: int) -> Seq<T> {
    if items.len() <= count {
        items
    } else {
        items.take(count)
    }
}

/// Whether `output` is the colour signal of the first `blocklen` samples: what the
/// filters make of them, turned by `places`, with its level taken off.
pub open spec fn is_demodulated<
    S,
    T,
    A: Fn(&S, &[T]) -> Vec<T>,
    L: Fn(&Vec<T>) -> T,
    R: Fn(T, T) -> T,
>(
    data: Seq<T>,
    blocklen: int,
    filters: Seq<&S>,
    places: int,
    apply: A,
    level: L,
    remove: R,
    output: Seq<T>,
) -> bool {
    exists|stages: Seq<Seq<T>>|
        {
            &&& #[trigger] is_chain(apply, filters, first_items(data, blocklen), stages)
            &&& stages.last().len() == 0 ==> output.len() == 0
            &&& stages.last().len() > 0 ==> exists|moved: Vec<T>, dc: T|
                moved@ == rolled(stages.last(), places) && #[trigger] is_levelled(
                    moved,
                    dc,
                    level,
                    remove,
                    output,
                )
        }
}

/// Filters the colour signal out of the first `blocklen` samples, turns it by
/// `move_by` samples, or `offset` where that is not given, and takes its level
/// off.
pub fn demod_chroma_filt_array<
    S,
    T: Copy,
    A: Fn(&S, &[T]) -> Vec<T>,
    L: Fn(&Vec<T>) -> T,
    R: Fn(T, T) -> T,
>(
    data: &[T],
    blocklen: usize,
    filter: &S,
    audio_notch: Option<&S>,
    video_notch: Option<&S>,
    move_by: Option<isize>,
    offset: isize,
    apply: &A,
    level: L,
    remove: R,
) -> (output: Vec<T>)
    requires
        forall|filter: &S, samples: &[T]| apply.requires((filter, samples)),
        forall|samples: &Vec<T>| level.requires((samples,)),
        forall|sample: T, dc: T| remove.requires((sample, dc)),
    ensures
        is_demodulated(
            data@,
            blocklen as int,
            chroma_filters(filter, audio_notch, video_notch),
            match move_by {
                Some(places) => places as int,
                None => offset as int,
            },
            *apply,
            level,
            remove,
            output@,
        ),
{
    let end: usize = if blocklen < data.len() {
        blocklen
    } else {
        data.len()
    };
    let mut filters: Vec<&S> = Vec::new();
    filters.push(filter);
    if let Some(notch) = audio_notch {
        filters.push(notch);
    }
    if let Some(notch) = video_notch {
        filters.push(notch);
    }
    assert(filters@ =~= chroma_filters(filter, audio_notch, video_notch));
    let block: &[T] = slice_subrange(data, 0, end);
    let filtered: Vec<T> = chroma_afc_chainfiltfilt(filters.as_slice(), block, apply);
    assert(block@ =~= first_items(data@, blocklen as int));
    let places: isize = match move_by {
        Some(places) => places,
        None => offset,
    };
    shift_chroma_and_remove_dc(filtered, places, level, remove)
}

/// The window holds the last values, in order: as many as it has room for, or all.
pub proof fn law_window_holds_the_last_items<T>(items: Seq<T>, count: int, i: int)
    requires
        count >= 0,
        0 <= i < last_items(items, count).len(),
    ensures
        last_items(items, count).len() == if items.len() <= count {
            items.len() as int
        } else {
            count
        },
        last_items(items, count)[i] == items[items.len() - last_items(items, count).len() + i],
{
}

/// A block holds the first samples, in order: as many as it has room for, or all.
pub proof fn law_block_holds_the_first_items<T>(items: Seq<T>, count: int, i: int)
    requires
        count >= 0,
        0 <= i < first_items(items, count).len(),
    ensures
        first_items(items, count).len() == if items.len() <= count {
            items.len() as int
        } else {
            count
        },
        first_items(items, count)[i] == items[i],
{
}

/// A new stack of frequencies is empty, and averages over the last 8192 of them.
pub proof fn law_fresh_stacks_are_empty(stack: StackableMa)
    ensures
        is_fresh_stack(Some(stack)) <==> stack.stack@.len() == 0 && stack.min_watermark == 0
            && stack.window_average == 8192,
        !is_fresh_stack(None),
{
}

/// The four tables are those of one wave, sample by sample: the cosine with the other
/// sign, the sine, the cosine, and the sine with the other sign.
pub proof fn law_tables_hold_one_wave<T, C: Fn(usize) -> (T, T), N: Fn(T) -> T>(
    tables: Seq<Vec<T>>,
    waves: Seq<(T, T)>,
    carrier: C,
    negate: N,
    i: int,
)
    requires
        are_phases(tables, waves, negate),
        is_wave(waves, carrier),
        0 <= i < waves.len(),
    ensures
        tables.len() == 4,
        tables[0]@.len() == waves.len(),
        tables[1]@.len() == waves.len(),
        tables[2]@.len() == waves.len(),
        tables[3]@.len() == waves.len(),
        carrier.ensures((i as usize,), (tables[1]@[i], tables[2]@[i])),
        negate.ensures((tables[2]@[i],), tables[0]@[i]),
        negate.ensures((tables[1]@[i],), tables[3]@[i]),
{
    let wave = waves[i];
    assert(wave == (wave.0, wave.1));
    assert(carrier.ensures((i as usize,), waves[i]));
}

/// The filters of the colour signal are the band filter, then the notch for the sound,
/// then that for the picture, each notch only if it is in use.
pub proof fn law_filters_follow_the_band<S>(filter: &S, audio: &S, video: &S)
    ensures
        chroma_filters(filter, None, None) =~= seq![filter],
        chroma_filters(filter, Some(audio), None) =~= seq![filter, audio],
        chroma_filters(filter, None, Some(video)) =~= seq![filter, video],
        chroma_filters(filter, Some(audio), Some(video)) =~= seq![filter, audio, video],
{
}

/// A chain hands every filter what the one before it made: without filters it is the
/// signal itself, and with one more filter that filter comes last.
pub proof fn law_chains_go_filter_by_filter<S, T, A: Fn(&S, &[T]) -> Vec<T>>(
    apply: A,
    filters: Seq<&S>,
    input: Seq<T>,
    stages: Seq<Seq<T>>,
)
    requires
        is_chain(apply, filters, input, stages),
    ensures
        filters.len() == 0 ==> stages.last() == input,
        filters.len() > 0 ==> {
            &&& is_chain(apply, filters.drop_last(), input, stages.drop_last())
            &&& exists|samples: &[T], result: Vec<T>|
                samples@ == stages.drop_last().last() && result@ == stages.last()
                    && #[trigger] apply.ensures((filters.last(), samples), result)
        },
{
    if filters.len() > 0 {
        let last = filters.len() - 1;
        let shorter = filters.drop_last();
        let before = stages.drop_last();
        assert forall|k: int| 0 <= k < shorter.len() implies is_filtered(
            apply,
            *(#[trigger] shorter[k]),
            before[k],
            before[k + 1],
        ) by {
            assert(shorter[k] == filters[k]);
        }
        assert(is_filtered(apply, *filters[last], stages[last], stages[last + 1]));
        let (samples, result) = choose|samples: &[T], result: Vec<T>|
            samples@ == stages[last] && result@ == stages[last + 1] && #[trigger] apply.ensures(
                (filters[last], samples),
                result,
            );
        assert(apply.ensures((filters.last(), samples), result));
    }
}

/// A levelled signal is the turned one less one level, which is that of the whole turned
/// signal.
pub proof fn law_one_level_is_taken_off<T, L: Fn(&Vec<T>) -> T, R: Fn(T, T) -> T>(
    moved: Vec<T>,
    dc: T,
    level: L,
    remove: R,
    output: Seq<T>,
    i: int,
)
    requires
        is_levelled(moved, dc, level, remove, output),
        0 <= i < moved@.len(),
    ensures
        output.len() == moved@.len(),
        level.ensures((&moved,), dc),
        remove.ensures((moved@[i], dc), output[i]),
{
}

/// The carrier follows a measurement that is to be followed: the measured frequency where
/// it lies between the bounds, otherwise the bound next to it. One that is not to be
/// followed changes neither the frequency nor the measurements that are kept. Either way
/// the carrier is made anew with the measured phase, and its drift is the last one kept.
pub proof fn law_carriers_follow_measurements<
    T,
    G: Fn(Double, Double) -> Vec<Vec<T>>,
    U: Fn(Double) -> Double,
    V: Fn(Double) -> Double,
    W: Fn(Double) -> Double,
>(
    before: ChromaAfcState<T>,
    measured: Double,
    cc_phase: Double,
    low: Double,
    high: Double,
    adjustf: bool,
    to_mhz: U,
    to_hz: V,
    drift: W,
    generate: G,
    offset: (Double, bool),
    after: ChromaAfcState<T>,
)
    requires
        low.at_most(high),
        !measured.nan(),
        before.chroma_log_drift is Some,
        adjustf ==> before.meas_stack is Some,
        is_followed(
            before,
            measured,
            cc_phase,
            low,
            high,
            adjustf,
            to_mhz,
            to_hz,
            drift,
            generate,
            offset,
            after,
        ),
    ensures
        after.cc_phase == cc_phase,
        generate.ensures((after.cc_freq_mhz, cc_phase), after.chroma_heterodyne),
        offset.1 <==> measured.steps() < low.steps() || measured.steps() > high.steps(),
        after.meas_stack is Some <==> before.meas_stack is Some,
        !adjustf && before.meas_stack is Some ==> after.meas_stack->0.stack@
            == before.meas_stack->0.stack@,
        adjustf ==> {
            let kept = after.meas_stack->0.stack@;
            let frequency = kept.last();
            &&& kept.len() == before.meas_stack->0.stack@.len() + 1
            &&& kept.drop_last() == before.meas_stack->0.stack@
            &&& low.steps() <= measured.steps() <= high.steps() ==> frequency == measured
            &&& measured.steps() < low.steps() ==> frequency == low
            &&& measured.steps() > high.steps() ==> frequency == high
            &&& to_mhz.ensures((frequency,), after.cc_freq_mhz)
            &&& drift.ensures((frequency,), offset.0)
        },
        !adjustf ==> exists|frequency: Double|
            {
                &&& to_hz.ensures((before.cc_freq_mhz,), frequency)
                &&& #[trigger] to_mhz.ensures((frequency,), after.cc_freq_mhz)
                &&& drift.ensures((frequency,), offset.0)
            },
        after.chroma_log_drift is Some,
        before.chroma_log_drift->0.window_average > 0 ==> {
            let log = after.chroma_log_drift->0.stack@;
            &&& log.len() > 0
            &&& log.last() == offset.0
            &&& log.len() <= before.chroma_log_drift->0.window_average
        },
{
    law_order_is_numeric(measured, low);
    law_order_is_numeric(high, measured);
    law_order_is_numeric(measured, high);
    let pushed = before.chroma_log_drift->0.stack@.push(offset.0);
    law_window_is_bounded(pushed, before.chroma_log_drift->0.window_average as int);
    if adjustf {
        let kept = after.meas_stack->0.stack@;
        assert(kept.drop_last() =~= before.meas_stack->0.stack@);
        assert(kept.last() == measured.clipped(low, high));
    }
}

/// A carrier is as long as the longer of the two kinds of fields.
pub proof fn law_carriers_cover_every_field(outlinelen: int, lines: int, other_lines: int)
    requires
        outlinelen >= 0,
    ensures
        longer_field(outlinelen, lines, other_lines) >= outlinelen * lines,
        longer_field(outlinelen, lines, other_lines) >= outlinelen * other_lines,
        longer_field(outlinelen, lines, other_lines) == outlinelen * lines || longer_field(
            outlinelen,
            lines,
            other_lines,
        ) == outlinelen * other_lines,
{
    assert((lines >= other_lines ==> outlinelen * lines >= outlinelen * other_lines) && (lines
        <= other_lines ==> outlinelen * lines <= outlinelen * other_lines)) by (nonlinear_arith)
        requires
            outlinelen >= 0,
    ;
}

/// A colour signal without samples stays empty; any other has, for every sample of the
/// filtered block, that sample as many places on, less one level.
pub proof fn law_colour_is_filtered_turned_and_levelled<
    S,
    T,
    A: Fn(&S, &[T]) -> Vec<T>,
    L: Fn(&Vec<T>) -> T,
    R: Fn(T, T) -> T,
>(
    data: Seq<T>,
    blocklen: int,
    filters: Seq<&S>,
    places: int,
    apply: A,
    level: L,
    remove: R,
    output: Seq<T>,
)
    requires
        is_demodulated(data, blocklen, filters, places, apply, level, remove, output),
        blocklen >= 0,
    ensures
        exists|stages: Seq<Seq<T>>, block: Seq<T>|
            {
                &&& block.len() == if data.len() <= blocklen {
                    data.len() as int
                } else {
                    blocklen
                }
                &&& forall|i: int| 0 <= i < block.len() ==> #[trigger] block[i] == data[i]
                &&& #[trigger] is_chain(apply, filters, block, stages)
                &&& output.len() == stages.last().len()
                &&& output.len() > 0 ==> exists|moved: Vec<T>, dc: T|
                    {
                        &&& #[trigger] is_levelled(moved, dc, level, remove, output)
                        &&& moved@.len() == stages.last().len()
                        &&& forall|i: int|
                            0 <= i < moved@.len() ==> #[trigger] moved@[i] == stages.last()[(i
                                - places) % moved@.len() as int]
                    }
            },
{
    let block = first_items(data, blocklen);
    let stages = choose|stages: Seq<Seq<T>>|
        {
            &&& #[trigger] is_chain(apply, filters, block, stages)
            &&& stages.last().len() == 0 ==> output.len() == 0
            &&& stages.last().len() > 0 ==> exists|moved: Vec<T>, dc: T|
                moved@ == rolled(stages.last(), places) && #[trigger] is_levelled(
                    moved,
                    dc,
                    level,
                    remove,
                    output,
                )
        };
    assert(is_chain(apply, filters, block, stages));
    if stages.last().len() > 0 {
        let (moved, dc) = choose|moved: Vec<T>, dc: T|
            moved@ == rolled(stages.last(), places) && #[trigger] is_levelled(
                moved,
                dc,
                level,
                remove,
                output,
            );
        assert(is_levelled(moved, dc, level, remove, output));
    }
}

} // verus!
