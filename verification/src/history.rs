//! What the events of a run become: which work follows from which answer, and which
//! field from which signal.
use crate::decoder::{DecoderSpec, Description, Effect, Event, Needed, Phase, Progress};
use crate::double::{law_whole_numbers_lose_little, Double};
use crate::field::{DecodeFieldResult, DecodedField, InterFieldState};
use crate::info::{LumaOutput, Written};
use crate::laws::{accepted, after_events, fields_of, returned};
use vstd::prelude::*;

verus! {

/// Whether no call of a run failed.
pub open spec fn none_failed<D>(events: Seq<Event<D>>) -> bool {
    forall|i: int| 0 <= i < events.len() ==> !(#[trigger] events[i] is Failed)
}

/// What the last look at the input of a run found; `None` before the first look.
pub open spec fn last_result<D>(events: Seq<Event<D>>) -> Option<Option<DecodeFieldResult<D>>>
    decreases events.len(),
{
    if events.len() == 0 {
        None
    } else {
        match events.last() {
            Event::Predecoded { result, .. } => Some(result),
            _ => last_result(events.drop_last()),
        }
    }
}

/// The field that a run has found and not yet handed on.
pub open spec fn field_found<D>(events: Seq<Event<D>>) -> Option<DecodedField<D>> {
    match last_result(events) {
        Some(Some(result)) => Some(result.field),
        _ => None,
    }
}

/// What the last look at the input of a run left behind for the next one.
pub open spec fn left_behind<D>(events: Seq<Event<D>>, start: InterFieldState) -> InterFieldState
    decreases events.len(),
{
    if events.len() == 0 {
        start
    } else {
        match events.last() {
            Event::Predecoded { inter_field_state, .. } => inter_field_state,
            _ => left_behind(events.drop_last(), start),
        }
    }
}

/// The sum of offsets that the last position of a run was asked for with.
pub open spec fn last_sum<D>(events: Seq<Event<D>>) -> Double
    decreases events.len(),
{
    if events.len() == 0 {
        Double { bits: 0 }
    } else {
        match events.last() {
            Event::Located { toffset, .. } => toffset,
            _ => last_sum(events.drop_last()),
        }
    }
}

/// Where in the input a run is: where it was when the last field was handed on.
pub open spec fn position<D>(events: Seq<Event<D>>, start: Double) -> Double
    decreases events.len(),
{
    if events.len() == 0 {
        start
    } else {
        let before = events.drop_last();
        if events.last() is Predecoded && field_found(before) is Some {
            last_sum(before)
        } else {
            position(before, start)
        }
    }
}

/// Whether a decoder holds what its events say.
spec fn holds_history<D>(
    state: Progress<D>,
    spec: DecoderSpec,
    fdoffset: Double,
    events: Seq<Event<D>>,
) -> bool {
    &&& state.spec == spec
    &&& state.fdoffset == position(events, fdoffset)
    &&& state.inter_field_state == left_behind(events, InterFieldState::fresh(spec.track_phase))
    &&& state.has_pending == (last_result(events) is Some)
    &&& match state.phase {
        Phase::Predecoding { field, scheduled, toffset, .. } => {
            &&& field == field_found(events)
            &&& scheduled == !(last_result(events) matches Some(None))
            &&& toffset == last_sum(events)
        },
        _ => last_result(events) matches Some(result) ==> state.pending_result == result,
    }
}

proof fn lemma_history_is_held<D>(spec: DecoderSpec, fdoffset: Double, events: Seq<Event<D>>)
    requires
        accepted(Progress::<D>::fresh(spec, fdoffset), events),
        none_failed(events),
    ensures
        holds_history(
            after_events(Progress::<D>::fresh(spec, fdoffset), events),
            spec,
            fdoffset,
            events,
        ),
    decreases events.len(),
{
    if events.len() > 0 {
        let before = events.drop_last();
        assert(forall|i: int| 0 <= i < before.len() ==> before[i] == events[i]);
        assert(events.last() == events[events.len() - 1]);
        lemma_history_is_held(spec, fdoffset, before);
    }
}

/// A position is asked for with the present one and the offset of the field that was
/// found last; with no offset where none was found, and with zero before the first
/// look.
pub proof fn law_positions_follow_results<D>(
    spec: DecoderSpec,
    fdoffset: Double,
    events: Seq<Event<D>>,
)
    requires
        accepted(Progress::<D>::fresh(spec, fdoffset), events),
        none_failed(events),
        events.len() > 0,
    ensures
        after_events(Progress::<D>::fresh(spec, fdoffset), events.drop_last()).step(
            events.last(),
        ).1 matches Effect::Locate { fdoffset: at, offset } ==> {
            &&& at == position(events, fdoffset)
            &&& match last_result(events) {
                None => offset matches Some(zero) && zero.bits == 0,
                Some(Some(result)) => offset == Some(result.offset),
                Some(None) => offset is None,
            }
        },
{
    lemma_history_is_held(spec, fdoffset, events);
    let before = events.drop_last();
    assert(forall|i: int| 0 <= i < before.len() ==> before[i] == events[i]);
    lemma_history_is_held(spec, fdoffset, before);
}

/// A look at the input is told of the field found before it, if that is valid, and
/// what the look before it left behind; at the start, what the settings say of the
/// tracks.
pub proof fn law_looks_are_told_of_the_last_field<D>(
    spec: DecoderSpec,
    fdoffset: Double,
    events: Seq<Event<D>>,
)
    requires
        accepted(Progress::<D>::fresh(spec, fdoffset), events),
        none_failed(events),
        events.len() > 0,
    ensures
        after_events(Progress::<D>::fresh(spec, fdoffset), events.drop_last()).step(
            events.last(),
        ).1 matches Effect::Predecode { prevfield, inter_field_state, .. } ==> {
            &&& prevfield is Some <==> (field_found(events) matches Some(field) && field.valid)
            &&& prevfield matches Some(told) ==> {
                let field = field_found(events)->0;
                &&& told.readloc == field.readloc
                &&& told.field_number == field.field_number
                &&& told.phase_adjust_median == field.phase_adjust_median
            }
            &&& inter_field_state == left_behind(
                events,
                InterFieldState::fresh(spec.track_phase),
            )
        },
{
    let before = events.drop_last();
    assert(forall|i: int| 0 <= i < before.len() ==> before[i] == events[i]);
    lemma_history_is_held(spec, fdoffset, before);
}

/// A look at the input is followed by the picture of the field that was found before
/// it, if that is valid: the very field, but for what was found of its wow. Where the
/// field is not valid, or the first look was made, the next look follows. Where no
/// field had been found, the input is used up.
pub proof fn law_found_fields_are_rendered<D>(
    spec: DecoderSpec,
    fdoffset: Double,
    events: Seq<Event<D>>,
)
    requires
        accepted(Progress::<D>::fresh(spec, fdoffset), events),
        none_failed(events),
        events.len() > 0,
    ensures
        ({
            let before = events.drop_last();
            let effect = after_events(Progress::<D>::fresh(spec, fdoffset), before).step(
                events.last(),
            ).1;
            &&& events.last() is Predecoded ==> match last_result(before) {
                None => effect is Locate,
                Some(Some(result)) => if result.field.valid {
                    effect matches Effect::RenderLuma { field } && field == (DecodedField {
                        wow_analysis: None,
                        ..result.field
                    })
                } else {
                    effect is Locate
                },
                Some(None) => effect matches Effect::Return { needed, .. } && needed
                    == Needed::Done(position(events, fdoffset).as_u64()),
            }
            &&& effect is RenderLuma ==> events.last() is Predecoded
            &&& effect matches Effect::Return { needed: Needed::Done(_), .. } ==> events.last()
                is Predecoded
        }),
{
    let before = events.drop_last();
    assert(forall|i: int| 0 <= i < before.len() ==> before[i] == events[i]);
    lemma_history_is_held(spec, fdoffset, before);
}

/// The field whose luma picture a run rendered last.
pub open spec fn last_pictured<D>(events: Seq<Event<D>>) -> Option<DecodedField<D>>
    decreases events.len(),
{
    if events.len() == 0 {
        None
    } else {
        match events.last() {
            Event::RenderedLuma { field, .. } => Some(field),
            _ => last_pictured(events.drop_last()),
        }
    }
}

/// The metadata is that of the field whose luma picture was rendered last: its output
/// scale and the lines of its picture, whatever came before or after.
pub proof fn law_metadata_is_of_the_last_picture<D>(
    spec: DecoderSpec,
    fdoffset: Double,
    events: Seq<Event<D>>,
)
    ensures
        ({
            let metadata = after_events(
                Progress::<D>::fresh(spec, fdoffset),
                events,
            ).metadata_field;
            &&& metadata is Some <==> last_pictured(events) is Some
            &&& last_pictured(events) matches Some(field) ==> {
                &&& metadata->0.outlinecount == field.outlinecount
                &&& field.out_scale matches Some(scale) ==> metadata->0.out_scale == scale
            }
        }),
    decreases events.len(),
{
    if events.len() > 0 {
        law_metadata_is_of_the_last_picture(spec, fdoffset, events.drop_last());
    }
}

/// Whether `file_loc` is what a double holds of the position `readloc`: the position
/// itself where it has no more than 53 digits, otherwise its leading ones.
pub open spec fn is_position_of(file_loc: i64, readloc: i64) -> bool {
    let off = file_loc - readloc;
    if readloc >= 0 {
        -readloc <= 0x20_0000_0000_0000 * off <= readloc
    } else {
        readloc <= 0x20_0000_0000_0000 * off <= -readloc
    }
}

/// Whether a field is that of three events in a row from event `i` on: its pictures
/// are those that were rendered, its phase ID is the one read off the signal, where
/// there is one, its order was detected, and its measurements and dropouts are those of
/// its description. Dropouts are entered where they are looked for and some are found.
pub open spec fn is_of_events<D>(
    field: Written,
    do_dod: bool,
    events: Seq<Event<D>>,
    i: int,
) -> bool {
    &&& 0 <= i
    &&& i + 2 < events.len()
    &&& events[i] matches Event::RenderedLuma { luma, .. }
    &&& events[i + 1] matches Event::RenderedChroma { field: decoded, chroma }
    &&& events[i + 2] matches Event::Described { description }
    &&& shows(field, do_dod, luma, decoded, chroma, description)
}

/// Whether a field shows what was rendered and measured of it.
pub open spec fn shows<D>(
    field: Written,
    do_dod: bool,
    luma: LumaOutput,
    decoded: DecodedField<D>,
    chroma: Option<Vec<u16>>,
    description: Description,
) -> bool {
    &&& field.picture.luma == luma
    &&& field.picture.chroma == chroma
    &&& field.field_phase_id_raw == decoded.field_phase_id
    &&& decoded.field_phase_id matches Some(id) ==> field.info.field_phase_id == id
    &&& field.info.detected_first_field <==> decoded.is_first_field == Some(true)
    &&& is_position_of(field.info.file_loc, decoded.readloc)
    &&& field.info.decode_faults is None ==> field.info.sync_conf == description.sync_conf
    &&& field.info.vits_metrics.w_snr == description.vits_metrics.w_snr
    &&& field.info.vits_metrics.b_psnr == description.vits_metrics.b_psnr
    &&& field.info.drop_outs is Some <==> do_dod && description.drop_outs.field_line@.len() > 0
    &&& field.info.drop_outs matches Some(runs) ==> {
        &&& runs.field_line == description.drop_outs.field_line@
        &&& runs.startx == description.drop_outs.startx@
        &&& runs.endx == description.drop_outs.endx@
    }
}

/// Whether a field is that of some events of a run.
pub open spec fn is_of_run<D>(field: Written, do_dod: bool, events: Seq<Event<D>>) -> bool {
    exists|i: int| is_of_events(field, do_dod, events, i)
}

proof fn lemma_run_goes_on<D>(field: Written, do_dod: bool, events: Seq<Event<D>>, event: Event<D>)
    requires
        is_of_run(field, do_dod, events),
    ensures
        is_of_run(field, do_dod, events.push(event)),
{
    let more = events.push(event);
    let i = choose|i: int| is_of_events(field, do_dod, events, i);
    assert(more[i] == events[i] && more[i + 1] == events[i + 1] && more[i + 2] == events[i + 2]);
    assert(is_of_events(field, do_dod, more, i));
}

/// Whether all that a decoder holds is of the events of its run.
spec fn holds_signal<D>(state: Progress<D>, do_dod: bool, events: Seq<Event<D>>) -> bool {
    let count = events.len() as int;
    &&& state.spec.do_dod == do_dod
    &&& forall|i: int|
        0 <= i < state.output.len() ==> is_of_run(#[trigger] state.output[i], do_dod, events)
    &&& state.last_first matches Some(field) ==> is_of_run(field, do_dod, events)
    &&& state.last_second matches Some(field) ==> is_of_run(field, do_dod, events)
    &&& state.phase matches Phase::RenderingChroma { luma } ==> count >= 1 && (events[count
        - 1] matches Event::RenderedLuma { luma: rendered, .. } && rendered == luma)
    &&& state.phase matches Phase::Describing { luma, chroma, first, field_phase_id, file_loc }
        ==> {
        &&& count >= 2
        &&& events[count - 2] matches Event::RenderedLuma { luma: rendered, .. } && rendered
            == luma
        &&& events[count - 1] matches Event::RenderedChroma { field, chroma: rendered } && {
            &&& rendered == chroma
            &&& first <==> field.is_first_field == Some(true)
            &&& field_phase_id == field.field_phase_id
            &&& is_position_of(file_loc, field.readloc)
        }
    }
}

proof fn lemma_signal_is_held<D>(
    state: Progress<D>,
    do_dod: bool,
    events: Seq<Event<D>>,
    event: Event<D>,
)
    requires
        holds_signal(state, do_dod, events),
        state.accepts(event),
    ensures
        holds_signal(state.step(event).0, do_dod, events.push(event)),
{
    let more = events.push(event);
    let count = events.len() as int;
    let after = state.step(event).0;
    assert(more[count] == event);
    assert forall|field: Written| is_of_run(field, do_dod, events) implies #[trigger] is_of_run(
        field,
        do_dod,
        more,
    ) by {
        lemma_run_goes_on(field, do_dod, events, event);
    }
    match event {
        Event::RenderedChroma { field, .. } => {
            law_whole_numbers_lose_little(field.readloc as int);
            law_whole_numbers_lose_little(-field.readloc);
            assert(more[count - 1] == events[count - 1]);
        },
        Event::Described { description } => {
            let dataset = state.dataset(description);
            let addition = state.addition(description);
            assert(more[count - 1] == events[count - 1]);
            assert(more[count - 2] == events[count - 2]);
            assert(is_of_events(dataset, do_dod, more, count - 2));
            assert(is_of_run(dataset, do_dod, more));
            assert forall|i: int| 0 <= i < after.output.len() implies is_of_run(
                #[trigger] after.output[i],
                do_dod,
                more,
            ) by {
                if i < state.output.len() {
                    assert(after.output[i] == state.output[i]);
                } else {
                    assert(after.output[i] == addition[i - state.output.len()]);
                }
            }
        },
        _ => {},
    }
}

proof fn lemma_fields_are_of_run<D>(spec: DecoderSpec, fdoffset: Double, events: Seq<Event<D>>)
    requires
        accepted(Progress::<D>::fresh(spec, fdoffset), events),
    ensures
        holds_signal(
            after_events(Progress::<D>::fresh(spec, fdoffset), events),
            spec.do_dod,
            events,
        ),
        ({
            let fields = returned(Progress::<D>::fresh(spec, fdoffset), events);
            forall|i: int|
                0 <= i < fields.len() ==> is_of_run(#[trigger] fields[i], spec.do_dod, events)
        }),
    decreases events.len(),
{
    if events.len() > 0 {
        let start = Progress::<D>::fresh(spec, fdoffset);
        let before = events.drop_last();
        let event = events.last();
        lemma_fields_are_of_run(spec, fdoffset, before);
        assert(before.push(event) =~= events);
        let at = after_events(start, before);
        lemma_signal_is_held(at, spec.do_dod, before, event);
        let done = returned(start, before);
        let last = fields_of(at.step(event).1);
        assert forall|i: int| 0 <= i < returned(start, events).len() implies is_of_run(
            #[trigger] returned(start, events)[i],
            spec.do_dod,
            events,
        ) by {
            if i < done.len() {
                assert(returned(start, events)[i] == done[i]);
                lemma_run_goes_on(done[i], spec.do_dod, before, event);
            } else {
                assert(returned(start, events)[i] == last[i - done.len()]);
                assert(last == at.output);
                lemma_run_goes_on(last[i - done.len()], spec.do_dod, before, event);
            }
        }
    }
}

/// Every field that a run returns, a repeated one included, shows what was rendered
/// and measured of one field: three answers in a row give its luma picture, its chroma
/// picture with the phase ID read off the signal, the order and the position, and its
/// measurements with the dropouts, line by line, start by start and end by end.
pub proof fn law_returned_fields_show_the_signal<D>(
    spec: DecoderSpec,
    fdoffset: Double,
    events: Seq<Event<D>>,
)
    requires
        accepted(Progress::<D>::fresh(spec, fdoffset), events),
    ensures
        ({
            let fields = returned(Progress::<D>::fresh(spec, fdoffset), events);
            forall|k: int|
                0 <= k < fields.len() ==> is_of_run(#[trigger] fields[k], spec.do_dod, events)
        }),
{
    lemma_fields_are_of_run(spec, fdoffset, events);
}

/// The field that is described shows its own events: the field handed in with the
/// chroma picture, and the description, in whatever state the decoder was.
pub proof fn law_described_fields_show_their_own_signal<D>(
    state: Progress<D>,
    luma: LumaOutput,
    pictured: DecodedField<D>,
    decoded: DecodedField<D>,
    chroma: Option<Vec<u16>>,
    description: Description,
)
    requires
        state.accepts(Event::RenderedLuma { field: pictured, luma }),
        state.fields.len() > 0 || decoded.is_first_field == Some(true),
    ensures
        ({
            let rendered = state.step(Event::RenderedLuma { field: pictured, luma }).0.step(
                Event::RenderedChroma { field: decoded, chroma },
            ).0;
            let after = rendered.step(Event::Described { description }).0;
            let last = after.output.last();
            after.output.len() > state.output.len() ==> shows(
                last,
                state.spec.do_dod,
                luma,
                decoded,
                chroma,
                description,
            )
        }),
{
    law_whole_numbers_lose_little(decoded.readloc as int);
    law_whole_numbers_lose_little(-decoded.readloc);
}

} // verus!
