//! What every single event does: which work it leads to, and what it leaves alone.
use crate::blocks::{law_plan_covers_field, plan_fits, plan_for};
use crate::decoder::{Action, Description, DecoderSpec, Effect, Event, Needed, Phase, Progress};
use crate::double::Double;
use crate::field::{phase_id_by_number, DecodeFieldResult, DecodedField, InterFieldState};
use crate::info::LumaOutput;
use crate::laws::law_available_blocks;
use crate::rounding::disk_location;
use vstd::prelude::*;

verus! {

/// A new decoder has found, entered and kept nothing, and rests. Of two repairs that
/// are equally right, it has not left a field out last.
pub proof fn law_new_decoders_are_empty<D>(spec: DecoderSpec, fdoffset: Double)
    ensures
        ({
            let state = Progress::<D>::fresh(spec, fdoffset);
            &&& state.spec == spec
            &&& state.fdoffset == fdoffset
            &&& state.inter_field_state.track_phase == spec.track_phase
            &&& state.fields.len() == 0
            &&& state.output.len() == 0
            &&& state.metadata_field is None
            &&& state.last_first is None
            &&& state.last_second is None
            &&& !state.has_pending
            &&& state.duplicate_prev_field
            &&& state.phase is Idle
        }),
{
}

/// A call begins with the question for a position.
pub proof fn law_calls_begin_with_a_position<D>(state: Progress<D>, event: Event<D>)
    requires
        state.accepts(event),
        event is Start,
    ensures
        state.step(event).1 is Locate,
        event matches Event::Start { window } && state.step(event).0.window == window,
{
}

/// A decoder waits exactly where its window ends before the last block of the field and
/// is not the last one; it then names the sample where the first block starts. Otherwise
/// it hands out the blocks of the field, as many as lie in the window whole.
pub proof fn law_blocks_are_waited_for<D>(state: Progress<D>, toffset: Double, from: Double)
    requires
        state.accepts(Event::Located { toffset, from }),
    ensures
        ({
            let plan = plan_for(
                from.as_i64(),
                state.spec.readlen,
                state.spec.usable_blocksize,
            );
            let end = state.window.data_start + state.window.len;
            match state.step(Event::Located { toffset, from }).1 {
                Effect::Return { needed, fields } => {
                    &&& end < plan.needed_end
                    &&& !state.window.final_chunk
                    &&& needed == Needed::From(plan.startloc as u64)
                    &&& fields == state.output
                },
                Effect::Predecode { plan: handed, available, complete, .. } => {
                    let usable = state.spec.usable_blocksize;
                    &&& end >= plan.needed_end || state.window.final_chunk
                    &&& handed == plan
                    &&& complete <==> end >= plan.needed_end
                    &&& plan.requested_begin <= available <= plan.requested_end
                    &&& forall|b: int|
                        plan.requested_begin <= b < available ==> #[trigger] (b * usable) + 32768
                            <= end
                    &&& available < plan.requested_end ==> available * usable + 32768 > end
                },
                _ => false,
            }
        }),
{
    law_plan_covers_field(from.as_i64(), state.spec.readlen, state.spec.usable_blocksize);
    law_available_blocks(
        from.as_i64(),
        state.spec.readlen,
        state.spec.usable_blocksize,
        state.window,
    );
}

/// The chroma picture is rendered of the field that the luma picture was rendered of.
pub proof fn law_chroma_follows_luma<D>(
    state: Progress<D>,
    field: DecodedField<D>,
    luma: LumaOutput,
)
    requires
        state.accepts(Event::RenderedLuma { field, luma }),
    ensures
        state.step(Event::RenderedLuma { field, luma }).1 == (Effect::RenderChroma { field }),
        state.step(Event::RenderedLuma { field, luma }).0.phase == (Phase::<
            D,
        >::RenderingChroma { luma }),
{
}

/// A field is measured once its pictures are rendered: with what it was told of the
/// field before it forgotten, and with a search for dropouts if the settings ask for
/// one. Before anything was entered, a field that is not known to be a first field is
/// passed over.
pub proof fn law_measurements_follow_pictures<D>(
    state: Progress<D>,
    field: DecodedField<D>,
    chroma: Option<Vec<u16>>,
)
    requires
        state.accepts(Event::RenderedChroma { field, chroma }),
    ensures
        ({
            let effect = state.step(Event::RenderedChroma { field, chroma }).1;
            if state.fields.len() == 0 && field.is_first_field != Some(true) {
                effect is Locate
            } else {
                effect matches Effect::Describe { field: measured, detect_dropouts } && {
                    &&& measured == (DecodedField { prevfield: None, ..field })
                    &&& detect_dropouts == state.spec.do_dod
                }
            }
        }),
{
}

/// The next look at the input follows the description of a field.
pub proof fn law_looks_follow_descriptions<D>(state: Progress<D>, description: Description)
    requires
        state.accepts(Event::Described { description }),
    ensures
        state.step(Event::Described { description }).1 is Locate,
{
}

/// A field that is entered anew is numbered behind all entries before it. Its phase ID
/// is the one read off the signal, or that of its number, and its place on the disk is
/// that of its sample.
pub proof fn law_entries_are_made_of_the_field_in_hand<D>(
    state: Progress<D>,
    description: Description,
)
    requires
        state.accepts(Event::Described { description }),
        state.step(Event::Described { description }).0.output.len() > state.output.len(),
    ensures
        ({
            let new = state.step(Event::Described { description }).0.output.last();
            &&& new.info.seq_no == state.fields.len() + 1
            &&& new.info.detected_first_field == state.phase->first
            &&& new.info.file_loc == state.phase->file_loc
            &&& new.info.disk_loc == disk_location(
                state.phase->file_loc,
                state.spec.bytes_per_field,
            )
            &&& new.field_phase_id_raw == state.phase->field_phase_id
            &&& new.field_phase_id_raw matches Some(id) ==> new.info.field_phase_id == id
            &&& new.field_phase_id_raw is None ==> new.info.field_phase_id == phase_id_by_number(
                state.phase->first,
                (state.fields.len() + 1) as int,
            )
        }),
{
}

/// A ruling says beforehand what will be entered: whether the field is written, and
/// with which labels.
pub proof fn law_rulings_come_true<D>(state: Progress<D>, description: Description)
    requires
        state.accepts(Event::Described { description }),
    ensures
        ({
            let ruling = state.ruling(description);
            let after = state.step(Event::Described { description }).0;
            let kept = if state.phase->first {
                after.last_first
            } else {
                after.last_second
            };
            &&& after.duplicate_prev_field == ruling.duplicate_prev_field
            &&& !ruling.write_field ==> after.output.len() == state.output.len()
            &&& ruling.write_field && !ruling.is_duplicate_field ==> after.output.len()
                == state.output.len() + 1
            &&& ruling.write_field ==> {
                &&& kept is Some
                &&& kept->0.info.is_first_field == ruling.is_first_field
                &&& kept->0.info.is_duplicate_field == ruling.is_duplicate_field
                &&& kept->0.info.sync_conf == ruling.sync_conf
                &&& kept->0.info.decode_faults == ruling.decode_faults
            }
        }),
{
}

/// Nothing but a look at the input moves the decoder on: no other event changes its
/// position, the field that it has found, or what one look leaves behind for the next,
/// but for a failure, which hands back the latter.
pub proof fn law_only_looks_move_on<D>(state: Progress<D>, event: Event<D>)
    requires
        state.accepts(event),
        !(event is Predecoded),
    ensures
        ({
            let (after, effect) = state.step(event);
            &&& after.fdoffset == state.fdoffset
            &&& after.has_pending == state.has_pending
            &&& !(effect is Predecode) ==> after.pending_result == state.pending_result
            &&& event matches Event::Failed { inter_field_state } ==> after.inter_field_state
                == inter_field_state
            &&& !(event is Failed) ==> after.inter_field_state == state.inter_field_state
        }),
{
}

/// The settings never change, only a luma picture changes the metadata, and the window
/// is the same for a whole call.
pub proof fn law_settings_stay<D>(state: Progress<D>, event: Event<D>)
    requires
        state.accepts(event),
    ensures
        ({
            let (after, effect) = state.step(event);
            &&& after.spec == state.spec
            &&& !(event is RenderedLuma) ==> after.metadata_field == state.metadata_field
            &&& event is Start || effect is Return || effect is Abort || after.window
                == state.window
            &&& after.phase is Idle <==> effect is Return || effect is Abort
        }),
{
}

/// Every answer to an action is accepted. Blocks that are all there give a field, and
/// others none; a luma picture is of the kind asked for, and of a field with an output
/// scale. Between calls, every window that can be addressed is accepted; in a call, that
/// its work could not be done is.
pub proof fn law_answers_are_accepted<D>(state: Progress<D>, event: Event<D>, answer: Event<D>)
    requires
        state.accepts(event),
    ensures
        ({
            let (after, effect) = state.step(event);
            match answer {
                Event::Start { window } => after.accepts(answer) <==> (effect is Return || effect
                    is Abort) && window.data_start + window.len <= usize::MAX,
                Event::Located { from, .. } => {
                    let spec = after.spec;
                    let plan = plan_for(from.as_i64(), spec.readlen, spec.usable_blocksize);
                    let end = after.window.data_start + after.window.len;
                    after.accepts(answer) <==> {
                        &&& effect is Locate
                        &&& end <= usize::MAX
                        &&& plan_fits(from.as_i64(), spec.readlen, spec.usable_blocksize)
                        &&& after.window.data_start <= plan.startloc || end < plan.needed_end
                            && !after.window.final_chunk
                    }
                },
                Event::Predecoded { result, .. } => after.accepts(answer) <==> (
                effect matches Effect::Predecode { complete, .. } && (result is Some)
                    == complete),
                Event::RenderedLuma { field, luma } => after.accepts(answer) <==> effect
                    is RenderLuma && field.out_scale is Some && (luma is Raw)
                    == after.spec.export_raw_tbc,
                Event::RenderedChroma { .. } => after.accepts(answer) <==> effect
                    is RenderChroma,
                Event::Described { .. } => after.accepts(answer) <==> effect is Describe
                    && after.fields.len() < usize::MAX,
                Event::Failed { .. } => after.accepts(answer) <==> !(effect is Return)
                    && !(effect is Abort),
            }
        }),
{
}

/// A new decoder accepts every window that can be addressed, and nothing else.
pub proof fn law_new_decoders_accept_calls<D>(
    spec: DecoderSpec,
    fdoffset: Double,
    event: Event<D>,
)
    ensures
        Progress::<D>::fresh(spec, fdoffset).accepts(event) <==> (
        event matches Event::Start { window } && window.data_start + window.len <= usize::MAX),
{
}

/// A call that fails leaves everything that was entered and kept, and loses the fields
/// that it had found.
pub proof fn law_failures_end_the_call<D>(state: Progress<D>, event: Event<D>)
    requires
        state.accepts(event),
        event is Failed,
    ensures
        state.step(event).1 is Abort,
        state.step(event).0.phase is Idle,
        state.step(event).0.output.len() == 0,
        state.step(event).0.fields == state.fields,
{
}

/// An action shows what it holds: the same work, and the fields that it returns one by
/// one, in order.
pub proof fn law_actions_show_what_they_hold<D>(action: Action<D>, i: int)
    ensures
        action matches Action::Locate { fdoffset, offset } ==> action@ == (Effect::<D>::Locate {
            fdoffset,
            offset,
        }),
        action matches Action::Predecode {
            plan,
            available,
            complete,
            prevfield,
            inter_field_state,
        } ==> action@ == (Effect::<D>::Predecode {
            plan,
            available,
            complete,
            prevfield,
            inter_field_state,
        }),
        action matches Action::RenderLuma { field } ==> action@ == (Effect::RenderLuma { field }),
        action matches Action::RenderChroma { field } ==> action@ == (Effect::RenderChroma {
            field,
        }),
        action matches Action::Describe { field, detect_dropouts } ==> action@ == (
        Effect::Describe { field, detect_dropouts }),
        action is Abort <==> action@ is Abort,
        action matches Action::Return { needed, fields } ==> {
            &&& action@ is Return
            &&& action@->needed == needed
            &&& action@->fields.len() == fields@.len()
            &&& 0 <= i < fields@.len() ==> action@->fields[i] == fields@[i]@
        },
{
}

/// A first field counts as seen once one took turns with the entry before it, or began
/// the recording.
pub proof fn law_first_fields_are_seen<D>(state: Progress<D>, event: Event<D>)
    requires
        state.accepts(event),
    ensures
        !(event is Described) ==> state.step(event).0.seen_first_field == state.seen_first_field,
        event is Described ==> (state.step(event).0.seen_first_field <==> state.seen_first_field
            || state.phase->first && (state.fields.len() == 0
            || !state.fields.last().is_first_field)),
{
}

/// Whatever happened before, a position is asked for with that of the decoder, and with
/// the offset of the field that it has found: zero before the first look, and none where
/// it has found no field.
pub proof fn law_positions_are_asked_for<D>(state: Progress<D>, event: Event<D>)
    requires
        state.accepts(event),
    ensures
        state.step(event).1 matches Effect::Locate { fdoffset, offset } ==> {
            let after = state.step(event).0;
            &&& after.phase is Locating
            &&& fdoffset == after.fdoffset
            &&& !after.has_pending ==> offset is Some && offset->0.bits == 0
            &&& after.has_pending && after.pending_result is Some ==> offset == Some(
                after.pending_result->0.offset,
            )
            &&& after.has_pending && after.pending_result is None ==> offset is None
        },
{
}

/// A look at the input takes the field that was found into hand, and tells of it if it
/// is valid; no field is ahead until the look is made.
pub proof fn law_looks_take_the_field_in_hand<D>(
    state: Progress<D>,
    toffset: Double,
    from: Double,
)
    requires
        state.accepts(Event::Located { toffset, from }),
        state.step(Event::Located { toffset, from }).1 is Predecode,
    ensures
        ({
            let (after, effect) = state.step(Event::Located { toffset, from });
            let found = state.has_pending && state.pending_result is Some;
            let valid = found && state.pending_result->0.field.valid;
            &&& after.pending_result is None
            &&& after.phase matches Phase::Predecoding { field, scheduled, toffset: sum, .. } && {
                &&& field is Some <==> found
                &&& found ==> field == Some(state.pending_result->0.field)
                &&& scheduled <==> found || !state.has_pending
                &&& sum == toffset
            }
            &&& effect matches Effect::Predecode { prevfield, inter_field_state, .. } && {
                &&& prevfield is Some <==> valid
                &&& valid ==> prevfield->0.readloc == state.pending_result->0.field.readloc
                &&& valid ==> prevfield->0.field_number
                    == state.pending_result->0.field.field_number
                &&& valid ==> prevfield->0.phase_adjust_median
                    == state.pending_result->0.field.phase_adjust_median
                &&& inter_field_state == state.inter_field_state
            }
        }),
{
}

/// A look keeps what it found for the next one. The field in hand moves the position on
/// to the sum that was asked for, and is rendered if it is valid; without one the
/// position stays.
pub proof fn law_looks_keep_what_they_find<D>(
    state: Progress<D>,
    result: Option<DecodeFieldResult<D>>,
    inter_field_state: InterFieldState,
)
    requires
        state.accepts(Event::Predecoded { result, inter_field_state }),
    ensures
        ({
            let (after, effect) = state.step(Event::Predecoded { result, inter_field_state });
            let held = state.phase->Predecoding_field;
            &&& after.has_pending
            &&& after.pending_result == result
            &&& after.inter_field_state == inter_field_state
            &&& held is Some ==> after.fdoffset == state.phase->Predecoding_toffset
            &&& held is None ==> after.fdoffset == state.fdoffset
            &&& held is Some && held->0.valid ==> effect == (Effect::RenderLuma {
                field: DecodedField { wow_analysis: None, ..held->0 },
            })
            &&& held is Some && !held->0.valid ==> effect is Locate
            &&& held is None && state.phase->scheduled ==> effect is Locate
            &&& held is None && !state.phase->scheduled ==> effect == (Effect::<D>::Return {
                needed: Needed::Done(state.fdoffset.as_u64()),
                fields: state.output,
            })
        }),
{
}

} // verus!
