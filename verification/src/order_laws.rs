//! How the order of fields is kept: what becomes of a field that follows one of its own
//! order, by the setting.
use crate::decoder::{DecoderSpec, Description, Effect, Event, Progress};
use crate::double::{unit, Double};
use crate::field_order::{
    labels_back, labels_of, law_progressive_content_takes_turns, law_repairs_follow_the_setting,
    law_turns_are_kept, FieldOrderAction,
};
use crate::info::Written;
use crate::laws::{accepted, after_events, fields_of, returned};
use crate::rounding::{disk_distance, nearest};
use vstd::prelude::*;

verus! {

/// How far the field in hand lies behind the last entry, in fields.
pub open spec fn off_last<D>(state: Progress<D>) -> Double {
    disk_distance(
        state.phase->file_loc,
        state.fields.last().file_loc,
        state.spec.bytes_per_field,
    )
}

/// Whether the field in hand has the order of the last entry.
pub open spec fn follows_its_own<D>(state: Progress<D>) -> bool {
    state.fields.len() > 0 && state.fields.last().is_first_field == state.phase->first
}

/// Whether the field in hand is nine to eleven tenths of a field behind the last entry,
/// and was detected with the order of the two last ones; one that is not there counts
/// as a second field.
pub open spec fn looks_progressive<D>(state: Progress<D>) -> bool {
    let count = state.fields.len() as int;
    let first = state.phase->first;
    &&& state.fields[count - 1].detected_first_field == first
    &&& (count >= 2 && state.fields[count - 2].detected_first_field) == first
    &&& nearest(9 * unit(), 10).at_most(off_last(state))
    &&& off_last(state).at_most(nearest(11 * unit(), 10))
}

/// Whether a skipped field is to be made up for by a duplicate, by the setting, the
/// distance and what the last repair was.
pub open spec fn is_made_up_for<D>(state: Progress<D>) -> bool {
    let far = nearest(11 * unit(), 10).below(off_last(state));
    let near = off_last(state).below(nearest(9 * unit(), 10));
    let action = state.spec.field_order_action;
    action == FieldOrderAction::Duplicate || action == FieldOrderAction::Detect && (far || !near
        && !state.duplicate_prev_field)
}

/// Whether a skipped field is to be put up with by leaving the field in hand out.
pub open spec fn is_left_out<D>(state: Progress<D>) -> bool {
    let action = state.spec.field_order_action;
    !is_made_up_for(state) && action != FieldOrderAction::Flip
}

/// The last field that was written with the detected order other than that of the field
/// in hand.
pub open spec fn last_of_other_order<D>(state: Progress<D>) -> Option<Written> {
    if state.phase->first {
        state.last_second
    } else {
        state.last_first
    }
}

/// Whether `after` has the fields of `before` and behind them `new`, in its entries as
/// in its output.
pub open spec fn adds<D>(before: Progress<D>, after: Progress<D>, new: Seq<Written>) -> bool {
    &&& after.output.len() == before.output.len() + new.len()
    &&& after.fields.len() == before.fields.len() + new.len()
    &&& forall|i: int|
        0 <= i < before.output.len() ==> #[trigger] after.output[i] == before.output[i]
    &&& forall|i: int|
        0 <= i < before.fields.len() ==> #[trigger] after.fields[i] == before.fields[i]
    &&& forall|i: int|
        0 <= i < new.len() ==> after.output[before.output.len() + i] == #[trigger] new[i]
    &&& forall|i: int|
        0 <= i < new.len() ==> after.fields[before.fields.len() + i] == (
        #[trigger] new[i]).info
}

proof fn lemma_adds<D>(state: Progress<D>, description: Description)
    requires
        state.phase is Describing,
    ensures
        adds(state, state.described(description).0, state.addition(description)),
{
}

/// A field that takes turns with the last entry is entered once, as it was detected and
/// measured.
#[verifier::rlimit(40)]
pub proof fn law_fields_in_turn_are_entered<D>(state: Progress<D>, description: Description)
    requires
        state.accepts(Event::Described { description }),
        !follows_its_own(state),
    ensures
        ({
            let after = state.step(Event::Described { description }).0;
            let new = after.output.last();
            &&& adds(state, after, seq![new])
            &&& new.info.is_first_field == state.phase->first
            &&& new.info.detected_first_field == state.phase->first
            &&& !new.info.is_duplicate_field
            &&& new.info.sync_conf == description.sync_conf
            &&& new.info.decode_faults is None
            &&& after.duplicate_prev_field == state.duplicate_prev_field
        }),
{
    let after = state.step(Event::Described { description }).0;
    law_turns_are_kept(
        labels_back(state.fields, 0),
        labels_back(state.fields, 1),
        state.phase->first,
        description.sync_conf,
        state.distance(),
        state.spec.field_order_action,
        state.duplicate_prev_field,
    );
    lemma_adds(state, description);
    assert(state.addition(description) =~= seq![after.output.last()]);
}

/// Progressive content is entered once, with the order other than the one it was
/// detected with, whatever the setting.
#[verifier::rlimit(40)]
pub proof fn law_progressive_fields_are_entered<D>(state: Progress<D>, description: Description)
    requires
        state.accepts(Event::Described { description }),
        follows_its_own(state),
        looks_progressive(state),
    ensures
        ({
            let after = state.step(Event::Described { description }).0;
            let new = after.output.last();
            &&& adds(state, after, seq![new])
            &&& new.info.is_first_field == !state.phase->first
            &&& new.info.detected_first_field == state.phase->first
            &&& !new.info.is_duplicate_field
            &&& new.info.sync_conf == 10
            &&& new.info.decode_faults == Some(1i64)
            &&& after.duplicate_prev_field == state.duplicate_prev_field
        }),
{
    let after = state.step(Event::Described { description }).0;
    let count = state.fields.len() as int;
    law_progressive_content_takes_turns(
        labels_of(state.fields[count - 1]),
        labels_back(state.fields, 1),
        state.phase->first,
        description.sync_conf,
        state.distance(),
        state.spec.field_order_action,
        state.duplicate_prev_field,
    );
    lemma_adds(state, description);
    assert(state.addition(description) =~= seq![after.output.last()]);
}

/// Any other field that follows an entry of its own order, first or second, is dealt
/// with as the setting says. Where the skipped field is made up for, the last field of
/// the other order is entered once more, and behind it the new one, marked as a
/// duplicate; neither, where there was none of the other order. Where it is not, the
/// new one is left out, or entered with the other order.
#[verifier::rlimit(40)]
pub proof fn law_skipped_fields_are_dealt_with<D>(state: Progress<D>, description: Description)
    requires
        state.accepts(Event::Described { description }),
        follows_its_own(state),
        !looks_progressive(state),
    ensures
        ({
            let after = state.step(Event::Described { description }).0;
            let new = after.output.last();
            let first = state.phase->first;
            &&& is_made_up_for(state) ==> match last_of_other_order(state) {
                Some(other) => {
                    &&& adds(state, after, seq![other, new])
                    &&& new.info.is_duplicate_field
                    &&& new.info.is_first_field == first
                    &&& new.info.decode_faults == Some(4i64)
                    &&& new.info.sync_conf == 0
                },
                None => adds(state, after, seq![]),
            }
            &&& is_left_out(state) ==> adds(state, after, seq![])
            &&& state.spec.field_order_action == FieldOrderAction::Flip ==> {
                &&& adds(state, after, seq![new])
                &&& !new.info.is_duplicate_field
                &&& new.info.is_first_field == !first
                &&& new.info.decode_faults == Some(4i64)
                &&& new.info.sync_conf == 0
            }
            &&& after.duplicate_prev_field == if state.spec.field_order_action
                == FieldOrderAction::Flip {
                state.duplicate_prev_field
            } else {
                is_made_up_for(state)
            }
        }),
{
    let after = state.step(Event::Described { description }).0;
    let count = state.fields.len() as int;
    let new = after.output.last();
    law_repairs_follow_the_setting(
        labels_of(state.fields[count - 1]),
        labels_back(state.fields, 1),
        state.phase->first,
        description.sync_conf,
        state.distance(),
        state.spec.field_order_action,
        state.duplicate_prev_field,
    );
    lemma_adds(state, description);
    let addition = state.addition(description);
    if is_made_up_for(state) {
        if let Some(other) = last_of_other_order(state) {
            assert(addition =~= seq![other, new]);
        } else {
            assert(addition =~= seq![]);
        }
    } else if is_left_out(state) {
        assert(addition =~= seq![]);
    } else {
        assert(addition =~= seq![new]);
    }
}

/// A field that is not left out is kept as the last one of the order it was detected
/// with, to be repeated; the one of the other order stays. A field that is left out is
/// not kept.
#[verifier::rlimit(40)]
pub proof fn law_fields_are_kept_by_detected_order<D>(state: Progress<D>, description: Description)
    requires
        state.accepts(Event::Described { description }),
    ensures
        ({
            let after = state.step(Event::Described { description }).0;
            let left_out = follows_its_own(state) && !looks_progressive(state) && is_left_out(
                state,
            );
            let first = state.phase->first;
            &&& left_out ==> after.last_first == state.last_first && after.last_second
                == state.last_second
            &&& !left_out && first ==> after.last_first is Some && after.last_second
                == state.last_second
            &&& !left_out && !first ==> after.last_second is Some && after.last_first
                == state.last_first
            // What is kept is what is entered.
            &&& after.output.len() > state.output.len() ==> {
                let kept = if first {
                    after.last_first
                } else {
                    after.last_second
                };
                kept == Some(after.output.last())
            }
        }),
{
    lemma_adds(state, description);
    let count = state.fields.len() as int;
    if follows_its_own(state) {
        if looks_progressive(state) {
            law_progressive_fields_are_entered(state, description);
        } else {
            law_skipped_fields_are_dealt_with(state, description);
            law_repairs_follow_the_setting(
                labels_of(state.fields[count - 1]),
                labels_back(state.fields, 1),
                state.phase->first,
                description.sync_conf,
                state.distance(),
                state.spec.field_order_action,
                state.duplicate_prev_field,
            );
        }
    }
}

/// Only the description of a field enters one. Nothing else changes the entries, the
/// fields that may be repeated, or which repair is next; a call begins without fields,
/// and returns those that were found since, all of them and in order.
pub proof fn law_only_descriptions_enter_fields<D>(state: Progress<D>, event: Event<D>)
    requires
        state.accepts(event),
        !(event is Described),
    ensures
        ({
            let (after, effect) = state.step(event);
            &&& after.fields == state.fields
            &&& after.last_first == state.last_first
            &&& after.last_second == state.last_second
            &&& after.duplicate_prev_field == state.duplicate_prev_field
            &&& event is Start ==> after.output.len() == 0
            &&& effect matches Effect::Return { fields, .. } ==> fields == state.output
                && after.output.len() == 0
            &&& effect is Abort <==> event is Failed
            &&& !(event is Start) && !(effect is Return) && !(effect is Abort) ==> after.output
                == state.output
        }),
{
}

/// Whether a field with the fault of a skipped one was repaired as the setting says.
pub open spec fn is_repaired_by(field: Written, action: FieldOrderAction) -> bool {
    let info = field.info;
    let skipped = info.decode_faults == Some(4i64);
    &&& action == FieldOrderAction::Drop ==> !skipped && !info.is_duplicate_field
    &&& action == FieldOrderAction::Flip ==> !info.is_duplicate_field
    &&& action == FieldOrderAction::Flip && skipped ==> info.is_first_field
        != info.detected_first_field
    &&& action == FieldOrderAction::Duplicate || action == FieldOrderAction::Detect ==> (skipped
        <==> info.is_duplicate_field)
    &&& action != FieldOrderAction::Flip && skipped ==> info.is_first_field
        == info.detected_first_field
}

spec fn holds_repaired<D>(state: Progress<D>) -> bool {
    let action = state.spec.field_order_action;
    &&& forall|i: int|
        0 <= i < state.output.len() ==> is_repaired_by(#[trigger] state.output[i], action)
    &&& state.last_first matches Some(field) ==> is_repaired_by(field, action)
    &&& state.last_second matches Some(field) ==> is_repaired_by(field, action)
}

proof fn lemma_repairs_are_kept<D>(state: Progress<D>, event: Event<D>)
    requires
        holds_repaired(state),
        state.accepts(event),
    ensures
        holds_repaired(state.step(event).0),
        state.step(event).0.spec == state.spec,
{
    if let Event::Described { description } = event {
        let after = state.step(event).0;
        let addition = state.addition(description);
        assert(state.ruling(description).write_field ==> is_repaired_by(
            state.dataset(description),
            state.spec.field_order_action,
        ));
        assert forall|i: int| 0 <= i < after.output.len() implies is_repaired_by(
            #[trigger] after.output[i],
            state.spec.field_order_action,
        ) by {
            if i < state.output.len() {
                assert(after.output[i] == state.output[i]);
            } else {
                assert(after.output[i] == addition[i - state.output.len()]);
            }
        }
    }
}

/// Every field that a run returns was repaired as the setting says: where skipped
/// fields are to be left out, none has their fault; where they are to be made up for,
/// exactly the duplicates have it; otherwise there are no duplicates, and those with
/// the fault have the other order.
pub proof fn law_returned_fields_are_repaired<D>(
    spec: DecoderSpec,
    fdoffset: Double,
    events: Seq<Event<D>>,
)
    requires
        accepted(Progress::<D>::fresh(spec, fdoffset), events),
    ensures
        ({
            let fields = returned(Progress::<D>::fresh(spec, fdoffset), events);
            forall|i: int|
                0 <= i < fields.len() ==> is_repaired_by(
                    #[trigger] fields[i],
                    spec.field_order_action,
                )
        }),
{
    lemma_run_is_repaired(spec, fdoffset, events);
}

proof fn lemma_run_is_repaired<D>(
    spec: DecoderSpec,
    fdoffset: Double,
    events: Seq<Event<D>>,
)
    requires
        accepted(Progress::<D>::fresh(spec, fdoffset), events),
    ensures
        holds_repaired(after_events(Progress::<D>::fresh(spec, fdoffset), events)),
        after_events(Progress::<D>::fresh(spec, fdoffset), events).spec == spec,
        ({
            let fields = returned(Progress::<D>::fresh(spec, fdoffset), events);
            forall|i: int|
                0 <= i < fields.len() ==> is_repaired_by(
                    #[trigger] fields[i],
                    spec.field_order_action,
                )
        }),
    decreases events.len(),
{
    if events.len() > 0 {
        let start = Progress::<D>::fresh(spec, fdoffset);
        let before = events.drop_last();
        lemma_run_is_repaired(spec, fdoffset, before);
        let at = after_events(start, before);
        lemma_repairs_are_kept(at, events.last());
        let done = returned(start, before);
        let last = fields_of(at.step(events.last()).1);
        assert forall|i: int| 0 <= i < returned(start, events).len() implies is_repaired_by(
            #[trigger] returned(start, events)[i],
            spec.field_order_action,
        ) by {
            if i < done.len() {
                assert(returned(start, events)[i] == done[i]);
            } else {
                assert(returned(start, events)[i] == last[i - done.len()]);
                assert(last == at.output);
            }
        }
    }
}

} // verus!
