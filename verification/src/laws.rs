//! What holds of whole runs of the decoder.
use crate::blocks::{law_plan_covers_field, plan_fits, plan_for, Window, BLOCKSIZE};
use crate::decoder::{
    available_blocks, infos, is_metadata, no_window, DecoderSpec, Description, Effect, Event,
    MetadataFieldState, Needed, Phase, Progress, SignalMeasures,
};
use crate::double::Double;
use crate::field::phase_id_by_number;
use crate::field_order::{FieldOrderAction, FAULT_PROGRESSIVE, FAULT_SKIPPED};
use crate::info::{DecoderMetadata, FieldInfo, Written};
use crate::levels::OutputLevel;
use crate::rounding::{difference, disk_location};
use vstd::arithmetic::div_mod::lemma_fundamental_div_mod;
use vstd::prelude::*;

verus! {

/// A run: the effects are answered by `react`, which may keep a state of its
/// own, until the call is over or `steps` answers were given.
pub open spec fn run<D, W>(
    state: Progress<D>,
    effect: Effect<D>,
    world: W,
    react: spec_fn(W, Effect<D>) -> (W, Event<D>),
    steps: nat,
) -> (Progress<D>, Effect<D>, W)
    decreases steps,
{
    if steps == 0 || effect is Return || effect is Abort {
        (state, effect, world)
    } else {
        let (world, event) = react(world, effect);
        let (state, effect) = state.step(event);
        run(state, effect, world, react, (steps - 1) as nat)
    }
}

/// A run of one call on `window`.
pub open spec fn call<D, W>(
    state: Progress<D>,
    window: Window,
    world: W,
    react: spec_fn(W, Effect<D>) -> (W, Event<D>),
    steps: nat,
) -> (Progress<D>, Effect<D>, W) {
    let (state, effect) = state.start(window);
    run(state, effect, world, react, steps)
}

/// The surroundings answer a question for a position with one that can be
/// addressed, and only that question; adding two offsets changes nothing in
/// them; and they begin no call inside a call.
pub open spec fn orderly<D, W>(
    react: spec_fn(W, Effect<D>) -> (W, Event<D>),
    readlen: usize,
    usable: usize,
) -> bool {
    forall|world: W, effect: Effect<D>| #[trigger]
        react(world, effect) matches (after, event) && {
            &&& !(event is Start)
            &&& event is Located ==> effect is Locate
            &&& effect is Locate ==> after == world
            &&& event matches Event::Located { from, .. } ==> plan_fits(from.as_i64(), readlen, usable)
        }
}

/// `state` on another window, behind fields that were returned before.
pub open spec fn moved<D>(state: Progress<D>, window: Window, before: Seq<Written>) -> Progress<D> {
    Progress { window, output: before + state.output, ..state }
}

/// `effect` behind fields that were returned before.
pub open spec fn behind<D>(effect: Effect<D>, before: Seq<Written>) -> Effect<D> {
    match effect {
        Effect::Return { needed, fields } => Effect::Return { needed, fields: before + fields },
        _ => effect,
    }
}

/// Windows that end at one sample, which both or neither of them say is the last.
pub open spec fn same_reach(a: Window, b: Window) -> bool {
    a.end() == b.end() && a.final_chunk == b.final_chunk
}

/// A decoder that no call is running on.
pub open spec fn rested<D>(state: Progress<D>) -> bool {
    state.phase is Idle && state.window == no_window() && state.output.len() == 0
}

/// The blocks that are handed out for decoding are the leading ones that lie in
/// the window whole, and they are all blocks of the plan exactly if the window
/// reaches to the end of the plan.
pub proof fn law_available_blocks(
    readloc: i64,
    readlen: usize,
    usable: usize,
    window: Window,
)
    requires
        plan_fits(readloc, readlen, usable),
    ensures
        ({
            let plan = plan_for(readloc, readlen, usable);
            let available = available_blocks(plan, usable as int, window);
            &&& plan.requested_begin <= available <= plan.requested_end
            &&& forall|b: int|
                plan.requested_begin <= b < available ==> #[trigger] (b * usable) + BLOCKSIZE
                    <= window.end()
            &&& available < plan.requested_end ==> available * usable + BLOCKSIZE > window.end()
            &&& available == plan.requested_end <==> plan.needed_end <= window.end()
        }),
{
    law_plan_covers_field(readloc, readlen, usable);
    let plan = plan_for(readloc, readlen, usable);
    let available = available_blocks(plan, usable as int, window);
    let step = usable as int;
    let room = window.end() - BLOCKSIZE;
    let last = room / step;
    lemma_fundamental_div_mod(room, step);
    assert(last * step <= room && room < (last + 1) * step) by (nonlinear_arith)
        requires
            room == step * last + room % step,
            0 <= room % step < step,
    ;
    let begin = plan.requested_begin as int;
    let end = plan.requested_end as int;
    if room >= plan.startloc {
        assert(begin <= last) by (nonlinear_arith)
            requires
                begin * step <= room,
                room < (last + 1) * step,
                step > 0,
        ;
    }
    assert forall|b: int| begin <= b < available implies #[trigger] (b * usable) + BLOCKSIZE
        <= window.end() by {
        assert(b * step <= last * step) by (nonlinear_arith)
            requires
                b <= last,
                step > 0,
        ;
    }
    if room < plan.startloc {
        assert((end - 1) * step >= begin * step) by (nonlinear_arith)
            requires
                begin < end,
                step > 0,
        ;
    } else if last + 1 < end {
        assert((end - 1) * step >= (last + 1) * step) by (nonlinear_arith)
            requires
                last + 1 < end,
                step > 0,
        ;
    } else {
        assert((end - 1) * step <= last * step) by (nonlinear_arith)
            requires
                last + 1 >= end,
                step > 0,
        ;
    }
}

/// No block is decoded for a field that is looked for again: blocks are handed
/// out only where all of the field are there, or no more input will follow.
pub proof fn law_blocks_are_decoded_once<D>(state: Progress<D>, event: Event<D>)
    requires
        state.accepts(event),
    ensures
        state.step(event).1 matches Effect::Predecode { plan, available, complete, .. } ==> {
            &&& complete <==> available == plan.requested_end
            &&& complete || state.window.final_chunk
        },
{
    if let Event::Located { from, .. } = event {
        law_available_blocks(
            from.as_i64(),
            state.spec.readlen,
            state.spec.usable_blocksize,
            state.window,
        );
    }
}

/// A call that has to wait for more input leaves the decoder exactly as it was
/// before the look at the input that it waits for. In particular, a call that
/// waits at once changes nothing.
pub proof fn law_pause_keeps_state<D>(
    state: Progress<D>,
    window: Window,
    toffset: Double,
    readloc: i64,
)
    requires
        state.phase is Locating,
        state.starved(readloc),
    ensures
        ({
            let (after, effect) = state.located(toffset, readloc);
            &&& after == (Progress {
                phase: Phase::Idle,
                window: no_window(),
                output: Seq::empty(),
                ..state
            })
            &&& effect == (Effect::<D>::Return {
                needed: Needed::From(state.plan(readloc).startloc as u64),
                fields: state.output,
            })
        }),
        forall|before: Progress<D>|
            rested(before) && state == (#[trigger] before.start(window)).0 ==> state.located(
                toffset,
                readloc,
            ).0 == before,
{
    assert forall|before: Progress<D>|
        rested(before) && state == (#[trigger] before.start(window)).0 implies state.located(
        toffset,
        readloc,
    ).0 == before by {
        assert(state.located(toffset, readloc).0 =~= before);
    }
}

/// The input that a waiting call asks for is enough: a window that begins at or
/// before the sample it names, and either reaches to the end of the plan or is
/// the last one, lets the decoder go on from the same position.
pub proof fn law_needed_input_suffices<D>(
    state: Progress<D>,
    toffset: Double,
    from: Double,
    window: Window,
)
    requires
        state.accepts(Event::Located { toffset, from }),
        state.starved(from.as_i64()),
        window.end() <= usize::MAX,
        state.located(toffset, from.as_i64()).1 matches Effect::Return {
            needed: Needed::From(sample),
            ..
        } && window.data_start <= sample,
        window.final_chunk || window.end() >= state.plan(from.as_i64()).needed_end,
    ensures
        ({
            let resumed = state.located(toffset, from.as_i64()).0.start(window).0;
            &&& resumed.accepts(Event::Located { toffset, from })
            &&& !resumed.starved(from.as_i64())
            &&& resumed.plan(from.as_i64()) == state.plan(from.as_i64())
        }),
{
}

/// The effect and the state fit: a question for a position is one for the
/// position of the state.
spec fn fitting<D>(state: Progress<D>, effect: Effect<D>) -> bool {
    effect is Locate ==> {
        &&& state.phase is Locating
        &&& effect == (Effect::<D>::Locate {
            fdoffset: state.fdoffset,
            offset: state.next_offset(),
        })
    }
}

/// One event, on a window and on one that reaches at least as far.
proof fn lemma_step_moved<D>(
    state: Progress<D>,
    event: Event<D>,
    window: Window,
    before: Seq<Written>,
)
    requires
        !(event is Start),
        event matches Event::Located { from, .. } ==> plan_fits(
            from.as_i64(),
            state.spec.readlen,
            state.spec.usable_blocksize,
        ),
        same_reach(window, state.window) || !state.window.final_chunk && state.window.end()
            <= window.end(),
    ensures
        ({
            let (after, effect) = state.step(event);
            let other = moved(state, window, before).step(event);
            &&& fitting(after, effect)
            &&& after.spec == state.spec
            &&& effect is Return || effect is Abort || after.window == state.window
            &&& same_reach(window, state.window) || !(effect matches Effect::Return {
                needed: Needed::From(_),
                ..
            }) ==> {
                &&& other.1 == behind(effect, before)
                &&& if effect is Return || effect is Abort {
                    other.0 == after
                } else {
                    other.0 == moved(after, window, before)
                }
            }
        }),
{
    let (after, effect) = state.step(event);
    let other = moved(state, window, before).step(event);
    match event {
        Event::Located { from, .. } => {
            law_available_blocks(
                from.as_i64(),
                state.spec.readlen,
                state.spec.usable_blocksize,
                state.window,
            );
            law_available_blocks(
                from.as_i64(),
                state.spec.readlen,
                state.spec.usable_blocksize,
                window,
            );
        },
        Event::Described { description } => {
            let addition = state.addition(description);
            assert((before + state.output) + addition =~= before + (state.output + addition));
        },
        _ => {},
    }
}

/// Neither fields that were returned before nor where the window begins change
/// what a run does.
proof fn lemma_run_behind<D, W>(
    state: Progress<D>,
    effect: Effect<D>,
    window: Window,
    before: Seq<Written>,
    world: W,
    react: spec_fn(W, Effect<D>) -> (W, Event<D>),
    steps: nat,
)
    requires
        orderly(react, state.spec.readlen, state.spec.usable_blocksize),
        !(effect is Return),
        same_reach(window, state.window),
    ensures
        ({
            let plain = run(state, effect, world, react, steps);
            let other = run(moved(state, window, before), effect, world, react, steps);
            &&& other.2 == plain.2
            &&& other.1 == behind(plain.1, before)
            &&& plain.1 is Return ==> other.0 == plain.0
        }),
    decreases steps,
{
    reveal_with_fuel(run, 2);
    if steps > 0 && !(effect is Abort) {
        let (next_world, event) = react(world, effect);
        lemma_step_moved(state, event, window, before);
        let (after, next) = state.step(event);
        if !(next is Return) && !(next is Abort) {
            lemma_run_behind(after, next, window, before, next_world, react, (steps - 1) as nat);
        }
    }
}

/// A run up to a wait for input, and the same run on a longer window.
proof fn lemma_run_to_pause<D, W>(
    state: Progress<D>,
    effect: Effect<D>,
    window: Window,
    world: W,
    react: spec_fn(W, Effect<D>) -> (W, Event<D>),
    steps: nat,
) -> (shared: nat)
    requires
        orderly(react, state.spec.readlen, state.spec.usable_blocksize),
        fitting(state, effect),
        !(effect is Return),
        !state.window.final_chunk,
        state.window.end() <= window.end(),
        run(state, effect, world, react, steps).1 matches Effect::Return {
            needed: Needed::From(_),
            ..
        },
    ensures
        shared <= steps,
        ({
            let (paused, pause, paused_world) = run(state, effect, world, react, steps);
            let (on, next) = paused.start(window);
            let fields = pause->fields;
            forall|more: nat| #[trigger]
                run(
                    moved(state, window, Seq::empty()),
                    effect,
                    world,
                    react,
                    shared + more,
                ) == run(moved(on, window, fields), next, paused_world, react, more)
        }),
    decreases steps,
{
    let (next_world, event) = react(world, effect);
    lemma_step_moved(state, event, window, Seq::empty());
    let (after, next) = state.step(event);
    let start = moved(state, window, Seq::empty());
    let (paused, pause, paused_world) = run(state, effect, world, react, steps);
    if next is Return {
        // The call waits: the longer window sees the same question again.
        assert(event is Located);
        let (on, again) = paused.start(window);
        assert(moved(on, window, pause->fields) =~= start);
        assert(again == effect);
        0
    } else {
        let shared = lemma_run_to_pause(after, next, window, next_world, react, (steps - 1) as nat);
        let (on, again) = paused.start(window);
        assert forall|more: nat| #[trigger]
            run(start, effect, world, react, shared + 1 + more) == run(
                moved(on, window, pause->fields),
                again,
                paused_world,
                react,
                more,
            ) by {
            let goes_on = moved(after, window, Seq::empty());
            assert(run(goes_on, next, next_world, react, shared + more) == run(
                moved(on, window, pause->fields),
                again,
                paused_world,
                react,
                more,
            ));
            assert(behind(next, Seq::empty()) == next);
            assert((shared + 1 + more - 1) as nat == shared + more);
        }
        shared + 1
    }
}

/// Decoding pauses with its state intact: where a call on one window ends
/// waiting for more input, a later call on a window that reaches further does
/// what one call on the longer window would have done from there on. The one
/// call returns the fields of the two in a row, and leaves the same decoder and
/// the same surroundings behind.
pub proof fn law_resume<D, W>(
    state: Progress<D>,
    window: Window,
    longer: Window,
    world: W,
    react: spec_fn(W, Effect<D>) -> (W, Event<D>),
    steps: nat,
) -> (shared: nat)
    requires
        orderly(react, state.spec.readlen, state.spec.usable_blocksize),
        !window.final_chunk,
        window.end() <= longer.end(),
        call(state, window, world, react, steps).1 matches Effect::Return {
            needed: Needed::From(_),
            ..
        },
    ensures
        shared <= steps,
        ({
            let (paused, pause, paused_world) = call(state, window, world, react, steps);
            forall|more: nat|
                {
                    let rest = call(paused, longer, paused_world, react, more);
                    let whole = #[trigger] call(state, longer, world, react, shared + more);
                    &&& whole.2 == rest.2
                    &&& whole.1 == behind(rest.1, pause->fields)
                    &&& rest.1 is Return ==> whole.0 == rest.0
                }
        }),
{
    let (on, effect) = state.start(window);
    let (paused, pause, paused_world) = call(state, window, world, react, steps);
    let shared = lemma_run_to_pause(on, effect, longer, world, react, steps);
    lemma_run_keeps_spec(on, effect, world, react, steps);
    assert forall|more: nat|
        {
            let rest = call(paused, longer, paused_world, react, more);
            let whole = #[trigger] call(state, longer, world, react, shared + more);
            &&& whole.2 == rest.2
            &&& whole.1 == behind(rest.1, pause->fields)
            &&& rest.1 is Return ==> whole.0 == rest.0
        } by {
        let (resumed, question) = paused.start(longer);
        assert(state.start(longer).0 =~= moved(on, longer, Seq::empty()));
        assert(run(moved(on, longer, Seq::empty()), effect, world, react, shared + more) == run(
            moved(resumed, longer, pause->fields),
            question,
            paused_world,
            react,
            more,
        ));
        lemma_run_behind(resumed, question, longer, pause->fields, paused_world, react, more);
    }
    shared
}

/// A run up to a wait for input, and the same question on the same window.
proof fn lemma_pause_repeats<D, W>(
    state: Progress<D>,
    effect: Effect<D>,
    world: W,
    react: spec_fn(W, Effect<D>) -> (W, Event<D>),
    steps: nat,
    more: nat,
)
    requires
        orderly(react, state.spec.readlen, state.spec.usable_blocksize),
        fitting(state, effect),
        !(effect is Return),
        more >= 1,
        run(state, effect, world, react, steps).1 matches Effect::Return {
            needed: Needed::From(_),
            ..
        },
    ensures
        ({
            let (paused, pause, paused_world) = run(state, effect, world, react, steps);
            let (on, next) = paused.start(state.window);
            run(on, next, paused_world, react, more) == (
                paused,
                Effect::<D>::Return { needed: pause->needed, fields: Seq::empty() },
                paused_world,
            )
        }),
    decreases steps,
{
    reveal_with_fuel(run, 2);
    let (next_world, event) = react(world, effect);
    lemma_step_moved(state, event, state.window, Seq::empty());
    let (after, next) = state.step(event);
    let (paused, pause, paused_world) = run(state, effect, world, react, steps);
    if next is Return {
        assert(event is Located);
        let (on, again) = paused.start(state.window);
        assert(again == effect);
        assert(next_world == world);
        assert(on.step(event).0 =~= paused);
    } else {
        lemma_pause_repeats(after, next, next_world, react, (steps - 1) as nat, more);
    }
}

/// A call that waited for more input, made again without more, only says once more
/// what it waits for: it returns the same sample and no field, and changes nothing.
pub proof fn law_waiting_again_changes_nothing<D, W>(
    state: Progress<D>,
    window: Window,
    world: W,
    react: spec_fn(W, Effect<D>) -> (W, Event<D>),
    steps: nat,
    more: nat,
)
    requires
        orderly(react, state.spec.readlen, state.spec.usable_blocksize),
        more >= 1,
        call(state, window, world, react, steps).1 matches Effect::Return {
            needed: Needed::From(_),
            ..
        },
    ensures
        ({
            let (paused, pause, paused_world) = call(state, window, world, react, steps);
            call(paused, window, paused_world, react, more) == (
                paused,
                Effect::<D>::Return { needed: pause->needed, fields: Seq::empty() },
                paused_world,
            )
        }),
{
    let (on, effect) = state.start(window);
    lemma_pause_repeats(on, effect, world, react, steps, more);
}

/// What a call does depends on its window only through where it ends and whether
/// it is the last one, not on where it begins.
pub proof fn law_window_start_does_not_matter<D, W>(
    state: Progress<D>,
    window: Window,
    other: Window,
    world: W,
    react: spec_fn(W, Effect<D>) -> (W, Event<D>),
    steps: nat,
)
    requires
        orderly(react, state.spec.readlen, state.spec.usable_blocksize),
        same_reach(window, other),
    ensures
        ({
            let one = call(state, window, world, react, steps);
            let two = call(state, other, world, react, steps);
            &&& two.2 == one.2
            &&& two.1 == one.1
            &&& one.1 is Return ==> two.0 == one.0
        }),
{
    let (on, effect) = state.start(window);
    assert(state.start(other).0 =~= moved(on, other, Seq::empty()));
    lemma_run_behind(on, effect, other, Seq::empty(), world, react, steps);
    let end = run(on, effect, world, react, steps).1;
    if let Effect::Return { fields, .. } = end {
        assert(Seq::<Written>::empty() + fields =~= fields);
    }
    assert(behind(end, Seq::empty()) == end);
}

/// Input before the sample that a waiting call names may be dropped: a later call on
/// a window that reaches further, wherever it begins, goes on as one call on the
/// whole input would have. The one call returns the fields of the two in a row, and
/// leaves the same decoder and the same surroundings behind.
pub proof fn law_input_may_be_dropped<D, W>(
    state: Progress<D>,
    window: Window,
    longer: Window,
    rest: Window,
    world: W,
    react: spec_fn(W, Effect<D>) -> (W, Event<D>),
    steps: nat,
) -> (shared: nat)
    requires
        orderly(react, state.spec.readlen, state.spec.usable_blocksize),
        !window.final_chunk,
        window.end() <= longer.end(),
        same_reach(longer, rest),
        call(state, window, world, react, steps).1 matches Effect::Return {
            needed: Needed::From(_),
            ..
        },
    ensures
        shared <= steps,
        ({
            let (paused, pause, paused_world) = call(state, window, world, react, steps);
            forall|more: nat|
                {
                    let resumed = call(paused, rest, paused_world, react, more);
                    let whole = #[trigger] call(state, longer, world, react, shared + more);
                    &&& whole.2 == resumed.2
                    &&& whole.1 == behind(resumed.1, pause->fields)
                    &&& resumed.1 is Return ==> whole.0 == resumed.0
                }
        }),
{
    let (paused, pause, paused_world) = call(state, window, world, react, steps);
    let shared = law_resume(state, window, longer, world, react, steps);
    let (on, effect) = state.start(window);
    lemma_run_keeps_spec(on, effect, world, react, steps);
    assert forall|more: nat|
        {
            let resumed = call(paused, rest, paused_world, react, more);
            let whole = #[trigger] call(state, longer, world, react, shared + more);
            &&& whole.2 == resumed.2
            &&& whole.1 == behind(resumed.1, pause->fields)
            &&& resumed.1 is Return ==> whole.0 == resumed.0
        } by {
        law_window_start_does_not_matter(paused, longer, rest, paused_world, react, more);
    }
    shared
}

/// The settings never change.
proof fn lemma_run_keeps_spec<D, W>(
    state: Progress<D>,
    effect: Effect<D>,
    world: W,
    react: spec_fn(W, Effect<D>) -> (W, Event<D>),
    steps: nat,
)
    ensures
        run(state, effect, world, react, steps).0.spec == state.spec,
    decreases steps,
{
    if steps > 0 && !(effect is Return) && !(effect is Abort) {
        let (next_world, event) = react(world, effect);
        let (after, next) = state.step(event);
        assert(after.spec == state.spec);
        lemma_run_keeps_spec(after, next, next_world, react, (steps - 1) as nat);
    }
}

/// Every field that a call returns is entered, in the order in which it is
/// returned, and nothing else is.
pub proof fn law_returned_fields_are_entered<D, W>(
    state: Progress<D>,
    window: Window,
    world: W,
    react: spec_fn(W, Effect<D>) -> (W, Event<D>),
    steps: nat,
)
    requires
        orderly(react, state.spec.readlen, state.spec.usable_blocksize),
    ensures
        call(state, window, world, react, steps) matches (after, Effect::Return { fields, .. }, _)
            ==> after.fields == state.fields + infos(fields),
{
    let (on, effect) = state.start(window);
    assert(state.fields =~= state.fields + infos(on.output));
    lemma_run_ledger(on, effect, state.fields, world, react, steps);
}

proof fn lemma_run_ledger<D, W>(
    state: Progress<D>,
    effect: Effect<D>,
    base: Seq<FieldInfo>,
    world: W,
    react: spec_fn(W, Effect<D>) -> (W, Event<D>),
    steps: nat,
)
    requires
        orderly(react, state.spec.readlen, state.spec.usable_blocksize),
        !(effect is Return),
        state.fields == base + infos(state.output),
    ensures
        run(state, effect, world, react, steps) matches (after, Effect::Return { fields, .. }, _)
            ==> after.fields == base + infos(fields),
    decreases steps,
{
    reveal_with_fuel(run, 2);
    if steps > 0 && !(effect is Abort) {
        let (next_world, event) = react(world, effect);
        let (after, next) = state.step(event);
        if let Event::Described { description } = event {
            let addition = state.addition(description);
            assert(infos(state.output + addition) =~= infos(state.output) + infos(addition));
            assert((base + infos(state.output)) + infos(addition) =~= base + (infos(state.output)
                + infos(addition)));
        }
        if !(next is Return) && !(next is Abort) {
            lemma_run_ledger(after, next, base, next_world, react, (steps - 1) as nat);
        }
    }
}

/// What every decoder remembers truly: the first entry is of a first field, the
/// field kept for either order was detected with that order, and there is metadata
/// as soon as there is an entry.
pub open spec fn faithful<D>(state: Progress<D>) -> bool {
    &&& state.fields.len() > 0 ==> state.fields[0].is_first_field
        && state.fields[0].detected_first_field
    &&& state.fields.len() == 0 && state.phase is Describing ==> state.phase->first
    &&& state.last_first matches Some(field) ==> field.info.detected_first_field
    &&& state.last_second matches Some(field) ==> !field.info.detected_first_field
    &&& state.fields.len() > 0 || state.phase is RenderingChroma || state.phase is Describing ==>
        state.metadata_field is Some
}

/// A new decoder remembers truly.
pub proof fn law_fresh_is_faithful<D>(spec: DecoderSpec, fdoffset: Double)
    ensures
        faithful(Progress::<D>::fresh(spec, fdoffset)),
        rested(Progress::<D>::fresh(spec, fdoffset)),
{
}

/// Whatever is handed to a decoder, it goes on remembering truly: a recording
/// begins with a first field, and a repeated field is one of the other order.
pub proof fn law_steps_keep_faith<D>(state: Progress<D>, event: Event<D>)
    requires
        faithful(state),
        state.accepts(event),
    ensures
        faithful(state.step(event).0),
{
    if let Event::Described { description } = event {
        let addition = state.addition(description);
        if state.fields.len() == 0 {
            assert(addition =~= seq![state.dataset(description)]);
            assert((state.fields + infos(addition))[0] == state.entry(description));
        } else {
            assert((state.fields + infos(addition))[0] == state.fields[0]);
        }
    }
}

/// Whether first and second fields take turns.
pub open spec fn alternating(fields: Seq<FieldInfo>) -> bool {
    forall|i: int|
        0 < i < fields.len() ==> (#[trigger] fields[i]).is_first_field != fields[i
            - 1].is_first_field
}

/// Whether a field keeps the order that it was detected with.
pub open spec fn unflipped(field: Written) -> bool {
    field.info.is_first_field == field.info.detected_first_field
}

/// Interlaced fields alternate: a field that is entered takes turns with the
/// one before it, whatever was detected. Where a field is repeated to make up
/// for a skipped one, that one must not have been relabelled itself.
pub proof fn law_fields_alternate<D>(state: Progress<D>, event: Event<D>)
    requires
        faithful(state),
        state.accepts(event),
        alternating(state.fields),
        event matches Event::Described { description } ==> state.ruling(
            description,
        ).is_duplicate_field ==> (state.opposite() matches Some(other) ==> unflipped(other)),
    ensures
        alternating(state.step(event).0.fields),
{
    if let Event::Described { description } = event {
        lemma_addition_alternates(state, description);
    }
}

/// Where skipped fields are left out or only relabelled, fields always alternate.
pub proof fn law_fields_alternate_unless_repeated<D>(state: Progress<D>, event: Event<D>)
    requires
        faithful(state),
        state.accepts(event),
        alternating(state.fields),
        state.spec.field_order_action == FieldOrderAction::Drop || state.spec.field_order_action
            == FieldOrderAction::Flip,
    ensures
        alternating(state.step(event).0.fields),
{
    law_fields_alternate(state, event);
}

proof fn lemma_addition_alternates<D>(state: Progress<D>, description: Description)
    requires
        faithful(state),
        state.phase is Describing,
        alternating(state.fields),
        state.ruling(description).is_duplicate_field ==> (state.opposite() matches Some(other)
            ==> unflipped(other)),
    ensures
        alternating(state.described(description).0.fields),
{
    let after = state.described(description).0.fields;
    let addition = state.addition(description);
    let count = state.fields.len() as int;
    let entered = state.entry(description).is_first_field;
    assert(after == state.fields + infos(addition));
    assert(entered == state.ruling(description).is_first_field);
    assert forall|i: int| 0 < i < after.len() implies (#[trigger] after[i]).is_first_field != after[
    i - 1].is_first_field by {
        if i < count {
            assert(after[i] == state.fields[i] && after[i - 1] == state.fields[i - 1]);
        } else if addition.len() == 1 {
            assert(after[i] == state.entry(description));
        } else if i == count {
            assert(after[i] == state.opposite()->0.info);
        } else {
            assert(after[i] == state.entry(description));
            assert(after[i - 1] == state.opposite()->0.info);
        }
    }
}

/// Entries are numbered from one by their places, as long as no field is
/// repeated.
pub proof fn law_entries_are_numbered<D>(state: Progress<D>, description: Description)
    requires
        state.phase is Describing,
        state.fields.len() < usize::MAX,
        !state.ruling(description).is_duplicate_field,
        forall|i: int| 0 <= i < state.fields.len() ==> (#[trigger] state.fields[i]).seq_no == i + 1,
    ensures
        ({
            let after = state.described(description).0.fields;
            forall|i: int| 0 <= i < after.len() ==> (#[trigger] after[i]).seq_no == i + 1
        }),
{
}

/// Whether an entry says what it should: it lies on the disk where its sample does,
/// and has dropouts only where they are looked for, and then some.
pub open spec fn is_sound_entry(info: FieldInfo, spec: DecoderSpec) -> bool {
    &&& info.disk_loc == disk_location(info.file_loc, spec.bytes_per_field)
    &&& info.drop_outs matches Some(runs) ==> spec.do_dod && runs.field_line.len() > 0
}

/// Whether a field has a sound entry, and a luma picture of the kind that is asked
/// for.
pub open spec fn is_sound(field: Written, spec: DecoderSpec) -> bool {
    is_sound_entry(field.info, spec) && (field.picture.luma is Raw) == spec.export_raw_tbc
}

/// Whether all fields that a decoder holds are sound.
spec fn holds_sound_fields<D>(state: Progress<D>) -> bool {
    let raw = state.spec.export_raw_tbc;
    &&& forall|i: int|
        0 <= i < state.fields.len() ==> is_sound_entry(#[trigger] state.fields[i], state.spec)
    &&& forall|i: int|
        0 <= i < state.output.len() ==> is_sound(#[trigger] state.output[i], state.spec)
    &&& state.last_first matches Some(field) ==> is_sound(field, state.spec)
    &&& state.last_second matches Some(field) ==> is_sound(field, state.spec)
    &&& state.phase matches Phase::RenderingChroma { luma } ==> (luma is Raw) == raw
    &&& state.phase matches Phase::Describing { luma, .. } ==> (luma is Raw) == raw
}

proof fn lemma_soundness_is_kept<D>(state: Progress<D>, event: Event<D>)
    requires
        holds_sound_fields(state),
        state.accepts(event),
    ensures
        holds_sound_fields(state.step(event).0),
        state.step(event).0.spec == state.spec,
        forall|i: int|
            0 <= i < fields_of(state.step(event).1).len() ==> is_sound(
                #[trigger] fields_of(state.step(event).1)[i],
                state.spec,
            ),
{
    if let Event::Described { description } = event {
        let addition = state.addition(description);
        let after = state.step(event).0;
        assert(is_sound(state.dataset(description), state.spec));
        assert forall|i: int| 0 <= i < after.output.len() implies is_sound(
            #[trigger] after.output[i],
            after.spec,
        ) by {
            if i < state.output.len() {
                assert(after.output[i] == state.output[i]);
            } else {
                assert(after.output[i] == addition[i - state.output.len()]);
            }
        }
    }
}

proof fn lemma_run_is_sound<D>(state: Progress<D>, events: Seq<Event<D>>)
    requires
        holds_sound_fields(state),
        accepted(state, events),
    ensures
        holds_sound_fields(after_events(state, events)),
        after_events(state, events).spec == state.spec,
        forall|i: int|
            0 <= i < returned(state, events).len() ==> is_sound(
                #[trigger] returned(state, events)[i],
                state.spec,
            ),
    decreases events.len(),
{
    if events.len() > 0 {
        let before = events.drop_last();
        lemma_run_is_sound(state, before);
        lemma_soundness_is_kept(after_events(state, before), events.last());
        let last = fields_of(after_events(state, before).step(events.last()).1);
        assert forall|i: int| 0 <= i < returned(state, events).len() implies is_sound(
            #[trigger] returned(state, events)[i],
            state.spec,
        ) by {
            let count = returned(state, before).len();
            if i < count {
                assert(returned(state, events)[i] == returned(state, before)[i]);
            } else {
                assert(returned(state, events)[i] == last[i - count]);
            }
        }
    }
}

/// Every field that a run returns is sound: its place on the disk is that of its
/// sample, its luma picture is raw exactly if that is asked for, and its dropouts are
/// those of a search that was asked for and found some.
pub proof fn law_returned_fields_are_sound<D>(
    spec: DecoderSpec,
    fdoffset: Double,
    events: Seq<Event<D>>,
)
    requires
        accepted(Progress::<D>::fresh(spec, fdoffset), events),
    ensures
        ({
            let fields = returned(Progress::<D>::fresh(spec, fdoffset), events);
            forall|i: int| 0 <= i < fields.len() ==> is_sound(#[trigger] fields[i], spec)
        }),
{
    lemma_run_is_sound(Progress::<D>::fresh(spec, fdoffset), events);
}

/// The distance that a field is judged by is how far its place on the disk lies behind
/// that of the last entry.
pub proof fn law_distance_lies_between_entries<D>(
    spec: DecoderSpec,
    fdoffset: Double,
    events: Seq<Event<D>>,
    description: Description,
)
    requires
        accepted(Progress::<D>::fresh(spec, fdoffset), events),
        after_events(Progress::<D>::fresh(spec, fdoffset), events).phase is Describing,
        after_events(Progress::<D>::fresh(spec, fdoffset), events).fields.len() > 0,
    ensures
        ({
            let state = after_events(Progress::<D>::fresh(spec, fdoffset), events);
            state.distance() == difference(
                state.entry(description).disk_loc,
                state.fields.last().disk_loc,
            )
        }),
{
    let state = after_events(Progress::<D>::fresh(spec, fdoffset), events);
    lemma_run_is_sound(Progress::<D>::fresh(spec, fdoffset), events);
    assert(is_sound_entry(state.fields[state.fields.len() - 1], spec));
}

/// The phase ID of a written field can be found again for another sequence
/// number: where none was read off the signal, it follows from the detected
/// order and the number alone, and otherwise it does not depend on the number.
pub proof fn law_phase_id_follows_number<D>(state: Progress<D>, description: Description)
    requires
        state.phase is Describing,
        state.fields.len() < usize::MAX,
    ensures
        ({
            let field = state.dataset(description);
            field.info.field_phase_id == match field.field_phase_id_raw {
                Some(id) => id,
                None => phase_id_by_number(
                    field.info.detected_first_field,
                    field.info.seq_no as int,
                ),
            }
        }),
{
}

/// A field has a fault exactly if it follows one of its own order. Progressive
/// content is relabelled and trusted little; any other such field is marked as
/// following a skipped one, and not trusted at all. Otherwise the measured
/// confidence and the detected order stand.
pub proof fn law_faults_mark_repairs<D>(state: Progress<D>, description: Description)
    requires
        state.phase is Describing,
    ensures
        ({
            let entry = state.entry(description);
            let repaired = state.fields.len() > 0 && state.fields.last().is_first_field
                == state.phase->first;
            &&& entry.decode_faults is Some <==> repaired
            &&& entry.decode_faults == Some(FAULT_PROGRESSIVE) ==> entry.sync_conf == 10
                && entry.is_first_field != entry.detected_first_field && !entry.is_duplicate_field
            &&& entry.decode_faults is Some && entry.decode_faults != Some(FAULT_PROGRESSIVE) ==>
                entry.decode_faults == Some(FAULT_SKIPPED) && entry.sync_conf == 0
            &&& !repaired ==> entry.sync_conf == description.sync_conf
            &&& !repaired ==> entry.is_first_field == entry.detected_first_field
            &&& entry.is_duplicate_field ==> entry.decode_faults == Some(FAULT_SKIPPED)
            // An entry that is made is relabelled exactly to repair the order.
            &&& state.ruling(description).write_field ==> (entry.is_first_field
                != entry.detected_first_field <==> entry.decode_faults == Some(FAULT_PROGRESSIVE)
                || entry.decode_faults == Some(FAULT_SKIPPED) && !entry.is_duplicate_field)
        }),
{
}

/// The state after a number of events.
pub open spec fn after_events<D>(state: Progress<D>, events: Seq<Event<D>>) -> Progress<D>
    decreases events.len(),
{
    if events.len() == 0 {
        state
    } else {
        after_events(state, events.drop_last()).step(events.last()).0
    }
}

/// There is metadata exactly if a luma picture was rendered since the decoder was
/// made: of a new decoder there is none.
pub proof fn law_metadata_follows_luma<D>(
    spec: DecoderSpec,
    fdoffset: Double,
    events: Seq<Event<D>>,
)
    ensures
        after_events(Progress::<D>::fresh(spec, fdoffset), events).metadata_field is Some <==> (
        exists|i: int| 0 <= i < events.len() && #[trigger] events[i] is RenderedLuma),
    decreases events.len(),
{
    if events.len() > 0 {
        let before = events.drop_last();
        law_metadata_follows_luma(spec, fdoffset, before);
        let last = events.len() - 1;
        assert(events[last] == events.last());
        assert(forall|i: int| 0 <= i < last ==> before[i] == events[i]);
        if after_events(Progress::<D>::fresh(spec, fdoffset), before).metadata_field is Some {
            let i = choose|i: int| 0 <= i < before.len() && #[trigger] before[i] is RenderedLuma;
            assert(events[i] is RenderedLuma);
        }
    }
}

/// Once there is metadata, there always is.
pub proof fn law_metadata_stays<D>(state: Progress<D>, event: Event<D>)
    requires
        state.metadata_field is Some,
        state.accepts(event),
    ensures
        state.step(event).0.metadata_field is Some,
{
}

/// Whether every event of a run answered the action before it.
pub open spec fn accepted<D>(state: Progress<D>, events: Seq<Event<D>>) -> bool
    decreases events.len(),
{
    events.len() == 0 || accepted(state, events.drop_last()) && after_events(
        state,
        events.drop_last(),
    ).accepts(events.last())
}

/// The fields that an effect returns.
pub open spec fn fields_of<D>(effect: Effect<D>) -> Seq<Written> {
    match effect {
        Effect::Return { fields, .. } => fields,
        _ => Seq::empty(),
    }
}

/// All fields that the calls of a run return, in order.
pub open spec fn returned<D>(state: Progress<D>, events: Seq<Event<D>>) -> Seq<Written>
    decreases events.len(),
{
    if events.len() == 0 {
        Seq::empty()
    } else {
        let before = events.drop_last();
        returned(state, before) + fields_of(after_events(state, before).step(events.last()).1)
    }
}

/// Whether a field is labelled as its faults say, and has the phase ID of its number
/// or of the signal. A field without a fault keeps its detected order; one is
/// relabelled exactly where that repairs the order, as progressive content or in
/// place of a duplicate.
pub open spec fn is_labelled(field: Written) -> bool {
    let info = field.info;
    let progressive = info.decode_faults == Some(FAULT_PROGRESSIVE);
    let skipped = info.decode_faults == Some(FAULT_SKIPPED);
    &&& info.decode_faults is None || progressive || skipped
    &&& progressive ==> info.sync_conf == 10
    &&& skipped ==> info.sync_conf == 0
    &&& info.is_duplicate_field ==> skipped
    &&& info.is_first_field != info.detected_first_field <==> progressive || skipped
        && !info.is_duplicate_field
    &&& info.field_phase_id == match field.field_phase_id_raw {
        Some(id) => id,
        None => phase_id_by_number(info.detected_first_field, info.seq_no as int),
    }
}

/// Whether all fields that a decoder holds are labelled so.
spec fn holds_labelled_fields<D>(state: Progress<D>) -> bool {
    &&& forall|i: int| 0 <= i < state.output.len() ==> is_labelled(#[trigger] state.output[i])
    &&& state.last_first matches Some(field) ==> is_labelled(field)
    &&& state.last_second matches Some(field) ==> is_labelled(field)
}

proof fn lemma_labels_are_kept<D>(state: Progress<D>, event: Event<D>)
    requires
        holds_labelled_fields(state),
        state.accepts(event),
    ensures
        holds_labelled_fields(state.step(event).0),
        forall|i: int|
            0 <= i < fields_of(state.step(event).1).len() ==> is_labelled(
                #[trigger] fields_of(state.step(event).1)[i],
            ),
{
    if let Event::Described { description } = event {
        let addition = state.addition(description);
        let after = state.step(event).0;
        if state.ruling(description).write_field {
            law_faults_mark_repairs(state, description);
            law_phase_id_follows_number(state, description);
            assert(is_labelled(state.dataset(description)));
        }
        assert forall|i: int| 0 <= i < after.output.len() implies is_labelled(
            #[trigger] after.output[i],
        ) by {
            if i < state.output.len() {
                assert(after.output[i] == state.output[i]);
            } else {
                assert(after.output[i] == addition[i - state.output.len()]);
            }
        }
    }
}

/// Every field that a run returns, a repeated one included, is labelled as its faults
/// say, and has the phase ID of its number or of the signal.
pub proof fn law_returned_fields_are_labelled<D>(
    spec: DecoderSpec,
    fdoffset: Double,
    events: Seq<Event<D>>,
)
    requires
        accepted(Progress::<D>::fresh(spec, fdoffset), events),
    ensures
        ({
            let fields = returned(Progress::<D>::fresh(spec, fdoffset), events);
            forall|i: int| 0 <= i < fields.len() ==> is_labelled(#[trigger] fields[i])
        }),
{
    lemma_run_is_labelled(Progress::<D>::fresh(spec, fdoffset), events);
}

proof fn lemma_run_is_labelled<D>(state: Progress<D>, events: Seq<Event<D>>)
    requires
        holds_labelled_fields(state),
        accepted(state, events),
    ensures
        holds_labelled_fields(after_events(state, events)),
        forall|i: int|
            0 <= i < returned(state, events).len() ==> is_labelled(
                #[trigger] returned(state, events)[i],
            ),
    decreases events.len(),
{
    if events.len() > 0 {
        let before = events.drop_last();
        lemma_run_is_labelled(state, before);
        lemma_labels_are_kept(after_events(state, before), events.last());
        let last = fields_of(after_events(state, before).step(events.last()).1);
        assert forall|i: int| 0 <= i < returned(state, events).len() implies is_labelled(
            #[trigger] returned(state, events)[i],
        ) by {
            let count = returned(state, before).len();
            if i < count {
                assert(returned(state, events)[i] == returned(state, before)[i]);
            } else {
                assert(returned(state, events)[i] == last[i - count]);
            }
        }
    }
}

/// Whether no entry is relabelled.
pub open spec fn none_relabelled(fields: Seq<FieldInfo>) -> bool {
    forall|i: int|
        0 <= i < fields.len() ==> (#[trigger] fields[i]).is_first_field
            == fields[i].detected_first_field
}

/// Whether no entry is of a field that another was repeated for.
pub open spec fn none_duplicate(fields: Seq<FieldInfo>) -> bool {
    forall|i: int| 0 <= i < fields.len() ==> !(#[trigger] fields[i]).is_duplicate_field
}

/// Whether entries are numbered by their places.
pub open spec fn numbered(fields: Seq<FieldInfo>) -> bool {
    forall|i: int| 0 <= i < fields.len() ==> (#[trigger] fields[i]).seq_no == i + 1
}

/// Whether skipped fields are left out or only relabelled.
pub open spec fn never_repeats(spec: DecoderSpec) -> bool {
    spec.field_order_action == FieldOrderAction::Drop || spec.field_order_action
        == FieldOrderAction::Flip
}

/// What holds of the entries of every decoder.
spec fn keeps_order<D>(state: Progress<D>) -> bool {
    &&& faithful(state)
    &&& never_repeats(state.spec) || none_relabelled(state.fields) ==> alternating(state.fields)
    &&& none_relabelled(state.fields) ==> {
        &&& state.last_first matches Some(field) ==> unflipped(field)
        &&& state.last_second matches Some(field) ==> unflipped(field)
    }
    &&& none_duplicate(state.fields) ==> numbered(state.fields)
    &&& state.phase is Idle ==> state.output.len() == 0
}

/// Entering a field keeps those unflipped that may be repeated, where no entry is
/// relabelled.
proof fn lemma_repeatable_fields_stay_unflipped<D>(state: Progress<D>, description: Description)
    requires
        state.phase is Describing,
        keeps_order(state),
        none_relabelled(state.described(description).0.fields),
    ensures
        ({
            let after = state.described(description).0;
            &&& none_relabelled(state.fields)
            &&& after.last_first matches Some(field) ==> unflipped(field)
            &&& after.last_second matches Some(field) ==> unflipped(field)
        }),
{
    let after = state.described(description).0;
    let addition = state.addition(description);
    let dataset = state.dataset(description);
    let ruling = state.ruling(description);
    let count = state.fields.len() as int;
    assert(after.fields == state.fields + infos(addition));
    assert(none_relabelled(state.fields)) by {
        assert forall|i: int| 0 <= i < count implies (#[trigger] state.fields[i]).is_first_field
            == state.fields[i].detected_first_field by {
            assert(after.fields[i] == state.fields[i]);
        }
    }
    if ruling.write_field {
        assert(dataset.info.is_first_field == ruling.is_first_field);
        assert(dataset.info.detected_first_field == state.phase->first);
        if !ruling.is_duplicate_field {
            assert(addition =~= seq![dataset]);
            assert(after.fields[count] == dataset.info);
        }
        assert(unflipped(dataset));
    }
}

/// Entering a field keeps entries numbered, where none was repeated.
proof fn lemma_addition_is_numbered<D>(state: Progress<D>, description: Description)
    requires
        state.phase is Describing,
        state.fields.len() < usize::MAX,
        none_duplicate(state.fields) ==> numbered(state.fields),
        none_duplicate(state.described(description).0.fields),
    ensures
        numbered(state.described(description).0.fields),
{
    let after = state.described(description).0.fields;
    let addition = state.addition(description);
    let dataset = state.dataset(description);
    let ruling = state.ruling(description);
    let count = state.fields.len() as int;
    assert(after == state.fields + infos(addition));
    assert(none_duplicate(state.fields)) by {
        assert forall|i: int| 0 <= i < count implies !(#[trigger] state.fields[
            i
        ]).is_duplicate_field by {
            assert(after[i] == state.fields[i]);
        }
    }
    assert(dataset.info.seq_no == count + 1);
    assert(dataset.info.is_duplicate_field == ruling.is_duplicate_field);
    if addition.len() == 2 {
        assert(after[count + 1] == dataset.info);
        assert(false);
    }
    assert forall|i: int| 0 <= i < after.len() implies (#[trigger] after[i]).seq_no == i + 1 by {
        if i < count {
            assert(after[i] == state.fields[i]);
        } else {
            assert(after[i] == dataset.info);
        }
    }
}

proof fn lemma_order_is_kept<D>(state: Progress<D>, event: Event<D>)
    requires
        keeps_order(state),
        state.accepts(event),
    ensures
        keeps_order(state.step(event).0),
{
    law_steps_keep_faith(state, event);
    match event {
        Event::Described { description } => {
            let after = state.described(description).0;
            if none_relabelled(after.fields) {
                lemma_repeatable_fields_stay_unflipped(state, description);
            }
            if never_repeats(after.spec) || none_relabelled(after.fields) {
                lemma_addition_alternates(state, description);
            }
            if none_duplicate(after.fields) {
                lemma_addition_is_numbered(state, description);
            }
        },
        _ => {},
    }
}

/// The fields that a run has returned and is about to return are its entries, if no
/// call failed.
proof fn lemma_run_ledger_of_events<D>(state: Progress<D>, events: Seq<Event<D>>)
    requires
        accepted(state, events),
        keeps_order(state),
        state.fields.len() == 0,
        state.output.len() == 0,
        forall|i: int| 0 <= i < events.len() ==> !(#[trigger] events[i] is Failed),
    ensures
        keeps_order(after_events(state, events)),
        after_events(state, events).spec == state.spec,
        after_events(state, events).fields == infos(returned(state, events)) + infos(
            after_events(state, events).output,
        ),
    decreases events.len(),
{
    if events.len() > 0 {
        let before = events.drop_last();
        let event = events.last();
        assert(forall|i: int| 0 <= i < before.len() ==> before[i] == events[i]);
        assert(event == events[events.len() - 1]);
        lemma_run_ledger_of_events(state, before);
        let at = after_events(state, before);
        lemma_order_is_kept(at, event);
        let (after, effect) = at.step(event);
        let done = returned(state, before);
        let fields = fields_of(effect);
        assert(infos(done + fields) =~= infos(done) + infos(fields));
        if let Event::Described { description } = event {
            let addition = at.addition(description);
            assert(infos(at.output + addition) =~= infos(at.output) + infos(addition));
            assert((infos(done) + infos(at.output)) + infos(addition) =~= infos(done) + (infos(
                at.output,
            ) + infos(addition)));
            assert(infos(fields) =~= Seq::empty());
        } else if effect is Return {
            assert(infos(after.output) =~= Seq::empty());
        } else {
            assert(infos(fields) =~= Seq::empty());
            assert(after.output =~= at.output);
        }
        assert(after.fields =~= infos(done + fields) + infos(after.output));
    } else {
        assert(infos(state.output) =~= Seq::empty());
        assert(infos(returned(state, events)) =~= Seq::empty());
    }
}

/// The fields that a run has returned between its calls, where no call failed: they
/// begin with a first field, they alternate where none is relabelled or none is ever
/// repeated, and they are numbered by their places where none was repeated.
pub proof fn law_returned_fields_are_in_order<D>(
    spec: DecoderSpec,
    fdoffset: Double,
    events: Seq<Event<D>>,
)
    requires
        accepted(Progress::<D>::fresh(spec, fdoffset), events),
        after_events(Progress::<D>::fresh(spec, fdoffset), events).phase is Idle,
        forall|i: int| 0 <= i < events.len() ==> !(#[trigger] events[i] is Failed),
    ensures
        ({
            let fields = infos(returned(Progress::<D>::fresh(spec, fdoffset), events));
            &&& fields == after_events(Progress::<D>::fresh(spec, fdoffset), events).fields
            &&& fields.len() > 0 ==> fields[0].is_first_field && fields[0].detected_first_field
            &&& never_repeats(spec) || none_relabelled(fields) ==> alternating(fields)
            &&& none_duplicate(fields) ==> numbered(fields)
        }),
{
    let state = Progress::<D>::fresh(spec, fdoffset);
    lemma_run_ledger_of_events(state, events);
    let fields = infos(returned(state, events));
    assert(infos(after_events(state, events).output) =~= Seq::empty());
    assert(after_events(state, events).fields =~= fields);
}

/// Whether a function gives one result for one argument.
pub open spec fn is_function<A, B, F: Fn(A) -> B>(f: F) -> bool {
    forall|x: A, y: B, z: B|
        #![trigger f.ensures((x,), y), f.ensures((x,), z)]
        f.ensures((x,), y) && f.ensures((x,), z) ==> y == z
}

/// Metadata read twice is the same, if the levels are scaled and adjusted by
/// functions.
pub proof fn law_metadata_can_be_read_again<
    S: Fn(Double, Double) -> Double,
    H: Fn(Double) -> Double,
    B: Fn(OutputLevel) -> Double,
    W: Fn(OutputLevel) -> Double,
>(
    spec: DecoderSpec,
    field: MetadataFieldState,
    measures: SignalMeasures,
    scaled: S,
    add_half: H,
    dim: B,
    brighten: W,
    once: DecoderMetadata,
    again: DecoderMetadata,
)
    requires
        forall|hz: Double, scale: Double, y: Double, z: Double|
            #![trigger scaled.ensures((hz, scale), y), scaled.ensures((hz, scale), z)]
            scaled.ensures((hz, scale), y) && scaled.ensures((hz, scale), z) ==> y == z,
        is_function(add_half),
        is_function(dim),
        is_function(brighten),
        is_metadata(spec, field, measures, scaled, add_half, dim, brighten, once),
        is_metadata(spec, field, measures, scaled, add_half, dim, brighten, again),
    ensures
        again.system@ == once.system@,
        again == (DecoderMetadata { system: again.system, ..once }),
{
}

/// Whether the decoder has a field ahead, or is about to look for one.
pub open spec fn field_ahead<D>(state: Progress<D>) -> bool {
    match state.phase {
        Phase::Predecoding { field, scheduled, complete, .. } => complete && (field is Some
            || scheduled),
        _ => state.has_pending ==> state.pending_result is Some,
    }
}

/// Decoding ends only at the end of the input: as long as more input may follow
/// and the signal work succeeds, a field is always ahead, and no call says that
/// the input is used up.
pub proof fn law_open_input_is_never_done<D>(state: Progress<D>, event: Event<D>)
    requires
        field_ahead(state),
        state.accepts(event),
        !(event is Failed),
        event matches Event::Start { window } ==> !window.final_chunk,
        !(event is Start) ==> !state.window.final_chunk,
    ensures
        field_ahead(state.step(event).0),
        state.step(event).1 matches Effect::Return { needed, .. } ==> needed is From,
        state.step(event).1 is Return || !state.step(event).0.window.final_chunk,
{
}

} // verus!
