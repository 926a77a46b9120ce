//! What goes out with the fields: the luma pictures and the metadata of all of them.
use crate::comb::is_line_comb;
use crate::decoder::{
    is_adjusted_level, is_metadata, is_rendered, ColorSystem, DecoderSpec, Event, LineSystem,
    MetadataFieldState, Progress, SignalMeasures,
};
use crate::double::{
    held_between, law_integers_are_held_in_range, law_whole_numbers_are_near, unit, Double, Single,
};
use crate::field::DecodedField;
use crate::history::{last_pictured, law_metadata_is_of_the_last_picture};
use crate::info::{DecoderMetadata, LumaOutput};
use crate::laws::after_events;
use crate::levels::{is_encoded, is_level_of, OutputLevel};
use vstd::prelude::*;

verus! {

/// The tracks of a recording with two tracks take turns: the field with number zero is
/// of the track that the phase says, and fields of neighbouring numbers are of
/// different tracks, so that fields two numbers apart are of one. Nothing but the phase
/// and the number decides on the track, and raw pictures have none.
pub proof fn law_tracks_take_turns<D>(
    state: Progress<D>,
    field: DecodedField<D>,
    next: DecodedField<D>,
    luma_len: usize,
    next_len: usize,
)
    requires
        state.track_known(field),
        state.track_known(next),
    ensures
        ({
            let track = state.luma_of(field, luma_len).track;
            let other = state.luma_of(next, next_len).track;
            let told_apart = !state.spec.export_raw_tbc && state.inter_field_state.track_phase is Some;
            &&& track is Some <==> told_apart
            &&& told_apart ==> {
                &&& 0 <= track->0 <= 1
                &&& field.field_number == 0 ==> track->0
                    == state.inter_field_state.track_phase->0
                &&& field.field_number >= 0 && next.field_number == field.field_number + 1 ==> other
                    != track
                &&& (field.field_number - next.field_number) % 2 == 0 ==> other == track
                &&& (field.field_number - next.field_number) % 2 != 0 ==> other != track
            }
        }),
{
}

/// The tracks of two decoders agree on a field where their phases do, and differ where
/// those do.
pub proof fn law_tracks_follow_the_phase<D>(
    one: Progress<D>,
    two: Progress<D>,
    field: DecodedField<D>,
    luma_len: usize,
)
    requires
        one.track_known(field),
        two.track_known(field),
        !one.spec.export_raw_tbc,
        !two.spec.export_raw_tbc,
    ensures
        one.luma_of(field, luma_len).track == two.luma_of(field, luma_len).track
            <==> one.inter_field_state.track_phase == two.inter_field_state.track_phase,
{
}

/// A track is known where it is not needed, and otherwise of every field that has a
/// number, if the phase is zero or one.
pub proof fn law_tracks_are_known<D>(state: Progress<D>, field: DecodedField<D>)
    ensures
        state.spec.export_raw_tbc ==> state.track_known(field),
        state.inter_field_state.track_phase is None ==> state.track_known(field),
        state.inter_field_state.track_phase matches Some(phase) ==> (phase == 0 || phase == 1)
            && field.field_number >= 0 ==> state.track_known(field),
        state.inter_field_state.track_phase matches Some(phase) ==> !state.spec.export_raw_tbc
            && phase != 0 && phase != 1 ==> !state.track_known(field),
{
}

/// A luma picture is raw exactly if the settings say so. It is combed unless the limit
/// of the comb is zero. Its level is measured where the settings say so, the picture is
/// not raw, and it is whole.
pub proof fn law_luma_follows_the_settings<D>(
    state: Progress<D>,
    field: DecodedField<D>,
    luma_len: usize,
)
    ensures
        ({
            let plan = state.luma_of(field, luma_len);
            let zero = state.spec.y_comb.bits == 0 || state.spec.y_comb.bits == 0x8000_0000;
            &&& plan.raw == state.spec.export_raw_tbc
            &&& plan.comb == !zero
            &&& state.spec.combs() == !zero
            &&& plan.adjust_ire0 <==> {
                &&& state.spec.ire0_adjust
                &&& !state.spec.export_raw_tbc
                &&& luma_len == field.outlinecount * field.outlinelen
            }
        }),
{
}

/// A raw picture is the signal itself, or, where there is a comb, the combed signal.
pub proof fn law_raw_pictures_are_signals<
    D,
    C,
    O: Fn(Single, Single, Single) -> Single,
    R: Fn(Single, Single) -> Single,
    M: Fn(&Vec<Single>) -> Double,
    S: Fn(Double, usize) -> Double,
    P: Fn(Double, Double) -> C,
    E: Fn(C, Single) -> Single,
>(
    state: Progress<D>,
    field: DecodedField<D>,
    luma: Seq<Single>,
    ire0: Double,
    stand_out: O,
    reduce: R,
    measure: M,
    shift: S,
    prepare: P,
    encode: E,
    combed: Vec<Single>,
    level: Double,
    shifted: Double,
    output: LumaOutput,
)
    requires
        state.spec.export_raw_tbc,
        is_rendered(
            state.luma_of(field, luma.len() as usize),
            state.spec.y_comb,
            field.outlinelen as int,
            luma,
            ire0,
            field.out_scale->0,
            stand_out,
            reduce,
            measure,
            shift,
            prepare,
            encode,
            combed,
            level,
            shifted,
            output,
        ),
    ensures
        output is Raw,
        state.spec.y_comb.bits == 0 || state.spec.y_comb.bits == 0x8000_0000 ==> output->Raw_0@
            == luma,
        state.spec.y_comb.bits != 0 && state.spec.y_comb.bits != 0x8000_0000 ==> is_line_comb(
            luma,
            field.outlinelen as int,
            state.spec.y_comb,
            stand_out,
            reduce,
            output->Raw_0@,
        ),
{
}

/// An encoded picture is made of the signal, or, where there is a comb, of the combed
/// signal, with what is prepared of its level and its output scale. The level is the
/// given one, or, where it is adjusted, the one measured in the whole picture that is
/// encoded. On a recording with two tracks the offset of the track is added.
pub proof fn law_encoded_pictures_have_a_level<
    D,
    C,
    O: Fn(Single, Single, Single) -> Single,
    R: Fn(Single, Single) -> Single,
    M: Fn(&Vec<Single>) -> Double,
    S: Fn(Double, usize) -> Double,
    P: Fn(Double, Double) -> C,
    E: Fn(C, Single) -> Single,
>(
    state: Progress<D>,
    field: DecodedField<D>,
    luma: Seq<Single>,
    ire0: Double,
    stand_out: O,
    reduce: R,
    measure: M,
    shift: S,
    prepare: P,
    encode: E,
    combed: Vec<Single>,
    level: Double,
    shifted: Double,
    output: LumaOutput,
)
    requires
        !state.spec.export_raw_tbc,
        state.track_known(field),
        luma.len() <= usize::MAX,
        is_rendered(
            state.luma_of(field, luma.len() as usize),
            state.spec.y_comb,
            field.outlinelen as int,
            luma,
            ire0,
            field.out_scale->0,
            stand_out,
            reduce,
            measure,
            shift,
            prepare,
            encode,
            combed,
            level,
            shifted,
            output,
        ),
    ensures
        output is Encoded,
        exists|prepared: C| #[trigger]
            prepare.ensures((shifted, field.out_scale->0), prepared) && is_encoded(
                combed@,
                prepared,
                encode,
                output->Encoded_0@,
            ),
        state.spec.y_comb.bits == 0 || state.spec.y_comb.bits == 0x8000_0000 ==> combed@ == luma,
        state.spec.y_comb.bits != 0 && state.spec.y_comb.bits != 0x8000_0000 ==> is_line_comb(
            luma,
            field.outlinelen as int,
            state.spec.y_comb,
            stand_out,
            reduce,
            combed@,
        ),
        if state.spec.ire0_adjust && luma.len() == field.outlinecount * field.outlinelen {
            measure.ensures((&combed,), level)
        } else {
            level == ire0
        },
        state.inter_field_state.track_phase is None ==> shifted == level,
        state.inter_field_state.track_phase matches Some(phase) ==> {
            if field.field_number % 2 == 0 {
                shift.ensures((level, phase as usize), shifted)
            } else {
                shift.ensures((level, (1 - phase) as usize), shifted)
            }
        },
{
}

/// Whether `number` is the whole number nearest to the number `a`, of two the even one,
/// held in range; zero for no number.
pub open spec fn is_nearest_whole(number: i64, a: Double) -> bool {
    if a.nan() {
        number == 0
    } else {
        exists|whole: int|
            {
                &&& -unit() <= 2 * (#[trigger] (whole * unit()) - a.steps()) <= unit()
                &&& 2 * (whole * unit() - a.steps()) == unit() || 2 * (a.steps() - whole * unit())
                    == unit() ==> whole % 2 == 0
                &&& number == held_between(whole, i64::MIN as int, i64::MAX as int)
            }
    }
}

proof fn lemma_rounded_is_nearest(a: Double)
    ensures
        is_nearest_whole(a.rounded_i64(), a),
{
    law_whole_numbers_are_near(a);
    law_integers_are_held_in_range(a);
    if !a.nan() {
        let whole = a.rounded();
        assert(-unit() <= 2 * (whole * unit() - a.steps()) <= unit());
    }
}

/// What the metadata says: the name of the standard, the width of the settings, the
/// height of the given picture, the rate, and each position in a line in its place,
/// rounded to the nearest sample.
pub proof fn law_metadata_says_what_it_is_of<
    S: Fn(Double, Double) -> Double,
    H: Fn(Double) -> Double,
    B: Fn(OutputLevel) -> Double,
    W: Fn(OutputLevel) -> Double,
>(
    spec: DecoderSpec,
    field: MetadataFieldState,
    measures: SignalMeasures,
    scaled: S,
    add_half: H,
    dim: B,
    brighten: W,
    found: DecoderMetadata,
)
    requires
        is_metadata(spec, field, measures, scaled, add_half, dim, brighten, found),
    ensures
        found.field_width == spec.outlinelen,
        found.field_height == field.outlinecount,
        found.sample_rate == measures.sample_rate,
        spec.frame_lines != LineSystem::Line525 ==> found.system@ == "PAL"@,
        spec.frame_lines == LineSystem::Line525 && spec.color_system == ColorSystem::Pal
            ==> found.system@ == "PAL-M"@,
        spec.frame_lines == LineSystem::Line525 && spec.color_system != ColorSystem::Pal
            ==> found.system@ == "NTSC"@,
        is_nearest_whole(found.colour_burst_start, measures.colour_burst_start),
        is_nearest_whole(found.colour_burst_end, measures.colour_burst_end),
        is_nearest_whole(found.active_video_start, measures.active_video_start),
        is_nearest_whole(found.active_video_end, measures.active_video_end),
{
    lemma_rounded_is_nearest(measures.colour_burst_start);
    lemma_rounded_is_nearest(measures.colour_burst_end);
    lemma_rounded_is_nearest(measures.active_video_start);
    lemma_rounded_is_nearest(measures.active_video_end);
}

/// The metadata gives the levels of black and of white: that of black is the dimmed
/// level of the frequency of black, that of white the brightened level of the frequency
/// of white. Both are on the scale of the given picture, and are frequencies where the
/// pictures are raw.
pub proof fn law_metadata_gives_black_and_white<
    S: Fn(Double, Double) -> Double,
    H: Fn(Double) -> Double,
    B: Fn(OutputLevel) -> Double,
    W: Fn(OutputLevel) -> Double,
>(
    spec: DecoderSpec,
    field: MetadataFieldState,
    measures: SignalMeasures,
    scaled: S,
    add_half: H,
    dim: B,
    brighten: W,
    found: DecoderMetadata,
)
    requires
        is_metadata(spec, field, measures, scaled, add_half, dim, brighten, found),
    ensures
        spec.export_raw_tbc ==> dim.ensures(
            (OutputLevel::Raw(measures.black_hz),),
            found.black_16b_ire,
        ),
        spec.export_raw_tbc ==> brighten.ensures(
            (OutputLevel::Raw(measures.white_hz),),
            found.white_16b_ire,
        ),
        !spec.export_raw_tbc ==> exists|black: OutputLevel|
            is_level_of(false, measures.black_hz, field.out_scale, scaled, add_half, black)
                && #[trigger] dim.ensures((black,), found.black_16b_ire),
        !spec.export_raw_tbc ==> exists|white: OutputLevel|
            is_level_of(false, measures.white_hz, field.out_scale, scaled, add_half, white)
                && #[trigger] brighten.ensures((white,), found.white_16b_ire),
{
    let raw = spec.export_raw_tbc;
    assert(is_adjusted_level(
        raw,
        measures.black_hz,
        field.out_scale,
        scaled,
        add_half,
        dim,
        found.black_16b_ire,
    ));
    assert(is_adjusted_level(
        raw,
        measures.white_hz,
        field.out_scale,
        scaled,
        add_half,
        brighten,
        found.white_16b_ire,
    ));
}

/// The height that the metadata of a run gives is that of the picture that was rendered
/// last, whatever else happened.
pub proof fn law_metadata_gives_the_height_of_the_pictures<
    D,
    S: Fn(Double, Double) -> Double,
    H: Fn(Double) -> Double,
    B: Fn(OutputLevel) -> Double,
    W: Fn(OutputLevel) -> Double,
>(
    spec: DecoderSpec,
    fdoffset: Double,
    events: Seq<Event<D>>,
    measures: SignalMeasures,
    scaled: S,
    add_half: H,
    dim: B,
    brighten: W,
    found: DecoderMetadata,
)
    requires
        last_pictured(events) is Some,
        is_metadata(
            spec,
            after_events(Progress::<D>::fresh(spec, fdoffset), events).metadata_field->0,
            measures,
            scaled,
            add_half,
            dim,
            brighten,
            found,
        ),
    ensures
        found.field_height == last_pictured(events)->0.outlinecount,
        found.field_width == spec.outlinelen,
{
    law_metadata_is_of_the_last_picture(spec, fdoffset, events);
}

} // verus!
