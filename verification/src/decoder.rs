//! The decoder: a state machine that asks for one piece of signal work at a
//! time and turns the answers into fields.
//!
//! A call of the decoder begins with [`Event::Start`] and a window of the
//! input. Every answer of [`Decoder::decode`] is an [`Action`]; its outcome is
//! handed back as the next [`Event`], until the action is [`Action::Return`].
use crate::blocks::{can_plan, plan_blocks, plan_fits, plan_for, BlockPlan, Window, BLOCKSIZE};
use crate::comb::{is_line_comb, y_comb};
use crate::double::{in_double, saturated, through_double, Double, Single, SINGLE_SIGN};
use crate::field::{
    field_phase_id, phase_id_by_number, DecodeFieldResult, DecodedField, InterFieldState,
    PrevFieldState,
};
use crate::field_order::{judge, labels_back, verdict, FieldOrderAction, Labels, Verdict};
use crate::info::{
    DecoderMetadata, DropOuts, FieldInfo, FieldInfoEntry, LumaOutput, VitsMetrics,
    WriteableField, WriteablePicture, Written,
};
use crate::levels::{
    hz_to_output_array, hz_to_output_scalar, is_encoded, is_level_of, OutputLevel,
};
use crate::rounding::{disk_distance, disk_location, distance_on_disk, locate_on_disk};
use vstd::prelude::*;

verus! {

/// The line standard of a recording, as far as its name depends on it.
#[derive(Clone, Copy, Debug, PartialEq, Eq, Structural)]
pub enum LineSystem {
    Line525,
    Other,
}

/// The colour system of a recording, as far as its name depends on it.
#[derive(Clone, Copy, Debug, PartialEq, Eq, Structural)]
pub enum ColorSystem {
    Pal,
    Other,
}

/// The settings of a decoder that its decisions read.
#[derive(Clone, Copy, Debug)]
pub struct DecoderSpec {
    /// Samples to read for one field.
    pub readlen: usize,
    /// Samples of a block that survive its decoding.
    pub usable_blocksize: usize,
    pub outlinelen: usize,
    /// Samples from one field to the next.
    pub bytes_per_field: usize,
    pub do_dod: bool,
    pub field_order_action: FieldOrderAction,
    pub track_phase: Option<i64>,
    pub export_raw_tbc: bool,
    /// What the line comb holds differences within; zero where there is no comb.
    pub y_comb: Single,
    pub ire0_adjust: bool,
    pub frame_lines: LineSystem,
    pub color_system: ColorSystem,
}

impl DecoderSpec {
    /// Whether the luma picture goes through the line comb: its limit is not zero,
    /// of either sign.
    pub open spec fn combs(self) -> bool {
        self.y_comb.magnitude() != 0
    }
}

/// What the metadata keeps of the last valid field.
#[derive(Clone, Copy, Debug)]
pub struct MetadataFieldState {
    pub out_scale: Double,
    pub outlinecount: usize,
}

/// The name of a recording's standard.
pub open spec fn system_name(frame_lines: LineSystem, color_system: ColorSystem) -> Seq<char> {
    match (frame_lines, color_system) {
        (LineSystem::Line525, ColorSystem::Pal) => "PAL-M"@,
        (LineSystem::Line525, _) => "NTSC"@,
        _ => "PAL"@,
    }
}

/// What the metadata says of the output signal: positions in a line are given in
/// samples and parts of samples.
#[derive(Clone, Copy, Debug)]
pub struct SignalMeasures {
    pub sample_rate: Double,
    /// The frequencies of black and of white.
    pub black_hz: Double,
    pub white_hz: Double,
    pub colour_burst_start: Double,
    pub colour_burst_end: Double,
    pub active_video_start: Double,
    pub active_video_end: Double,
}

/// Whether `value` is what `adjust` makes of the level of the frequency `hz`.
pub open spec fn is_adjusted_level<
    S: Fn(Double, Double) -> Double,
    H: Fn(Double) -> Double,
    A: Fn(OutputLevel) -> Double,
>(
    raw: bool,
    hz: Double,
    out_scale: Double,
    scaled: S,
    add_half: H,
    adjust: A,
    value: Double,
) -> bool {
    exists|level: OutputLevel|
        is_level_of(raw, hz, out_scale, scaled, add_half, level) && #[trigger] adjust.ensures(
            (level,),
            value,
        )
}

/// Whether `found` is the metadata of fields like `field`.
pub open spec fn is_metadata<
    S: Fn(Double, Double) -> Double,
    H: Fn(Double) -> Double,
    B: Fn(OutputLevel) -> Double,
    W: Fn(OutputLevel) -> Double,
>(
    spec: DecoderSpec,
    field: MetadataFieldState,
    measures: SignalMeasures,
    scaled: S,
    add_half: H,
    dim: B,
    brighten: W,
    found: DecoderMetadata,
) -> bool {
    let raw = spec.export_raw_tbc;
    let out_scale = field.out_scale;
    &&& found.system@ == system_name(spec.frame_lines, spec.color_system)
    &&& found.field_width == spec.outlinelen
    &&& found.field_height == field.outlinecount
    &&& is_adjusted_level(
        raw,
        measures.black_hz,
        out_scale,
        scaled,
        add_half,
        dim,
        found.black_16b_ire,
    )
    &&& is_adjusted_level(
        raw,
        measures.white_hz,
        out_scale,
        scaled,
        add_half,
        brighten,
        found.white_16b_ire,
    )
    &&& found.sample_rate == measures.sample_rate
    &&& found.colour_burst_start == measures.colour_burst_start.rounded_i64()
    &&& found.colour_burst_end == measures.colour_burst_end.rounded_i64()
    &&& found.active_video_start == measures.active_video_start.rounded_i64()
    &&& found.active_video_end == measures.active_video_end.rounded_i64()
}

/// How a luma picture is made.
#[derive(Clone, Copy, Debug, PartialEq, Eq, Structural)]
pub struct LumaPlan {
    /// Whether the picture goes through the line comb.
    pub comb: bool,
    /// Whether the samples stay as they are.
    pub raw: bool,
    /// Whether the blanking level is measured in the picture.
    pub adjust_ire0: bool,
    /// The track whose offset is added to the blanking level.
    pub track: Option<usize>,
}

/// Whether `output` is a luma picture made of `luma` by `plan`: `combed` is the
/// signal that goes into it, `level` its blanking level before, and `shifted` the
/// one after the offset of the track is added. `prepared` is what `prepare` makes of
/// the latter and of the output scale.
pub open spec fn is_rendered<
    C,
    O: Fn(Single, Single, Single) -> Single,
    R: Fn(Single, Single) -> Single,
    M: Fn(&Vec<Single>) -> Double,
    S: Fn(Double, usize) -> Double,
    P: Fn(Double, Double) -> C,
    E: Fn(C, Single) -> Single,
>(
    plan: LumaPlan,
    limit: Single,
    line_len: int,
    luma: Seq<Single>,
    ire0: Double,
    out_scale: Double,
    stand_out: O,
    reduce: R,
    measure: M,
    shift: S,
    prepare: P,
    encode: E,
    combed: Vec<Single>,
    level: Double,
    shifted: Double,
    output: LumaOutput,
) -> bool {
    &&& plan.comb ==> is_line_comb(luma, line_len, limit, stand_out, reduce, combed@)
    &&& !plan.comb ==> combed@ == luma
    &&& if plan.raw {
        output == LumaOutput::Raw(combed)
    } else {
        &&& if plan.adjust_ire0 {
            measure.ensures((&combed,), level)
        } else {
            level == ire0
        }
        &&& match plan.track {
            Some(track) => shift.ensures((level, track), shifted),
            None => shifted == level,
        }
        &&& output matches LumaOutput::Encoded(samples) && exists|prepared: C| #[trigger]
            prepare.ensures((shifted, out_scale), prepared) && is_encoded(
                combed@,
                prepared,
                encode,
                samples@,
            )
    }
}

/// What was measured of a field that is about to be entered.
#[derive(Debug)]
pub struct Description {
    pub sync_conf: i64,
    pub drop_outs: DropOuts,
    pub vits_metrics: VitsMetrics,
}

/// What the surroundings tell the decoder.
#[derive(Debug)]
pub enum Event<D> {
    /// A call begins.
    Start { window: Window },
    /// The position asked for: `toffset` is the sum of the two offsets, and
    /// `from` is that less the samples that decoding spoils.
    Located { toffset: Double, from: Double },
    /// The blocks were decoded, and a field was looked for if all were there.
    Predecoded { result: Option<DecodeFieldResult<D>>, inter_field_state: InterFieldState },
    /// The luma picture was rendered.
    RenderedLuma { field: DecodedField<D>, luma: LumaOutput },
    /// The chroma picture was rendered, where there is one.
    RenderedChroma { field: DecodedField<D>, chroma: Option<Vec<u16>> },
    /// The field was measured.
    Described { description: Description },
    /// The work could not be done.
    Failed { inter_field_state: InterFieldState },
}

/// Where the input of the next call has to begin.
#[derive(Clone, Copy, Debug, PartialEq, Eq, Structural)]
pub enum Needed {
    /// More input is needed, from this absolute sample on.
    From(u64),
    /// The input is used up to this sample.
    Done(u64),
}

/// What the decoder asks of its surroundings.
#[derive(Debug)]
pub enum Action<D> {
    /// Add `offset`, where there is one, to `fdoffset`.
    Locate { fdoffset: Double, offset: Option<Double> },
    /// Decode the blocks from `plan.requested_begin` up to `available`; if
    /// `complete`, look for a field in them.
    Predecode {
        plan: BlockPlan,
        available: usize,
        complete: bool,
        prevfield: Option<PrevFieldState>,
        inter_field_state: InterFieldState,
    },
    /// Render the luma picture of the field.
    RenderLuma { field: DecodedField<D> },
    /// Render the chroma picture of the field.
    RenderChroma { field: DecodedField<D> },
    /// Measure the field, and look for its dropouts where that is asked for.
    Describe { field: DecodedField<D>, detect_dropouts: bool },
    /// The call is over.
    Return { needed: Needed, fields: Vec<WriteableField> },
    /// The call is over without a result.
    Abort,
}

/// An action with the fields it returns as a sequence.
pub enum Effect<D> {
    Locate { fdoffset: Double, offset: Option<Double> },
    Predecode {
        plan: BlockPlan,
        available: usize,
        complete: bool,
        prevfield: Option<PrevFieldState>,
        inter_field_state: InterFieldState,
    },
    RenderLuma { field: DecodedField<D> },
    RenderChroma { field: DecodedField<D> },
    Describe { field: DecodedField<D>, detect_dropouts: bool },
    Return { needed: Needed, fields: Seq<Written> },
    Abort,
}

/// The fields of a vector as they are written.
pub open spec fn written(fields: Seq<WriteableField>) -> Seq<Written> {
    fields.map_values(|field: WriteableField| field@)
}

/// The entries of a vector.
pub open spec fn entries(fields: Seq<FieldInfoEntry>) -> Seq<FieldInfo> {
    fields.map_values(|info: FieldInfoEntry| info@)
}

/// The entries of written fields.
pub open spec fn infos(fields: Seq<Written>) -> Seq<FieldInfo> {
    fields.map_values(|field: Written| field.info)
}

impl<D> View for Action<D> {
    type V = Effect<D>;

    open spec fn view(&self) -> Effect<D> {
        match *self {
            Action::Locate { fdoffset, offset } => Effect::Locate { fdoffset, offset },
            Action::Predecode { plan, available, complete, prevfield, inter_field_state } =>
                Effect::Predecode { plan, available, complete, prevfield, inter_field_state },
            Action::RenderLuma { field } => Effect::RenderLuma { field },
            Action::RenderChroma { field } => Effect::RenderChroma { field },
            Action::Describe { field, detect_dropouts } => Effect::Describe {
                field,
                detect_dropouts,
            },
            Action::Return { needed, fields } => Effect::Return { needed, fields: written(fields@) },
            Action::Abort => Effect::Abort,
        }
    }
}

/// What the decoder waits for.
#[derive(Debug)]
pub enum Phase<D> {
    Idle,
    Locating,
    Predecoding {
        field: Option<DecodedField<D>>,
        /// Whether there was an offset to add to the position.
        scheduled: bool,
        toffset: Double,
        complete: bool,
    },
    RenderingLuma,
    RenderingChroma { luma: LumaOutput },
    Describing {
        luma: LumaOutput,
        chroma: Option<Vec<u16>>,
        /// Whether the field was detected as a first field.
        first: bool,
        /// The phase ID that was read off the signal.
        field_phase_id: Option<i64>,
        /// The sample that the field was read from.
        file_loc: i64,
    },
}

/// The sample that a field was read from, as it is entered: what a double holds of
/// its position.
pub open spec fn file_position(readloc: i64) -> i64 {
    saturated(in_double(readloc as int)) as i64
}

/// The state of a decoder, with its lists as sequences.
#[verifier::ext_equal]
pub struct Progress<D> {
    pub spec: DecoderSpec,
    pub fdoffset: Double,
    pub inter_field_state: InterFieldState,
    /// The entries of all fields that were returned, in order.
    pub fields: Seq<FieldInfo>,
    pub seen_first_field: bool,
    pub metadata_field: Option<MetadataFieldState>,
    /// The last field written whose detected order was first, and second.
    pub last_first: Option<Written>,
    pub last_second: Option<Written>,
    pub pending_result: Option<DecodeFieldResult<D>>,
    pub has_pending: bool,
    pub duplicate_prev_field: bool,
    pub phase: Phase<D>,
    pub window: Window,
    /// The fields that the present call has found.
    pub output: Seq<Written>,
}

pub open spec fn no_window() -> Window {
    Window { data_start: 0, len: 0, final_chunk: false }
}

/// How many blocks from `plan.requested_begin` on lie in the window, counted
/// as the number of the first block that does not.
pub open spec fn available_blocks(plan: BlockPlan, usable: int, window: Window) -> int {
    if window.end() < plan.startloc + BLOCKSIZE {
        plan.requested_begin as int
    } else {
        let behind = (window.end() - BLOCKSIZE) / usable + 1;
        if behind < plan.requested_end {
            behind
        } else {
            plan.requested_end as int
        }
    }
}

impl<D> Progress<D> {
    /// The state of a new decoder.
    pub open spec fn fresh(spec: DecoderSpec, fdoffset: Double) -> Self {
        Progress {
            spec,
            fdoffset,
            inter_field_state: InterFieldState::fresh(spec.track_phase),
            fields: Seq::empty(),
            seen_first_field: false,
            metadata_field: None,
            last_first: None,
            last_second: None,
            pending_result: None,
            has_pending: false,
            duplicate_prev_field: true,
            phase: Phase::Idle,
            window: no_window(),
            output: Seq::empty(),
        }
    }

    /// The offset to the position of the next look at the input: zero at the
    /// very start, none where the last look found no field.
    pub open spec fn next_offset(self) -> Option<Double> {
        if !self.has_pending {
            Some(Double { bits: 0 })
        } else {
            match self.pending_result {
                Some(result) => Some(result.offset),
                None => None,
            }
        }
    }

    /// The field that was found but not yet written.
    pub open spec fn pending_field(self) -> Option<DecodedField<D>> {
        if !self.has_pending {
            None
        } else {
            match self.pending_result {
                Some(result) => Some(result.field),
                None => None,
            }
        }
    }

    pub open spec fn plan(self, readloc: i64) -> BlockPlan {
        plan_for(readloc, self.spec.readlen, self.spec.usable_blocksize)
    }

    /// Whether the call has to wait for more input before a field at `readloc`.
    pub open spec fn starved(self, readloc: i64) -> bool {
        self.plan(readloc).needed_end > self.window.end() && !self.window.final_chunk
    }

    /// The next look at the input begins.
    pub open spec fn look(self) -> (Self, Effect<D>) {
        (
            Progress { phase: Phase::Locating, ..self },
            Effect::Locate { fdoffset: self.fdoffset, offset: self.next_offset() },
        )
    }

    /// The call ends.
    pub open spec fn finish(self, needed: Needed) -> (Self, Effect<D>) {
        (
            Progress {
                phase: Phase::Idle,
                window: no_window(),
                output: Seq::empty(),
                ..self
            },
            Effect::Return { needed, fields: self.output },
        )
    }

    pub open spec fn abort(self, inter_field_state: InterFieldState) -> (Self, Effect<D>) {
        (
            Progress {
                phase: Phase::Idle,
                window: no_window(),
                output: Seq::empty(),
                inter_field_state,
                ..self
            },
            Effect::Abort,
        )
    }

    pub open spec fn start(self, window: Window) -> (Self, Effect<D>) {
        Progress { window, output: Seq::empty(), ..self }.look()
    }

    pub open spec fn located(self, toffset: Double, readloc: i64) -> (Self, Effect<D>) {
        let plan = self.plan(readloc);
        let complete = plan.needed_end <= self.window.end();
        if self.starved(readloc) {
            self.finish(Needed::From(plan.startloc as u64))
        } else {
            let field = self.pending_field();
            (
                Progress {
                    pending_result: None,
                    phase: Phase::Predecoding {
                        field,
                        scheduled: self.next_offset() is Some,
                        toffset,
                        complete,
                    },
                    ..self
                },
                Effect::Predecode {
                    plan,
                    available: available_blocks(
                        plan,
                        self.spec.usable_blocksize as int,
                        self.window,
                    ) as usize,
                    complete,
                    prevfield: match field {
                        Some(field) => field.told_next(),
                        None => None,
                    },
                    inter_field_state: self.inter_field_state,
                },
            )
        }
    }

    pub open spec fn predecoded(
        self,
        result: Option<DecodeFieldResult<D>>,
        inter_field_state: InterFieldState,
    ) -> (Self, Effect<D>) {
        let next = Progress {
            pending_result: result,
            inter_field_state,
            has_pending: true,
            ..self
        };
        match self.phase {
            Phase::Predecoding { field: Some(field), toffset, .. } => {
                let next = Progress { fdoffset: toffset, ..next };
                if field.valid {
                    (
                        Progress { phase: Phase::RenderingLuma, ..next },
                        // What was found of the wow before the line locations
                        // were refined no longer holds.
                        Effect::RenderLuma { field: DecodedField { wow_analysis: None, ..field } },
                    )
                } else {
                    next.look()
                }
            },
            Phase::Predecoding { field: None, scheduled: false, .. } => next.finish(
                Needed::Done(next.fdoffset.as_u64()),
            ),
            _ => next.look(),
        }
    }

    pub open spec fn rendered_luma(self, field: DecodedField<D>, luma: LumaOutput) -> (
        Self,
        Effect<D>,
    ) {
        (
            Progress {
                metadata_field: Some(
                    MetadataFieldState {
                        out_scale: field.out_scale->0,
                        outlinecount: field.outlinecount,
                    },
                ),
                phase: Phase::RenderingChroma { luma },
                ..self
            },
            Effect::RenderChroma { field },
        )
    }

    pub open spec fn rendered_chroma(
        self,
        field: DecodedField<D>,
        chroma: Option<Vec<u16>>,
    ) -> (Self, Effect<D>) {
        if self.fields.len() > 0 || field.first() {
            (
                Progress {
                    phase: Phase::Describing {
                        luma: self.phase->RenderingChroma_luma,
                        chroma,
                        first: field.first(),
                        field_phase_id: field.field_phase_id,
                        file_loc: file_position(field.readloc),
                    },
                    ..self
                },
                Effect::Describe {
                    field: DecodedField { prevfield: None, ..field },
                    detect_dropouts: self.spec.do_dod,
                },
            )
        } else {
            // A recording begins with a first field.
            self.look()
        }
    }

    /// How far the field in hand lies behind the last entry, in fields; of no matter
    /// where there is none.
    pub open spec fn distance(self) -> Double {
        if self.fields.len() > 0 {
            disk_distance(
                self.phase->file_loc,
                self.fields.last().file_loc,
                self.spec.bytes_per_field,
            )
        } else {
            Double { bits: 0 }
        }
    }

    /// How the described field is entered.
    pub open spec fn ruling(self, description: Description) -> Verdict {
        verdict(
            labels_back(self.fields, 0),
            labels_back(self.fields, 1),
            self.phase->first,
            description.sync_conf,
            self.distance(),
            self.spec.field_order_action,
            self.duplicate_prev_field,
        )
    }

    /// The entry of the described field.
    pub open spec fn entry(self, description: Description) -> FieldInfo {
        let ruling = self.ruling(description);
        FieldInfo {
            is_first_field: ruling.is_first_field,
            detected_first_field: self.phase->first,
            is_duplicate_field: ruling.is_duplicate_field,
            sync_conf: ruling.sync_conf,
            seq_no: (self.fields.len() + 1) as usize,
            disk_loc: disk_location(self.phase->file_loc, self.spec.bytes_per_field),
            file_loc: self.phase->file_loc,
            field_phase_id: match self.phase->field_phase_id {
                Some(id) => id,
                None => phase_id_by_number(
                    self.phase->first,
                    (self.fields.len() + 1) as int,
                ),
            },
            vits_metrics: description.vits_metrics,
            drop_outs: if self.spec.do_dod && description.drop_outs.field_line@.len() > 0 {
                Some(description.drop_outs@)
            } else {
                None
            },
            decode_faults: ruling.decode_faults,
        }
    }

    /// The described field as it is written.
    pub open spec fn dataset(self, description: Description) -> Written {
        Written {
            info: self.entry(description),
            picture: WriteablePicture {
                luma: self.phase->Describing_luma,
                chroma: self.phase->Describing_chroma,
            },
            field_phase_id_raw: self.phase->field_phase_id,
        }
    }

    /// The last field written of the order opposite to the described one.
    pub open spec fn opposite(self) -> Option<Written> {
        if self.phase->first {
            self.last_second
        } else {
            self.last_first
        }
    }

    /// The fields that the described one adds to the output: itself, behind the
    /// last one of the other order where it is marked as a duplicate; none
    /// where it is left out, or where no field of the other order is there to
    /// be repeated.
    pub open spec fn addition(self, description: Description) -> Seq<Written> {
        let ruling = self.ruling(description);
        let dataset = self.dataset(description);
        if !ruling.write_field {
            Seq::empty()
        } else if !ruling.is_duplicate_field {
            seq![dataset]
        } else {
            match self.opposite() {
                Some(other) => seq![other, dataset],
                None => Seq::empty(),
            }
        }
    }

    pub open spec fn described(self, description: Description) -> (Self, Effect<D>) {
        let ruling = self.ruling(description);
        let first = self.phase->first;
        let addition = self.addition(description);
        let plain = self.fields.len() == 0 || self.fields.last().is_first_field != first;
        Progress {
            fields: self.fields + infos(addition),
            output: self.output + addition,
            seen_first_field: self.seen_first_field || (plain && first),
            duplicate_prev_field: ruling.duplicate_prev_field,
            last_first: if ruling.write_field && first {
                Some(self.dataset(description))
            } else {
                self.last_first
            },
            last_second: if ruling.write_field && !first {
                Some(self.dataset(description))
            } else {
                self.last_second
            },
            ..self
        }.look()
    }

    /// Whether the tracks of a recording with two tracks can be told apart.
    pub open spec fn track_known(self, field: DecodedField<D>) -> bool {
        (!self.spec.export_raw_tbc && self.inter_field_state.track_phase is Some) ==> {
            &&& 0 <= self.inter_field_state.track_phase->0 <= 1
            &&& field.field_number >= 0 || field.field_number % 2 == 0
        }
    }

    /// How the luma picture of `field` is made.
    pub open spec fn luma_of(self, field: DecodedField<D>, luma_len: usize) -> LumaPlan {
        let raw = self.spec.export_raw_tbc;
        LumaPlan {
            comb: self.spec.combs(),
            raw,
            adjust_ire0: !raw && self.spec.ire0_adjust && luma_len == field.outlinecount
                * field.outlinelen,
            track: match self.inter_field_state.track_phase {
                Some(track_phase) => if raw {
                    None
                } else {
                    // The tracks alternate from field to field.
                    Some(((track_phase + field.field_number) % 2) as usize)
                },
                None => None,
            },
        }
    }

    /// What the decoder does on an event.
    pub open spec fn step(self, event: Event<D>) -> (Self, Effect<D>) {
        match event {
            Event::Start { window } => self.start(window),
            Event::Located { toffset, from } => self.located(toffset, from.as_i64()),
            Event::Predecoded { result, inter_field_state } => self.predecoded(
                result,
                inter_field_state,
            ),
            Event::RenderedLuma { field, luma } => self.rendered_luma(field, luma),
            Event::RenderedChroma { field, chroma } => self.rendered_chroma(field, chroma),
            Event::Described { description } => self.described(description),
            Event::Failed { inter_field_state } => self.abort(inter_field_state),
        }
    }

    /// Whether `event` answers the last action.
    pub open spec fn accepts(self, event: Event<D>) -> bool {
        match event {
            Event::Start { window } => self.phase is Idle && window.end() <= usize::MAX,
            Event::Located { from, .. } => {
                let readloc = from.as_i64();
                &&& self.phase is Locating
                &&& self.window.end() <= usize::MAX
                &&& plan_fits(readloc, self.spec.readlen, self.spec.usable_blocksize)
                // The window does not begin behind the first block of the field.
                &&& self.starved(readloc) || self.window.data_start <= self.plan(readloc).startloc
            },
            Event::Predecoded { result, .. } => self.phase matches Phase::Predecoding {
                complete,
                ..
            } && (result is Some) == complete,
            Event::RenderedLuma { field, luma } => self.phase is RenderingLuma && field.out_scale
                is Some && (luma is Raw) == self.spec.export_raw_tbc,
            Event::RenderedChroma { .. } => self.phase is RenderingChroma,
            Event::Described { .. } => self.phase is Describing && self.fields.len() < usize::MAX,
            Event::Failed { .. } => !(self.phase is Idle),
        }
    }
}

/// Minimal state needed to go on with a decode: the settings, the position in
/// the input, the field found ahead, and the memory of the field order.
#[derive(Debug)]
pub struct Decoder<D> {
    spec: DecoderSpec,
    fdoffset: Double,
    inter_field_state: InterFieldState,
    fields: Vec<FieldInfoEntry>,
    seen_first_field: bool,
    metadata_field: Option<MetadataFieldState>,
    last_first: Option<WriteableField>,
    last_second: Option<WriteableField>,
    pending_result: Option<DecodeFieldResult<D>>,
    has_pending: bool,
    duplicate_prev_field: bool,
    phase: Phase<D>,
    window: Window,
    output: Vec<WriteableField>,
}

spec fn last_written(field: Option<WriteableField>) -> Option<Written> {
    match field {
        Some(field) => Some(field@),
        None => None,
    }
}

impl<D> View for Decoder<D> {
    type V = Progress<D>;

    closed spec fn view(&self) -> Progress<D> {
        Progress {
            spec: self.spec,
            fdoffset: self.fdoffset,
            inter_field_state: self.inter_field_state,
            fields: entries(self.fields@),
            seen_first_field: self.seen_first_field,
            metadata_field: self.metadata_field,
            last_first: last_written(self.last_first),
            last_second: last_written(self.last_second),
            pending_result: self.pending_result,
            has_pending: self.has_pending,
            duplicate_prev_field: self.duplicate_prev_field,
            phase: self.phase,
            window: self.window,
            output: written(self.output@),
        }
    }
}

impl<D> Decoder<D> {
    /// A decoder that starts at the sample offset `fdoffset`.
    pub fn new(spec: DecoderSpec, fdoffset: Double) -> (decoder: Self)
        ensures
            decoder@ == Progress::<D>::fresh(spec, fdoffset),
    {
        let decoder = Decoder {
            spec,
            fdoffset,
            inter_field_state: InterFieldState::new(spec.track_phase),
            fields: Vec::new(),
            seen_first_field: false,
            metadata_field: None,
            last_first: None,
            last_second: None,
            pending_result: None,
            has_pending: false,
            duplicate_prev_field: true,
            phase: Phase::Idle,
            window: Window { data_start: 0, len: 0, final_chunk: false },
            output: Vec::new(),
        };
        assert(decoder@ =~= Progress::<D>::fresh(spec, fdoffset));
        decoder
    }

    /// Tells whether `event` answers the last action, so that the decode can go
    /// on with it.
    pub fn accepts(&self, event: &Event<D>) -> (answer: bool)
        ensures
            answer == self@.accepts(*event),
    {
        match event {
            Event::Start { window } => {
                matches!(self.phase, Phase::Idle) && window.data_start <= usize::MAX as u64
                    && window.len <= usize::MAX - window.data_start as usize
            },
            Event::Located { from, .. } => {
                let readloc: i64 = from.to_i64();
                let usable: usize = self.spec.usable_blocksize;
                if !matches!(self.phase, Phase::Locating) || self.window.data_start
                    > usize::MAX as u64 || self.window.len > usize::MAX
                    - self.window.data_start as usize || !can_plan(
                    readloc,
                    self.spec.readlen,
                    usable,
                ) {
                    return false;
                }
                let plan: BlockPlan = plan_blocks(readloc, self.spec.readlen, usable);
                let end: usize = self.window.data_start as usize + self.window.len;
                (plan.needed_end > end && !self.window.final_chunk)
                    || self.window.data_start as usize <= plan.startloc
            },
            Event::Predecoded { result, .. } => match &self.phase {
                Phase::Predecoding { complete, .. } => result.is_some() == *complete,
                _ => false,
            },
            Event::RenderedLuma { field, luma } => {
                matches!(self.phase, Phase::RenderingLuma) && field.out_scale.is_some()
                    && matches!(luma, LumaOutput::Raw(_)) == self.spec.export_raw_tbc
            },
            Event::RenderedChroma { .. } => matches!(self.phase, Phase::RenderingChroma { .. }),
            Event::Described { .. } => {
                matches!(self.phase, Phase::Describing { .. }) && self.fields.len() < usize::MAX
            },
            Event::Failed { .. } => !matches!(self.phase, Phase::Idle),
        }
    }

    /// Goes on with the decode: takes what came of the last action, and says
    /// what to do next. Between calls the decoder keeps all it needs: a call
    /// that has to wait for more input leaves it as it was before the look at
    /// the input that it waits for.
    pub fn decode(&mut self, event: Event<D>) -> (action: Action<D>)
        requires
            old(self)@.accepts(event),
        ensures
            (final(self)@, action@) == old(self)@.step(event),
    {
        match event {
            Event::Start { window } => self.on_start(window),
            Event::Located { toffset, from } => self.on_located(toffset, from),
            Event::Predecoded { result, inter_field_state } => self.on_predecoded(
                result,
                inter_field_state,
            ),
            Event::RenderedLuma { field, luma } => self.on_rendered_luma(field, luma),
            Event::RenderedChroma { field, chroma } => self.on_rendered_chroma(field, chroma),
            Event::Described { description } => self.on_described(description),
            Event::Failed { inter_field_state } => self.on_failed(inter_field_state),
        }
    }

    fn look(&mut self) -> (action: Action<D>)
        ensures
            (final(self)@, action@) == old(self)@.look(),
    {
        let offset: Option<Double> = if !self.has_pending {
            Some(Double { bits: 0 })
        } else {
            match &self.pending_result {
                Some(result) => Some(result.offset),
                None => None,
            }
        };
        self.phase = Phase::Locating;
        Action::Locate { fdoffset: self.fdoffset, offset }
    }

    fn finish(&mut self, needed: Needed) -> (action: Action<D>)
        ensures
            (final(self)@, action@) == old(self)@.finish(needed),
    {
        let mut fields: Vec<WriteableField> = Vec::new();
        core::mem::swap(&mut fields, &mut self.output);
        self.phase = Phase::Idle;
        self.window = Window { data_start: 0, len: 0, final_chunk: false };
        assert(self@ =~= old(self)@.finish(needed).0);
        Action::Return { needed, fields }
    }

    fn on_failed(&mut self, inter_field_state: InterFieldState) -> (action: Action<D>)
        ensures
            (final(self)@, action@) == old(self)@.abort(inter_field_state),
    {
        self.output = Vec::new();
        self.phase = Phase::Idle;
        self.window = Window { data_start: 0, len: 0, final_chunk: false };
        self.inter_field_state = inter_field_state;
        assert(self@ =~= old(self)@.abort(inter_field_state).0);
        Action::Abort
    }

    fn on_start(&mut self, window: Window) -> (action: Action<D>)
        ensures
            (final(self)@, action@) == old(self)@.start(window),
    {
        self.window = window;
        self.output = Vec::new();
        assert(self@ =~= (Progress { window, output: Seq::empty(), ..old(self)@ }));
        self.look()
    }

    fn on_located(&mut self, toffset: Double, from: Double) -> (action: Action<D>)
        requires
            old(self)@.accepts(Event::Located { toffset, from }),
        ensures
            (final(self)@, action@) == old(self)@.located(toffset, from.as_i64()),
    {
        let readloc: i64 = from.to_i64();
        let usable: usize = self.spec.usable_blocksize;
        let plan: BlockPlan = plan_blocks(readloc, self.spec.readlen, usable);
        let end: usize = self.window.data_start as usize + self.window.len;
        let complete: bool = plan.needed_end <= end;
        if !complete && !self.window.final_chunk {
            return self.finish(Needed::From(plan.startloc as u64));
        }
        let available: usize = if end < BLOCKSIZE || end - BLOCKSIZE < plan.startloc {
            plan.requested_begin
        } else {
            let behind: usize = (end - BLOCKSIZE) / usable;
            if behind < plan.requested_end {
                let behind: usize = behind + 1;
                behind
            } else {
                plan.requested_end
            }
        };
        let had_pending: bool = self.has_pending;
        let (field, scheduled): (Option<DecodedField<D>>, bool) = match self.pending_result.take() {
            Some(result) => if had_pending {
                (Some(result.field), true)
            } else {
                (None, true)
            },
            None => (None, !had_pending),
        };
        let prevfield: Option<PrevFieldState> = match &field {
            Some(field) => field.summary(),
            None => None,
        };
        self.phase = Phase::Predecoding { field, scheduled, toffset, complete };
        Action::Predecode {
            plan,
            available,
            complete,
            prevfield,
            inter_field_state: self.inter_field_state,
        }
    }

    fn on_predecoded(
        &mut self,
        result: Option<DecodeFieldResult<D>>,
        inter_field_state: InterFieldState,
    ) -> (action: Action<D>)
        requires
            old(self)@.phase is Predecoding,
        ensures
            (final(self)@, action@) == old(self)@.predecoded(result, inter_field_state),
    {
        let mut phase: Phase<D> = Phase::Locating;
        core::mem::swap(&mut phase, &mut self.phase);
        self.pending_result = result;
        self.inter_field_state = inter_field_state;
        self.has_pending = true;
        match phase {
            Phase::Predecoding { field: Some(field), toffset, .. } => {
                self.fdoffset = toffset;
                if field.valid {
                    let mut field = field;
                    field.wow_analysis = None;
                    self.phase = Phase::RenderingLuma;
                    return Action::RenderLuma { field };
                }
            },
            Phase::Predecoding { field: None, scheduled: false, .. } => {
                return self.finish(Needed::Done(self.fdoffset.to_u64()));
            },
            _ => {},
        }
        self.look()
    }

    fn on_rendered_luma(&mut self, field: DecodedField<D>, luma: LumaOutput) -> (action: Action<D>)
        requires
            field.out_scale is Some,
        ensures
            (final(self)@, action@) == old(self)@.rendered_luma(field, luma),
    {
        if let Some(out_scale) = field.out_scale {
            self.metadata_field =
            Some(MetadataFieldState { out_scale, outlinecount: field.outlinecount });
        }
        self.phase = Phase::RenderingChroma { luma };
        Action::RenderChroma { field }
    }

    fn on_rendered_chroma(
        &mut self,
        field: DecodedField<D>,
        chroma: Option<Vec<u16>>,
    ) -> (action: Action<D>)
        requires
            old(self)@.phase is RenderingChroma,
        ensures
            (final(self)@, action@) == old(self)@.rendered_chroma(field, chroma),
    {
        let count: usize = self.fields.len();
        if count == 0 && !field.detected_first() {
            return self.look();
        }
        let file_loc: i64 = through_double(field.readloc);
        let mut phase: Phase<D> = Phase::Locating;
        core::mem::swap(&mut phase, &mut self.phase);
        if let Phase::RenderingChroma { luma } = phase {
            self.phase = Phase::Describing {
                luma,
                chroma,
                first: field.detected_first(),
                field_phase_id: field.field_phase_id,
                file_loc,
            };
        }
        let mut field = field;
        field.prevfield = None;
        Action::Describe { field, detect_dropouts: self.spec.do_dod }
    }

    fn labels(&self, back: usize) -> (labels: Option<Labels>)
        ensures
            labels == labels_back(self@.fields, back as int),
    {
        if self.fields.len() > back {
            let info: &FieldInfoEntry = &self.fields[self.fields.len() - 1 - back];
            Some(
                Labels {
                    is_first_field: info.is_first_field,
                    detected_first_field: info.detected_first_field,
                },
            )
        } else {
            None
        }
    }

    /// How the field in hand will be entered, where this is what was measured of it.
    pub fn ruling_on(&self, description: &Description) -> (ruling: Verdict)
        requires
            self@.phase is Describing,
        ensures
            ruling == self@.ruling(*description),
    {
        let (detected, file_loc): (bool, i64) = match &self.phase {
            Phase::Describing { first, file_loc, .. } => (*first, *file_loc),
            _ => (false, 0),
        };
        let count: usize = self.fields.len();
        let distance: Double = if count > 0 {
            distance_on_disk(file_loc, self.fields[count - 1].file_loc, self.spec.bytes_per_field)
        } else {
            Double { bits: 0 }
        };
        judge(
            self.labels(0),
            self.labels(1),
            detected,
            description.sync_conf,
            distance,
            self.spec.field_order_action,
            self.duplicate_prev_field,
        )
    }

    /// What a container of the decoded fields says of all of them; nothing
    /// before the first valid field. `scaled` and `add_half` are those of
    /// [`hz_to_output_scalar`]; `dim` and `brighten` adjust the levels of black and of
    /// white.
    pub fn metadata<
        S: Fn(Double, Double) -> Double,
        H: Fn(Double) -> Double,
        B: Fn(OutputLevel) -> Double,
        W: Fn(OutputLevel) -> Double,
    >(
        &self,
        measures: SignalMeasures,
        scaled: S,
        add_half: H,
        dim: B,
        brighten: W,
    ) -> (metadata: Option<DecoderMetadata>)
        requires
            forall|hz: Double, out_scale: Double| scaled.requires((hz, out_scale)),
            forall|value: Double| add_half.requires((value,)),
            forall|level: OutputLevel| dim.requires((level,)),
            forall|level: OutputLevel| brighten.requires((level,)),
        ensures
            match self@.metadata_field {
                Some(field) => metadata matches Some(found) && is_metadata(
                    self@.spec,
                    field,
                    measures,
                    scaled,
                    add_half,
                    dim,
                    brighten,
                    found,
                ),
                None => metadata is None,
            },
    {
        match self.metadata_field {
            Some(field) => {
                let raw: bool = self.spec.export_raw_tbc;
                let black: OutputLevel = hz_to_output_scalar(
                    raw,
                    measures.black_hz,
                    field.out_scale,
                    &scaled,
                    &add_half,
                );
                let white: OutputLevel = hz_to_output_scalar(
                    raw,
                    measures.white_hz,
                    field.out_scale,
                    &scaled,
                    &add_half,
                );
                let black_16b_ire: Double = dim(black);
                let white_16b_ire: Double = brighten(white);
                assert(is_adjusted_level(
                    raw,
                    measures.black_hz,
                    field.out_scale,
                    scaled,
                    add_half,
                    dim,
                    black_16b_ire,
                )) by {
                    assert(dim.ensures((black,), black_16b_ire));
                }
                assert(is_adjusted_level(
                    raw,
                    measures.white_hz,
                    field.out_scale,
                    scaled,
                    add_half,
                    brighten,
                    white_16b_ire,
                )) by {
                    assert(brighten.ensures((white,), white_16b_ire));
                }
                let system: &'static str = match (self.spec.frame_lines, self.spec.color_system) {
                    (LineSystem::Line525, ColorSystem::Pal) => "PAL-M",
                    (LineSystem::Line525, _) => "NTSC",
                    _ => "PAL",
                };
                Some(
                    DecoderMetadata {
                        system,
                        field_width: self.spec.outlinelen,
                        sample_rate: measures.sample_rate,
                        black_16b_ire,
                        white_16b_ire,
                        field_height: field.outlinecount,
                        colour_burst_start: measures.colour_burst_start.round_to_i64(),
                        colour_burst_end: measures.colour_burst_end.round_to_i64(),
                        active_video_start: measures.active_video_start.round_to_i64(),
                        active_video_end: measures.active_video_end.round_to_i64(),
                    },
                )
            },
            None => None,
        }
    }

    /// The luma picture of the field in hand, once it is rendered.
    pub fn picture_luma(&self) -> (luma: Option<&LumaOutput>)
        ensures
            match self@.phase {
                Phase::RenderingChroma { luma: picture } => luma == Some(&picture),
                Phase::Describing { luma: picture, .. } => luma == Some(&picture),
                _ => luma is None,
            },
    {
        match &self.phase {
            Phase::RenderingChroma { luma } => Some(luma),
            Phase::Describing { luma, .. } => Some(luma),
            _ => None,
        }
    }

    /// Tells whether the track of `field` is known, as far as it is needed.
    pub fn tells_track(&self, field: &DecodedField<D>) -> (answer: bool)
        ensures
            answer == self@.track_known(*field),
    {
        match self.inter_field_state.track_phase {
            Some(track_phase) => {
                self.spec.export_raw_tbc || (0 <= track_phase && track_phase <= 1 && (
                field.field_number >= 0 || field.field_number % 2 == 0))
            },
            None => true,
        }
    }

    /// Tells whether the limit of the line comb is one, where there is a comb.
    pub fn comb_is_sound(&self) -> (answer: bool)
        ensures
            answer == (self@.spec.combs() ==> self@.spec.y_comb.opposite().at_most(
                self@.spec.y_comb,
            )),
    {
        let limit: Single = self.spec.y_comb;
        limit.bits == 0 || limit.bits == SINGLE_SIGN || limit.negate().le(limit)
    }

    /// How the luma picture of `field`, of `luma_len` samples, is made.
    pub fn luma_plan(&self, field: &DecodedField<D>, luma_len: usize) -> (plan: LumaPlan)
        requires
            self@.track_known(*field),
        ensures
            plan == self@.luma_of(*field, luma_len),
    {
        let raw: bool = self.spec.export_raw_tbc;
        let whole: bool = match field.outlinecount.checked_mul(field.outlinelen) {
            Some(samples) => samples == luma_len,
            None => false,
        };
        let track: Option<usize> = match self.inter_field_state.track_phase {
            Some(track_phase) => if raw {
                None
            } else if field.field_number % 2 == 0 {
                Some(track_phase as usize)
            } else {
                Some((1 - track_phase) as usize)
            },
            None => None,
        };
        LumaPlan {
            comb: self.spec.y_comb.bits != 0 && self.spec.y_comb.bits != SINGLE_SIGN,
            raw,
            adjust_ire0: !raw && self.spec.ire0_adjust && whole,
            track,
        }
    }

    /// Makes the luma picture of `field` out of its scaled signal. `stand_out` and
    /// `reduce` are those of the line comb; `ire0` is the blanking level, `measure`
    /// finds it in a signal, and `shift` adds the offset of a track to it; `encode`
    /// brings a sample to the scale of the output, with what `prepare` makes of the
    /// blanking level and the output scale.
    pub fn render_luma<
        C: Copy,
        O: Fn(Single, Single, Single) -> Single,
        R: Fn(Single, Single) -> Single,
        M: Fn(&Vec<Single>) -> Double,
        S: Fn(Double, usize) -> Double,
        P: Fn(Double, Double) -> C,
        E: Fn(C, Single) -> Single,
    >(
        &self,
        field: &DecodedField<D>,
        luma: Vec<Single>,
        ire0: Double,
        stand_out: O,
        reduce: R,
        measure: M,
        shift: S,
        prepare: P,
        encode: E,
    ) -> (output: LumaOutput)
        requires
            self@.track_known(*field),
            field.out_scale is Some,
            self@.spec.combs() && luma@.len() > 0 ==> self@.spec.y_comb.opposite().at_most(
                self@.spec.y_comb,
            ),
            forall|current: Single, ahead: Single, behind: Single|
                stand_out.requires((current, ahead, behind)),
            forall|current: Single, sum: Single| reduce.requires((current, sum)),
            forall|samples: &Vec<Single>|
                samples@.len() == field.outlinecount * field.outlinelen ==> measure.requires(
                    (samples,),
                ),
            forall|level: Double, track: usize| track <= 1 ==> shift.requires((level, track)),
            forall|level: Double| prepare.requires((level, field.out_scale->0)),
            forall|prepared: C, sample: Single| encode.requires((prepared, sample)),
        ensures
            exists|combed: Vec<Single>, level: Double, shifted: Double| #[trigger]
                is_rendered(
                    self@.luma_of(*field, luma@.len() as usize),
                    self@.spec.y_comb,
                    field.outlinelen as int,
                    luma@,
                    ire0,
                    field.out_scale->0,
                    stand_out,
                    reduce,
                    measure,
                    shift,
                    prepare,
                    encode,
                    combed,
                    level,
                    shifted,
                    output,
                ),
            match output {
                LumaOutput::Raw(samples) => self@.spec.export_raw_tbc && samples@.len()
                    == luma@.len(),
                LumaOutput::Encoded(samples) => !self@.spec.export_raw_tbc && samples@.len()
                    == luma@.len(),
            },
    {
        let plan: LumaPlan = self.luma_plan(field, luma.len());
        let ghost signal = luma@;
        let combed: Vec<Single> = if plan.comb {
            y_comb(luma.as_slice(), field.outlinelen, self.spec.y_comb, stand_out, reduce)
        } else {
            luma
        };
        let mut level: Double = ire0;
        let mut shifted: Double = ire0;
        let output: LumaOutput = if plan.raw {
            LumaOutput::Raw(combed)
        } else {
            if plan.adjust_ire0 {
                level = measure(&combed);
            }
            shifted =
            match plan.track {
                Some(track) => shift(level, track),
                None => level,
            };
            let samples: Vec<u16> = match field.out_scale {
                Some(scale) => {
                    let prepared: C = prepare(shifted, scale);
                    let samples: Vec<u16> = hz_to_output_array(
                        combed.as_slice(),
                        prepared,
                        &encode,
                    );
                    assert(prepare.ensures((shifted, scale), prepared));
                    samples
                },
                None => Vec::new(),
            };
            LumaOutput::Encoded(samples)
        };
        assert(is_rendered(
            plan,
            self@.spec.y_comb,
            field.outlinelen as int,
            signal,
            ire0,
            field.out_scale->0,
            stand_out,
            reduce,
            measure,
            shift,
            prepare,
            encode,
            combed,
            level,
            shifted,
            output,
        ));
        output
    }

    /// Adds one field to the output and to the entries.
    fn write(&mut self, field: WriteableField)
        ensures
            final(self)@ == (Progress {
                fields: old(self)@.fields.push(field@.info),
                output: old(self)@.output.push(field@),
                ..old(self)@
            }),
    {
        self.fields.push(field.info.clone());
        self.output.push(field);
        assert(self@ =~= (Progress {
            fields: old(self)@.fields.push(field@.info),
            output: old(self)@.output.push(field@),
            ..old(self)@
        }));
    }

    /// Enters a field: behind the last one of the other order if it is a
    /// duplicate, where there is one.
    fn enter(&mut self, dataset: WriteableField, first: bool, duplicate: bool)
        ensures
            ({
                let opposite = if first {
                    old(self)@.last_second
                } else {
                    old(self)@.last_first
                };
                let addition = if !duplicate {
                    seq![dataset@]
                } else {
                    match opposite {
                        Some(other) => seq![other, dataset@],
                        None => Seq::empty(),
                    }
                };
                final(self)@ == (Progress {
                    fields: old(self)@.fields + infos(addition),
                    output: old(self)@.output + addition,
                    last_first: if first {
                        Some(dataset@)
                    } else {
                        old(self)@.last_first
                    },
                    last_second: if first {
                        old(self)@.last_second
                    } else {
                        Some(dataset@)
                    },
                    ..old(self)@
                })
            }),
    {
        if first {
            self.last_first = Some(dataset.clone());
        } else {
            self.last_second = Some(dataset.clone());
        }
        if !duplicate {
            self.write(dataset);
            return;
        }
        let opposite: Option<WriteableField> = match if first {
            &self.last_second
        } else {
            &self.last_first
        } {
            Some(other) => Some(other.clone()),
            None => None,
        };
        if let Some(other) = opposite {
            self.write(other);
            self.write(dataset);
        }
    }

    fn on_described(&mut self, description: Description) -> (action: Action<D>)
        requires
            old(self)@.phase is Describing,
            old(self)@.fields.len() < usize::MAX,
        ensures
            (final(self)@, action@) == old(self)@.described(description),
    {
        let ruling: Verdict = self.ruling_on(&description);
        let mut phase: Phase<D> = Phase::Locating;
        core::mem::swap(&mut phase, &mut self.phase);
        if let Phase::Describing { luma, chroma, first, field_phase_id: raw, file_loc } = phase {
            let prev: Option<Labels> = self.labels(0);
            let seq_no: usize = self.fields.len() + 1;
            let phase_id: i64 = match raw {
                Some(id) => id,
                None => field_phase_id(first, (seq_no / 2) % 2 == 0),
            };
            let plain: bool = match prev {
                Some(prev) => prev.is_first_field != first,
                None => true,
            };
            if plain && first {
                self.seen_first_field = true;
            }
            self.duplicate_prev_field = ruling.duplicate_prev_field;
            if ruling.write_field {
                let drop_outs: Option<DropOuts> = if self.spec.do_dod
                    && description.drop_outs.field_line.len() > 0 {
                    Some(description.drop_outs)
                } else {
                    None
                };
                let info = FieldInfoEntry {
                    is_first_field: ruling.is_first_field,
                    detected_first_field: first,
                    is_duplicate_field: ruling.is_duplicate_field,
                    sync_conf: ruling.sync_conf,
                    seq_no,
                    disk_loc: locate_on_disk(file_loc, self.spec.bytes_per_field),
                    file_loc,
                    field_phase_id: phase_id,
                    vits_metrics: description.vits_metrics,
                    drop_outs,
                    decode_faults: ruling.decode_faults,
                };
                let dataset = WriteableField::new(info, luma, chroma, raw);
                assert(dataset@ == old(self)@.dataset(description));
                self.enter(dataset, first, ruling.is_duplicate_field);
            }
        }
        self.look()
    }
}

} // verus!
