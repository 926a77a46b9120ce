//! A field on its way through the decoder.
use crate::double::{unit, Double, Single};
use vstd::arithmetic::power2::{lemma2_to64_rest, lemma_pow2_adds};
use vstd::prelude::*;

verus! {

/// What a field needs to know of the field before it.
#[derive(Clone, Copy, Debug)]
pub struct PrevFieldState {
    pub readloc: i64,
    pub field_number: i64,
    pub phase_adjust_median: Double,
}

/// Bit pattern of the number minus one.
pub const MINUS_ONE: u64 = 0xBFF0_0000_0000_0000;

/// What locating one field leaves behind for the next.
#[derive(Clone, Copy, Debug)]
pub struct InterFieldState {
    pub prev_first_hsync_readloc: i64,
    pub prev_first_hsync_loc: Double,
    pub prev_first_hsync_diff: Double,
    pub prev_first_field: i64,
    pub track_phase: Option<i64>,
    pub compute_linelocs_issues: bool,
}

impl InterFieldState {
    /// The state before any field: every position is minus one.
    pub open spec fn fresh(track_phase: Option<i64>) -> Self {
        InterFieldState {
            prev_first_hsync_readloc: -1 as i64,
            prev_first_hsync_loc: Double { bits: MINUS_ONE },
            prev_first_hsync_diff: Double { bits: MINUS_ONE },
            prev_first_field: -1 as i64,
            track_phase,
            compute_linelocs_issues: false,
        }
    }

    pub fn new(track_phase: Option<i64>) -> (state: Self)
        ensures
            state == Self::fresh(track_phase),
    {
        InterFieldState {
            prev_first_hsync_readloc: -1i64,
            prev_first_hsync_loc: Double { bits: MINUS_ONE },
            prev_first_hsync_diff: Double { bits: MINUS_ONE },
            prev_first_field: -1i64,
            track_phase,
            compute_linelocs_issues: false,
        }
    }
}

/// A field as it was found in the input. `data` is what the signal stages keep
/// with it, which no decision here reads.
#[derive(Debug)]
pub struct DecodedField<D> {
    pub data: D,
    pub prevfield: Option<PrevFieldState>,
    pub readloc: i64,
    pub inlinelen: Double,
    pub outlinelen: usize,
    pub outlinecount: usize,
    pub ire0_backporch: (usize, usize),
    pub wow_level_adjust_smoothing: Single,
    pub spline_degree: usize,
    pub is_first_field: Option<bool>,
    pub field_number: i64,
    pub linelocs: Option<Vec<Double>>,
    pub lineoffset: usize,
    pub linecount: Option<usize>,
    pub out_scale: Option<Double>,
    pub field_phase_id: Option<i64>,
    pub phase_adjust_median: Double,
    pub valid: bool,
    pub sync_confidence: i64,
    /// Median and spread of the wow factors, where they were already found for
    /// the present line locations.
    pub wow_analysis: Option<(Double, Double)>,
}

impl<D> DecodedField<D> {
    /// Whether the signal says that this is a first field.
    pub open spec fn first(self) -> bool {
        self.is_first_field == Some(true)
    }

    pub fn detected_first(&self) -> (answer: bool)
        ensures
            answer == self.first(),
    {
        match self.is_first_field {
            Some(first) => first,
            None => false,
        }
    }

    /// What the next field is told of this one: nothing where it is not valid.
    pub open spec fn told_next(self) -> Option<PrevFieldState> {
        if self.valid {
            Some(
                PrevFieldState {
                    readloc: self.readloc,
                    field_number: self.field_number,
                    phase_adjust_median: self.phase_adjust_median,
                },
            )
        } else {
            None
        }
    }

    pub fn summary(&self) -> (state: Option<PrevFieldState>)
        ensures
            state == self.told_next(),
    {
        if self.valid {
            Some(
                PrevFieldState {
                    readloc: self.readloc,
                    field_number: self.field_number,
                    phase_adjust_median: self.phase_adjust_median,
                },
            )
        } else {
            None
        }
    }
}

/// A field found in the input and how far past the present position the next
/// one starts.
#[derive(Debug)]
pub struct DecodeFieldResult<D> {
    pub field: DecodedField<D>,
    pub offset: Double,
}

/// The place of a field in the four-field colour sequence, one to four.
pub open spec fn phase_id(first_field: bool, second_phase: bool) -> i64 {
    match (first_field, second_phase) {
        (true, true) => 1,
        (false, false) => 2,
        (true, false) => 3,
        (false, true) => 4,
    }
}

/// Maps a (first-field, second-phase) pair to its place in the colour sequence.
pub fn field_phase_id(first_field: bool, second_phase: bool) -> (id: i64)
    ensures
        id == phase_id(first_field, second_phase),
{
    match (first_field, second_phase) {
        (true, true) => 1,
        (false, false) => 2,
        (true, false) => 3,
        (false, true) => 4,
    }
}

/// The phase ID that a field gets by its sequence number alone.
pub open spec fn phase_id_by_number(first_field: bool, seq_no: int) -> i64 {
    phase_id(first_field, (seq_no / 2) % 2 == 0)
}

/// The four pairs have four places, the odd ones for first fields.
pub proof fn law_phase_ids_are_distinct(
    first_field: bool,
    second_phase: bool,
    other_field: bool,
    other_phase: bool,
)
    ensures
        1 <= phase_id(first_field, second_phase) <= 4,
        phase_id(first_field, second_phase) % 2 == 1 <==> first_field,
        phase_id(first_field, second_phase) == phase_id(other_field, other_phase) ==> first_field
            == other_field && second_phase == other_phase,
{
}

/// Numbered from one, with first fields at the odd numbers, fields run through
/// the colour sequence in order.
pub proof fn law_phase_ids_run_in_order(seq_no: int)
    requires
        seq_no >= 1,
    ensures
        phase_id_by_number(seq_no % 2 == 1, seq_no) == (seq_no - 1) % 4 + 1,
{
}

/// The phase ID by number changes with every second number, and comes back after four.
/// With [`law_phase_ids_run_in_order`], which fixes it for fields in turn, this fixes
/// it for every field.
pub proof fn law_phase_ids_go_by_pairs(first_field: bool, pair: int)
    ensures
        phase_id_by_number(first_field, 2 * pair) == phase_id_by_number(
            first_field,
            2 * pair + 1,
        ),
        phase_id_by_number(first_field, 2 * pair) == phase_id_by_number(
            first_field,
            2 * pair + 4,
        ),
        phase_id_by_number(first_field, 2 * pair) != phase_id_by_number(
            first_field,
            2 * pair + 2,
        ),
{
}

/// Before any field, every position is minus one, nothing went wrong, and the track is
/// the given one.
pub proof fn law_nothing_is_known_at_first(track_phase: Option<i64>)
    ensures
        ({
            let state = InterFieldState::fresh(track_phase);
            &&& state.prev_first_hsync_readloc == -1
            &&& state.prev_first_field == -1
            &&& state.prev_first_hsync_loc.steps() == -unit()
            &&& state.prev_first_hsync_diff.steps() == -unit()
            &&& state.track_phase == track_phase
            &&& !state.compute_linelocs_issues
        }),
{
    lemma2_to64_rest();
    lemma_pow2_adds(52, 1022);
}

/// Only a valid field is told of, and of it the position, the number and the phase.
pub proof fn law_valid_fields_are_told_of<D>(field: DecodedField<D>)
    ensures
        field.told_next() is Some <==> field.valid,
        field.told_next() matches Some(told) ==> {
            &&& told.readloc == field.readloc
            &&& told.field_number == field.field_number
            &&& told.phase_adjust_median == field.phase_adjust_median
        },
        field.first() <==> field.is_first_field is Some && field.is_first_field->0,
{
}

} // verus!
