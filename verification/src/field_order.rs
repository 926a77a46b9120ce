//! Keeping the order of an interlaced recording: what to do with a field that
//! has the order of the field before it.
use crate::double::{inrange, unit, Double};
use crate::info::FieldInfo;
use crate::rounding::{lemma_nearer_neighbour, lemma_nearest_is_one, nearest};
use vstd::arithmetic::power2::{
    lemma2_to64, lemma2_to64_rest, lemma_pow2_adds, lemma_pow2_pos, lemma_pow2_unfold, pow2,
};
use vstd::prelude::*;

verus! {

/// The remedy for two fields of one order in a row.
#[derive(Clone, Copy, Debug, PartialEq, Eq, Structural)]
pub enum FieldOrderAction {
    /// Repeat the last field of the other order.
    Duplicate,
    /// Leave the new field out.
    Drop,
    /// Repeat or leave out by the distance between the two fields.
    Detect,
    /// Only relabel the new field.
    Flip,
}

/// Bit pattern of the least distance of a neighbouring field, nine tenths of a
/// field.
pub const NEIGHBOUR_MIN: u64 = 0x3FEC_CCCC_CCCC_CCCD;

/// Bit pattern of the greatest distance of a neighbouring field, eleven tenths
/// of a field.
pub const NEIGHBOUR_MAX: u64 = 0x3FF1_9999_9999_999A;

/// Fault bit of a field that was relabelled as progressive content.
pub const FAULT_PROGRESSIVE: i64 = 1;

/// Fault bit of a field that follows one of its own order.
pub const FAULT_SKIPPED: i64 = 4;

/// How a new field is entered.
#[derive(Clone, Copy, Debug, PartialEq, Eq, Structural)]
pub struct Verdict {
    pub is_first_field: bool,
    pub is_duplicate_field: bool,
    pub sync_conf: i64,
    pub decode_faults: Option<i64>,
    pub write_field: bool,
    /// Whether the next repair repeats a field.
    pub duplicate_prev_field: bool,
}

/// The labels of an entry that the judgement of the next field reads.
#[derive(Clone, Copy, Debug, PartialEq, Eq, Structural)]
pub struct Labels {
    pub is_first_field: bool,
    pub detected_first_field: bool,
}

/// The labels of an entry.
pub open spec fn labels_of(info: FieldInfo) -> Labels {
    Labels {
        is_first_field: info.is_first_field,
        detected_first_field: info.detected_first_field,
    }
}

/// The labels of the entry `back` places before the end, where there is one.
pub open spec fn labels_back(fields: Seq<FieldInfo>, back: int) -> Option<Labels> {
    if fields.len() > back {
        Some(labels_of(fields[fields.len() - 1 - back]))
    } else {
        None
    }
}

/// Whether `distance` is that of a neighbouring field.
pub open spec fn neighbouring(distance: Double) -> bool {
    Double { bits: NEIGHBOUR_MIN }.at_most(distance) && distance.at_most(
        Double { bits: NEIGHBOUR_MAX },
    )
}

/// Whether a field of detected order `detected`, `distance` after the entry
/// `prev`, is progressive content: neighbouring fields that were all detected
/// with one order.
pub open spec fn progressive(
    prev: Labels,
    before: Option<Labels>,
    detected: bool,
    distance: Double,
) -> bool {
    let before_detected = before is Some && before->0.detected_first_field;
    &&& prev.detected_first_field == detected
    &&& before_detected == prev.detected_first_field
    &&& neighbouring(distance)
}

/// Whether the repair of a skipped field repeats a field rather than leaving
/// one out.
pub open spec fn repeats(action: FieldOrderAction, distance: Double, repeated: bool) -> bool {
    match action {
        FieldOrderAction::Duplicate => true,
        FieldOrderAction::Drop => false,
        FieldOrderAction::Detect => if (Double { bits: NEIGHBOUR_MAX }).below(distance) {
            true
        } else if distance.below(Double { bits: NEIGHBOUR_MIN }) {
            false
        } else {
            !repeated
        },
        FieldOrderAction::Flip => repeated,
    }
}

/// How a field of detected order `detected` is entered behind the entry `prev`
/// and the entry `before` that one.
pub open spec fn verdict(
    prev: Option<Labels>,
    before: Option<Labels>,
    detected: bool,
    sync_conf: i64,
    distance: Double,
    action: FieldOrderAction,
    repeated: bool,
) -> Verdict {
    if prev is None || prev->0.is_first_field != detected {
        Verdict {
            is_first_field: detected,
            is_duplicate_field: false,
            sync_conf,
            decode_faults: None,
            write_field: true,
            duplicate_prev_field: repeated,
        }
    } else if progressive(prev->0, before, detected, distance) {
        Verdict {
            is_first_field: !detected,
            is_duplicate_field: false,
            sync_conf: 10,
            decode_faults: Some(FAULT_PROGRESSIVE),
            write_field: true,
            duplicate_prev_field: repeated,
        }
    } else {
        let repeat = repeats(action, distance, repeated);
        let relabel = action == FieldOrderAction::Flip;
        Verdict {
            is_first_field: if relabel {
                !detected
            } else {
                detected
            },
            is_duplicate_field: !relabel && repeat,
            sync_conf: 0,
            decode_faults: Some(FAULT_SKIPPED),
            write_field: relabel || repeat,
            duplicate_prev_field: repeat,
        }
    }
}

/// Judges a new field by the two entries before it.
pub fn judge(
    prev: Option<Labels>,
    before: Option<Labels>,
    detected: bool,
    sync_conf: i64,
    distance: Double,
    action: FieldOrderAction,
    repeated: bool,
) -> (outcome: Verdict)
    ensures
        outcome == verdict(prev, before, detected, sync_conf, distance, action, repeated),
{
    let plain = Verdict {
        is_first_field: detected,
        is_duplicate_field: false,
        sync_conf,
        decode_faults: None,
        write_field: true,
        duplicate_prev_field: repeated,
    };
    let prev: Labels = match prev {
        Some(prev) => prev,
        None => {
            return plain;
        },
    };
    if prev.is_first_field != detected {
        return plain;
    }
    let least = Double { bits: NEIGHBOUR_MIN };
    let most = Double { bits: NEIGHBOUR_MAX };
    let before_detected: bool = match before {
        Some(before) => before.detected_first_field,
        None => false,
    };
    if prev.detected_first_field == detected && before_detected == prev.detected_first_field
        && inrange(distance, least, most) {
        return Verdict {
            is_first_field: !detected,
            is_duplicate_field: false,
            sync_conf: 10,
            decode_faults: Some(FAULT_PROGRESSIVE),
            write_field: true,
            duplicate_prev_field: repeated,
        };
    }
    let repeat: bool = match action {
        FieldOrderAction::Duplicate => true,
        FieldOrderAction::Drop => false,
        FieldOrderAction::Detect => if most.lt(distance) {
            true
        } else if distance.lt(least) {
            false
        } else {
            !repeated
        },
        FieldOrderAction::Flip => repeated,
    };
    let relabel: bool = action == FieldOrderAction::Flip;
    Verdict {
        is_first_field: if relabel {
            !detected
        } else {
            detected
        },
        is_duplicate_field: !relabel && repeat,
        sync_conf: 0,
        decode_faults: Some(FAULT_SKIPPED),
        write_field: relabel || repeat,
        duplicate_prev_field: repeat,
    }
}

/// The bounds of a neighbouring field are the doubles nearest to nine and to eleven
/// tenths.
pub proof fn law_neighbours_are_a_tenth_off()
    ensures
        (Double { bits: NEIGHBOUR_MIN }) == nearest(9 * unit(), 10),
        (Double { bits: NEIGHBOUR_MAX }) == nearest(11 * unit(), 10),
{
    let least = Double { bits: NEIGHBOUR_MIN };
    let most = Double { bits: NEIGHBOUR_MAX };
    let below_least = Double { bits: 0x3FEC_CCCC_CCCC_CCCC };
    let below_most = Double { bits: 0x3FF1_9999_9999_9999 };
    lemma_power_of_units();
    let power = pow2(1021) as int;
    assert(least.steps() == 0x1C_CCCC_CCCC_CCCD * power);
    assert(below_least.steps() == 0x1C_CCCC_CCCC_CCCC * power);
    assert(most.steps() == 0x11_9999_9999_999A * (2 * power));
    assert(below_most.steps() == 0x11_9999_9999_9999 * (2 * power));
    lemma_nearer_neighbour(below_least, least, least, 9 * unit(), 10);
    lemma_nearer_neighbour(below_most, most, most, 11 * unit(), 10);
    lemma_nearest_is_one(least, 9 * unit(), 10);
    lemma_nearest_is_one(most, 11 * unit(), 10);
}

/// A whole in the steps of numbers around one.
proof fn lemma_power_of_units()
    ensures
        pow2(1021) > 0,
        pow2(1022) == 2 * pow2(1021),
        unit() == 0x20_0000_0000_0000 * pow2(1021),
{
    lemma2_to64();
    lemma2_to64_rest();
    lemma_pow2_pos(1021);
    lemma_pow2_adds(53, 1021);
    lemma_pow2_unfold(1022);
}

/// A field that takes turns with the entry before it, or has none before it, is
/// entered as it was detected and measured, whatever the setting.
pub proof fn law_turns_are_kept(
    prev: Option<Labels>,
    before: Option<Labels>,
    detected: bool,
    sync_conf: i64,
    distance: Double,
    action: FieldOrderAction,
    repeated: bool,
)
    requires
        prev matches Some(prev) ==> prev.is_first_field != detected,
    ensures
        ({
            let outcome = verdict(prev, before, detected, sync_conf, distance, action, repeated);
            &&& outcome.write_field
            &&& outcome.is_first_field == detected
            &&& !outcome.is_duplicate_field
            &&& outcome.sync_conf == sync_conf
            &&& outcome.decode_faults is None
            &&& outcome.duplicate_prev_field == repeated
        }),
{
    law_neighbours_are_a_tenth_off();
}

/// A neighbouring field that was detected with the order of both entries before it is
/// progressive content: it is entered with the other order, trusted little, and no
/// repair is made of it, whatever the setting. An entry that is not there counts as a
/// second field.
pub proof fn law_progressive_content_takes_turns(
    prev: Labels,
    before: Option<Labels>,
    detected: bool,
    sync_conf: i64,
    distance: Double,
    action: FieldOrderAction,
    repeated: bool,
)
    requires
        prev.is_first_field == detected,
        prev.detected_first_field == detected,
        (before is Some && before->0.detected_first_field) == detected,
        nearest(9 * unit(), 10).at_most(distance),
        distance.at_most(nearest(11 * unit(), 10)),
    ensures
        ({
            let outcome = verdict(
                Some(prev),
                before,
                detected,
                sync_conf,
                distance,
                action,
                repeated,
            );
            &&& outcome.write_field
            &&& outcome.is_first_field != detected
            &&& !outcome.is_duplicate_field
            &&& outcome.sync_conf == 10
            &&& outcome.decode_faults == Some(1i64)
            &&& outcome.duplicate_prev_field == repeated
        }),
{
    law_neighbours_are_a_tenth_off();
}

/// Any other field that follows an entry of its own order, first or second, is
/// repaired as the setting says: it is written as a duplicate, left out, or written
/// with the other order. By detection, a field that is far off makes a duplicate, one
/// that is near is left out, and between the two the repairs take turns. It has the
/// fault of a skipped field, and is not trusted.
pub proof fn law_repairs_follow_the_setting(
    prev: Labels,
    before: Option<Labels>,
    detected: bool,
    sync_conf: i64,
    distance: Double,
    action: FieldOrderAction,
    repeated: bool,
)
    requires
        prev.is_first_field == detected,
        prev.detected_first_field != detected || (before is Some
            && before->0.detected_first_field) != detected || !nearest(9 * unit(), 10).at_most(distance) || !distance.at_most(
            nearest(11 * unit(), 10),
        ),
    ensures
        ({
            let outcome = verdict(
                Some(prev),
                before,
                detected,
                sync_conf,
                distance,
                action,
                repeated,
            );
            let far = nearest(11 * unit(), 10).below(distance);
            let near = distance.below(nearest(9 * unit(), 10));
            let made_up = outcome.write_field && outcome.is_duplicate_field
                && outcome.duplicate_prev_field;
            let left_out = !outcome.write_field && !outcome.is_duplicate_field
                && !outcome.duplicate_prev_field;
            &&& action == FieldOrderAction::Duplicate ==> made_up
            &&& action == FieldOrderAction::Drop ==> left_out
            &&& action == FieldOrderAction::Detect && far ==> made_up
            &&& action == FieldOrderAction::Detect && near ==> left_out
            &&& action == FieldOrderAction::Detect && !far && !near && repeated ==> left_out
            &&& action == FieldOrderAction::Detect && !far && !near && !repeated ==> made_up
            &&& action == FieldOrderAction::Flip ==> outcome.write_field
                && !outcome.is_duplicate_field && outcome.duplicate_prev_field == repeated
            &&& outcome.is_first_field == detected <==> action != FieldOrderAction::Flip
            &&& outcome.sync_conf == 0
            &&& outcome.decode_faults == Some(4i64)
        }),
{
    law_neighbours_are_a_tenth_off();
}

} // verus!
