use std::sync::Arc;
use tape_decode::blocks::{can_plan, plan_blocks, BLOCKCUT, BLOCKCUT_END, BLOCKSIZE};
use tape_decode::double::{Double, Single};
use tape_decode::field_order::{judge, FieldOrderAction, Labels, Verdict};
use tape_decode::info::{
    DropOuts, FieldInfoEntry, LumaOutput, VitsMetrics, WriteableField,
};

fn double(value: f64) -> Double {
    Double::from_bits(value.to_bits())
}

fn labels(is_first_field: bool, detected_first_field: bool) -> Option<Labels> {
    Some(Labels { is_first_field, detected_first_field })
}

fn verdict(
    prev: Option<Labels>,
    before: Option<Labels>,
    detected: bool,
    distance: f64,
    action: FieldOrderAction,
    repeated: bool,
) -> Verdict {
    judge(prev, before, detected, 77, double(distance), action, repeated)
}

fn plain(detected: bool, repeated: bool) -> Verdict {
    Verdict {
        is_first_field: detected,
        is_duplicate_field: false,
        sync_conf: 77,
        decode_faults: None,
        write_field: true,
        duplicate_prev_field: repeated,
    }
}

fn repaired(is_first_field: bool, duplicate: bool, write_field: bool, repeat: bool) -> Verdict {
    Verdict {
        is_first_field,
        is_duplicate_field: duplicate,
        sync_conf: 0,
        decode_faults: Some(4),
        write_field,
        duplicate_prev_field: repeat,
    }
}

#[test]
fn alternating_fields_are_entered_as_detected() {
    for repeated in [false, true] {
        let action = FieldOrderAction::Detect;
        assert_eq!(verdict(None, None, true, 0.0, action, repeated), plain(true, repeated));
        let prev = labels(true, true);
        assert_eq!(verdict(prev, None, false, 9.0, action, repeated), plain(false, repeated));
        let prev = labels(false, true);
        assert_eq!(verdict(prev, None, true, 9.0, action, repeated), plain(true, repeated));
    }
}

#[test]
fn progressive_content_is_relabelled() {
    for action in [
        FieldOrderAction::Duplicate,
        FieldOrderAction::Drop,
        FieldOrderAction::Detect,
        FieldOrderAction::Flip,
    ] {
        let found = verdict(labels(true, true), labels(false, true), true, 1.0, action, true);
        assert_eq!(
            found,
            Verdict {
                is_first_field: false,
                is_duplicate_field: false,
                sync_conf: 10,
                decode_faults: Some(1),
                write_field: true,
                duplicate_prev_field: true,
            }
        );
        // A second field behind the very first entry counts too.
        let found = verdict(labels(false, false), None, false, 0.9, action, false);
        assert_eq!((found.is_first_field, found.decode_faults), (true, Some(1)));
    }
}

#[test]
fn progressive_content_is_next_to_its_neighbour() {
    let action = FieldOrderAction::Flip;
    let faults = |before, distance| {
        verdict(labels(true, true), before, true, distance, action, false).decode_faults
    };
    assert_eq!(faults(labels(false, true), 0.9), Some(1));
    assert_eq!(faults(labels(false, true), 1.1), Some(1));
    assert_eq!(faults(labels(false, true), 1.2), Some(4));
    assert_eq!(faults(labels(false, true), 0.8), Some(4));
    assert_eq!(faults(labels(false, true), f64::NAN), Some(4));
    assert_eq!(faults(labels(false, false), 1.0), Some(4));
    assert_eq!(faults(None, 1.0), Some(4));
    let relabelled = verdict(labels(true, false), labels(false, true), true, 1.0, action, false);
    assert_eq!(relabelled.decode_faults, Some(4));
}

#[test]
fn skipped_fields_are_repaired() {
    let prev = labels(true, true);
    let judge = |distance, action, repeated| verdict(prev, None, true, distance, action, repeated);
    for distance in [0.5, 1.0, 2.0] {
        for repeated in [false, true] {
            assert_eq!(
                judge(distance, FieldOrderAction::Duplicate, repeated),
                repaired(true, true, true, true)
            );
            assert_eq!(
                judge(distance, FieldOrderAction::Drop, repeated),
                repaired(true, false, false, false)
            );
            assert_eq!(
                judge(distance, FieldOrderAction::Flip, repeated),
                repaired(false, false, true, repeated)
            );
        }
    }
}

#[test]
fn the_distance_tells_the_repair() {
    let prev = labels(true, true);
    let action = FieldOrderAction::Detect;
    let judge = |distance, repeated| verdict(prev, None, true, distance, action, repeated);
    for repeated in [false, true] {
        assert_eq!(judge(1.2, repeated), repaired(true, true, true, true));
        assert_eq!(judge(0.8, repeated), repaired(true, false, false, false));
    }
    // In between, repeating and leaving out take turns.
    assert_eq!(judge(1.0, false), repaired(true, true, true, true));
    assert_eq!(judge(1.0, true), repaired(true, false, false, false));
    assert_eq!(judge(f64::NAN, true), repaired(true, false, false, false));
}

#[test]
fn a_plan_covers_its_field() {
    let usable = BLOCKSIZE - BLOCKCUT - BLOCKCUT_END;
    let plan = plan_blocks(100_000, 500_000, usable);
    // Three blocks in, and room for seventeen more.
    assert_eq!(plan.readloc, 100_000);
    assert_eq!(plan.requested_begin, 98_304 / 30_720);
    assert_eq!(plan.requested_end, (98_304 + 17 * 32_768) / 30_720 + 1);
    assert_eq!(plan.startloc, 3 * 30_720);
    assert_eq!(plan.needed_end, 21 * 30_720 + 32_768);
    assert!(plan.startloc <= 100_000);
    assert!(100_000 + 500_000 < plan.requested_end * usable);
}

#[test]
fn a_plan_never_begins_before_the_input() {
    let plan = plan_blocks(-5000, 1000, 30_720);
    assert_eq!(plan.readloc, 0);
    assert_eq!((plan.requested_begin, plan.requested_end), (0, 3));
    assert_eq!((plan.startloc, plan.needed_end), (0, 2 * 30_720 + 32_768));
}

#[test]
fn a_plan_has_to_be_addressable() {
    assert!(can_plan(0, 0, 1));
    assert!(can_plan(i64::MIN, 500_000, 30_720));
    assert!(!can_plan(0, 500_000, 0));
    assert!(!can_plan(0, usize::MAX, 30_720));
    assert!(!can_plan(i64::MAX, usize::MAX / 2, 30_720));
}

fn entry() -> FieldInfoEntry {
    FieldInfoEntry {
        is_first_field: true,
        detected_first_field: false,
        is_duplicate_field: false,
        sync_conf: 45,
        seq_no: 3,
        disk_loc: double(2.5),
        file_loc: 1234,
        field_phase_id: 2,
        vits_metrics: VitsMetrics { w_snr: Some(double(40.0)), b_psnr: None },
        drop_outs: Some(DropOuts { field_line: vec![3], startx: vec![10], endx: vec![20] }),
        decode_faults: Some(4),
    }
}

#[test]
fn copies_of_a_field_share_its_pictures() {
    let luma = LumaOutput::Encoded(vec![1, 2, 3]);
    let field = WriteableField::new(entry(), luma, Some(vec![4, 5]), Some(2));
    let copy = field.clone();
    assert!(Arc::ptr_eq(&field.picture, &copy.picture));
    assert!(matches!(copy.luma(), LumaOutput::Encoded(samples) if *samples == vec![1, 2, 3]));
    assert_eq!(copy.chroma(), Some([4u16, 5].as_slice()));
    assert_eq!(copy.field_phase_id_raw, Some(2));
    let (info, other) = (field.info, copy.info);
    assert_eq!(format!("{:?}", info), format!("{:?}", other));
    let drop_outs = other.drop_outs.unwrap();
    assert_eq!(drop_outs.field_line, vec![3]);
    assert_eq!(drop_outs.startx, vec![10]);
    assert_eq!(drop_outs.endx, vec![20]);
}

#[test]
fn a_field_may_lack_colour() {
    let raw = LumaOutput::Raw(vec![Single::from_bits(1.5f32.to_bits())]);
    let field = WriteableField::new(entry(), raw, None, None);
    assert_eq!(field.chroma(), None);
    assert!(matches!(field.luma(), LumaOutput::Raw(samples) if samples[0].bits == 1.5f32.to_bits()));
    assert_eq!(field.info.file_loc, 1234);
}
