use tape_decode::double::{Double, Single};
use tape_decode::field::{
    field_phase_id, DecodedField, InterFieldState, PrevFieldState,
};
use tape_decode::picture::{
    can_adjust_ire0, can_judge_lines, can_measure_line, can_pad_burst, can_scale, downscale_raw_vec, get_linefreq, ire0_adjust_from_picture,
    padded_burst_area, sync_confidence_from_linelocs, MissingLinelocs, ScaleError, ScalePlan,
};

fn double(value: f64) -> Double {
    Double::from_bits(value.to_bits())
}

fn value(number: Double) -> f64 {
    f64::from_bits(number.bits)
}

fn doubles(values: &[f64]) -> Vec<Double> {
    values.iter().map(|&value| double(value)).collect()
}

fn field() -> DecodedField<()> {
    DecodedField {
        data: (),
        prevfield: None,
        readloc: 5000,
        inlinelen: double(2560.0),
        outlinelen: 20,
        outlinecount: 6,
        ire0_backporch: (1, 12),
        wow_level_adjust_smoothing: Single::from_bits(0.5f32.to_bits()),
        spline_degree: 3,
        is_first_field: Some(true),
        field_number: 7,
        linelocs: None,
        lineoffset: 0,
        linecount: Some(6),
        out_scale: Some(double(2.0)),
        field_phase_id: None,
        phase_adjust_median: double(0.25),
        valid: true,
        sync_confidence: 90,
        wow_analysis: None,
    }
}

#[test]
fn four_phases_have_four_places() {
    assert_eq!(field_phase_id(true, true), 1);
    assert_eq!(field_phase_id(false, false), 2);
    assert_eq!(field_phase_id(true, false), 3);
    assert_eq!(field_phase_id(false, true), 4);
}

#[test]
fn phases_of_first_fields_are_odd() {
    for first in [false, true] {
        for phase in [false, true] {
            assert_eq!(field_phase_id(first, phase) % 2 == 1, first);
        }
    }
}

#[test]
fn phases_run_in_order() {
    for seq_no in 1..40i64 {
        let id = field_phase_id(seq_no % 2 == 1, (seq_no / 2) % 2 == 0);
        assert_eq!(id, (seq_no - 1) % 4 + 1);
    }
}

#[test]
fn nothing_is_known_before_the_first_field() {
    let state = InterFieldState::new(Some(1));
    assert_eq!(state.prev_first_hsync_readloc, -1);
    assert_eq!(value(state.prev_first_hsync_loc), -1.0);
    assert_eq!(value(state.prev_first_hsync_diff), -1.0);
    assert_eq!(state.prev_first_field, -1);
    assert_eq!(state.track_phase, Some(1));
    assert!(!state.compute_linelocs_issues);
}

#[test]
fn a_valid_field_tells_the_next_one() {
    let mut field = field();
    let PrevFieldState { readloc, field_number, phase_adjust_median } = field.summary().unwrap();
    assert_eq!((readloc, field_number, value(phase_adjust_median)), (5000, 7, 0.25));
    field.valid = false;
    assert!(field.summary().is_none());
}

#[test]
fn an_unknown_order_is_not_first() {
    let mut field = field();
    assert!(field.detected_first());
    field.is_first_field = Some(false);
    assert!(!field.detected_first());
    field.is_first_field = None;
    assert!(!field.detected_first());
}

#[test]
fn the_burst_has_a_margin() {
    assert_eq!(padded_burst_area(double(80.2), double(120.2)), (75, 131));
    assert_eq!(padded_burst_area(double(80.0), double(120.0)), (75, 130));
    assert_eq!(padded_burst_area(double(-0.5), double(-0.5)), (-6, 10));
    assert_eq!(padded_burst_area(double(f64::NAN), double(f64::NAN)), (-5, 10));
}

fn curve(a: Double, b: Double, c: Double) -> Double {
    double(value(c) - 2.0 * value(b) + value(a))
}

#[test]
fn confidence_needs_line_locations() {
    let mut field = field();
    assert_eq!(sync_confidence_from_linelocs(&field, curve), Err(MissingLinelocs));
    field.lineoffset = usize::MAX;
    assert_eq!(sync_confidence_from_linelocs(&field, curve), Err(MissingLinelocs));
}

#[test]
fn even_lines_keep_the_confidence() {
    let mut field = field();
    field.linelocs = Some(doubles(&[0.0, 100.0, 200.0, 304.0, 404.0, 504.0]));
    assert_eq!(sync_confidence_from_linelocs(&field, curve), Ok(90));
    field.sync_confidence = 120;
    assert_eq!(sync_confidence_from_linelocs(&field, curve), Ok(100));
}

#[test]
fn a_jump_lowers_the_confidence() {
    let mut field = field();
    field.linelocs = Some(doubles(&[0.0, 100.0, 200.0, 304.5, 404.0, 504.0]));
    assert_eq!(sync_confidence_from_linelocs(&field, curve), Ok(45));
    field.sync_confidence = 30;
    assert_eq!(sync_confidence_from_linelocs(&field, curve), Ok(30));
    // One of four samples is none.
    field.sync_confidence = 90;
    field.linelocs = Some(doubles(&[0.0, 100.0, 200.0, 304.0, 404.0, 504.0]));
    assert_eq!(sync_confidence_from_linelocs(&field, curve), Ok(90));
    field.linelocs = Some(doubles(&[0.0, 100.0, 200.0, 304.0000000000001, 404.0, 504.0]));
    assert_eq!(sync_confidence_from_linelocs(&field, curve), Ok(45));
    field.linelocs = Some(doubles(&[0.0, 100.0, 200.0, f64::NAN, 404.0, 504.0]));
    assert_eq!(sync_confidence_from_linelocs(&field, curve), Ok(90));
    field.linelocs = Some(doubles(&[0.0, 100.0, 200.0, 304.5, 404.0, 504.0]));
    // A jump before the first line does not count.
    field.sync_confidence = 90;
    field.lineoffset = 2;
    assert_eq!(sync_confidence_from_linelocs(&field, curve), Ok(90));
    // Nor one behind the last.
    field.lineoffset = 0;
    field.linecount = Some(3);
    assert_eq!(sync_confidence_from_linelocs(&field, curve), Ok(90));
}

#[test]
fn too_few_lines_say_nothing() {
    let mut field = field();
    field.sync_confidence = 120;
    field.linelocs = Some(doubles(&[0.0, 100.0, 250.0]));
    field.linecount = Some(2);
    assert_eq!(sync_confidence_from_linelocs(&field, curve), Ok(120));
    field.linecount = None;
    assert_eq!(sync_confidence_from_linelocs(&field, curve), Ok(120));
    field.linecount = Some(9);
    field.lineoffset = 3;
    assert_eq!(sync_confidence_from_linelocs(&field, curve), Ok(120));
    field.lineoffset = 0;
    assert_eq!(sync_confidence_from_linelocs(&field, curve), Ok(45));
}

#[test]
fn the_blanking_level_is_that_of_the_middle_lines() {
    let field = field();
    let mut picture = vec![1000i64; 120];
    // The back porch without its margin is samples five to seven.
    for (line, levels) in [[5, 1, 9], [7, 7, 7], [2, 3, 1], [8, 8, 0], [1, 1, 1], [4, 6, 5]]
        .iter()
        .enumerate()
    {
        picture[line * 20 + 5..line * 20 + 8].copy_from_slice(levels);
    }
    // The levels are 5, 7, 2, 8, 1, 5; the middle third of them 5 and 5.
    let levels = ire0_adjust_from_picture(&picture, &field, |a, b| (a + b) / 2);
    assert_eq!(levels, Some(vec![5, 5]));
}

#[test]
fn an_even_back_porch_has_a_mean_level() {
    let mut field = field();
    field.ire0_backporch = (0, 12);
    field.outlinecount = 2;
    let mut picture = vec![0i64; 40];
    picture[4..8].copy_from_slice(&[4, 10, 2, 8]);
    picture[24..28].copy_from_slice(&[1, 1, 1, 1]);
    let levels = ire0_adjust_from_picture(&picture, &field, |a, b| (a + b) / 2);
    assert_eq!(levels, Some(vec![1]));
    picture[24..28].copy_from_slice(&[9, 9, 9, 9]);
    let levels = ire0_adjust_from_picture(&picture, &field, |a, b| (a + b) / 2);
    assert_eq!(levels, Some(vec![6]));
}

#[test]
fn no_back_porch_has_no_level() {
    let picture = vec![0i64; 120];
    let average = |a, b| (a + b) / 2;
    let mut narrow = field();
    narrow.ire0_backporch = (1, 9);
    assert_eq!(ire0_adjust_from_picture(&picture, &narrow, average), None);
    let mut empty = field();
    empty.outlinecount = 0;
    assert_eq!(ire0_adjust_from_picture(&picture, &empty, average), None);
    let mut flat = field();
    flat.outlinelen = 0;
    assert_eq!(ire0_adjust_from_picture(&picture, &flat, average), None);
    let mut one = field();
    one.outlinecount = 1;
    assert_eq!(ire0_adjust_from_picture(&picture, &one, average), Some(vec![]));
}

#[test]
fn back_porches_have_to_lie_in_the_picture() {
    let mut field = field();
    // The porch of the last line ends at sample eight of it.
    assert!(can_adjust_ire0(&field, 108));
    assert!(!can_adjust_ire0(&field, 107));
    field.outlinecount = 1;
    assert!(can_adjust_ire0(&field, 0));
    field.outlinecount = 6;
    field.ire0_backporch = (1, 9);
    assert!(can_adjust_ire0(&field, 0));
    field.ire0_backporch = (1, 3);
    assert!(!can_adjust_ire0(&field, 120));
    field.ire0_backporch = (usize::MAX - 3, usize::MAX);
    assert!(!can_adjust_ire0(&field, 120));
    field.ire0_backporch = (1, usize::MAX);
    assert!(!can_adjust_ire0(&field, usize::MAX));
}

#[test]
fn sizes_have_to_be_addressable() {
    let mut field = field();
    assert!(can_scale(&field, None, None));
    assert!(can_scale(&field, Some(usize::MAX), Some(1)));
    assert!(!can_scale(&field, Some(usize::MAX), None));
    assert!(!can_scale(&field, None, Some(usize::MAX)));
    assert!(can_scale(&field, Some(0), Some(usize::MAX)));
    field.lineoffset = usize::MAX / 20;
    assert!(!can_scale(&field, Some(0), None));
    field.outlinelen = 0;
    assert!(can_scale(&field, None, None));
    field.lineoffset = usize::MAX;
    assert!(!can_scale(&field, None, None));
}

#[test]
fn scaling_takes_the_sizes_of_the_field() {
    let mut field = field();
    field.linelocs = Some(doubles(&[10.0, 2571.0, 5130.0]));
    field.lineoffset = 2;
    field.wow_analysis = Some((double(1.0), double(0.5)));
    let scaled = downscale_raw_vec(
        &mut field,
        None,
        None,
        None,
        false,
        |line| double(line as f64 * 2560.0),
        |_, plan| {
            assert_eq!(plan.actual_linelocs, doubles(&[10.0, 2571.0, 5130.0]));
            assert_eq!(plan.expected_linelocs, doubles(&[0.0, 2560.0, 5120.0]));
            assert_eq!((plan.out_len, plan.outwidth), (120, 20));
            assert_eq!((plan.lineoffset, plan.eval_count), (2, 180));
            assert_eq!(plan.spline_degree, 3);
            assert!(!plan.use_burst_channel);
            assert_eq!(plan.wow_level_adjust_smoothing.bits, 0.5f32.to_bits());
            assert_eq!(value(plan.level_adjust_threshold), 15.0);
            assert_eq!(plan.cached_median_mad, Some((double(1.0), double(0.5))));
            Ok::<_, ()>((vec![1u8, 2, 3], double(2.0), double(0.25)))
        },
    );
    assert_eq!(scaled, Ok(vec![1, 2, 3]));
    assert_eq!(field.wow_analysis, Some((double(2.0), double(0.25))));
}

#[test]
fn scaling_takes_what_is_given() {
    let mut field = field();
    let lines = doubles(&[1.0, 2.0]);
    for found in [None, Some((double(1.5), double(0.0)))] {
        let scaled = downscale_raw_vec(
            &mut field,
            Some(&lines),
            Some(3),
            Some(5),
            true,
            |line| double(line as f64),
            |_, plan| {
                assert_eq!(plan.actual_linelocs, lines);
                assert_eq!((plan.out_len, plan.outwidth), (15, 5));
                assert!(plan.use_burst_channel);
                // The second scaling is told what the first one found.
                assert_eq!(plan.cached_median_mad, found);
                Ok::<_, ()>((vec![0u8; plan.out_len], double(1.5), double(0.0)))
            },
        );
        assert_eq!(scaled, Ok(vec![0; 15]));
    }
}

#[test]
fn scaling_needs_line_locations() {
    let mut field = field();
    let nominal = |line: usize| double(line as f64);
    let scale = |_: &(), _: &ScalePlan| Ok::<(Vec<u8>, Double, Double), u8>((vec![], double(0.0), double(0.0)));
    let scaled = downscale_raw_vec(&mut field, None, None, None, false, nominal, scale);
    assert_eq!(scaled, Err(ScaleError::MissingLinelocs));
    field.lineoffset = usize::MAX;
    let scaled = downscale_raw_vec(&mut field, None, None, None, false, nominal, scale);
    assert_eq!(scaled, Err(ScaleError::MissingLinelocs));
    assert_eq!(field.wow_analysis, None);
}

#[test]
fn scaling_may_fail() {
    let mut field = field();
    field.linelocs = Some(doubles(&[1.0]));
    let nominal = |line: usize| double(line as f64);
    let scale = |_: &(), _: &ScalePlan| Err::<(Vec<u8>, Double, Double), u8>(7);
    let scaled = downscale_raw_vec(&mut field, None, None, None, false, nominal, scale);
    assert_eq!(scaled, Err(ScaleError::Failed(7)));
    assert_eq!(field.wow_analysis, None);
}

fn linefreq(linecount: Option<usize>, lineoffset: usize, line: Option<usize>, lines: Option<&[f64]>) -> f64 {
    let lines = lines.map(doubles);
    value(get_linefreq(
        double(64.0),
        linecount,
        lineoffset,
        line,
        lines.as_deref(),
        |a, b| double(value(b) - value(a)),
        |a, b| double((value(b) - value(a)) / 2.0),
        |length| double(40.0 * value(length)),
    ))
}

#[test]
fn a_line_is_as_long_as_its_neighbours_say() {
    let lines = [0.0, 60.0, 130.0, 210.0, 205.0];
    assert_eq!(linefreq(Some(3), 1, Some(0), Some(&lines)), 40.0 * 60.0);
    assert_eq!(linefreq(Some(3), 1, Some(1), Some(&lines)), 40.0 * 65.0);
    assert_eq!(linefreq(Some(3), 1, Some(2), Some(&lines)), 40.0 * 75.0);
    // The last line is measured from the one before it.
    assert_eq!(linefreq(Some(2), 1, Some(3), Some(&lines)), 40.0 * 80.0);
    // A length that is not positive is not taken.
    assert_eq!(linefreq(Some(3), 1, Some(4), Some(&lines)), 40.0 * 64.0);
}

#[test]
fn an_unknown_line_has_the_nominal_length() {
    let lines = [0.0, 60.0, 130.0];
    assert_eq!(linefreq(None, 1, Some(1), Some(&lines)), 40.0 * 64.0);
    assert_eq!(linefreq(Some(3), 1, None, Some(&lines)), 40.0 * 64.0);
    assert_eq!(linefreq(Some(3), 1, Some(1), None), 40.0 * 64.0);
}

#[test]
fn margins_have_to_be_addressable() {
    assert!(can_pad_burst(double(80.2), double(120.2)));
    assert!(can_pad_burst(double(f64::NAN), double(f64::NAN)));
    assert!(can_pad_burst(double(f64::INFINITY), double(f64::NEG_INFINITY)));
    assert!(!can_pad_burst(double(f64::NEG_INFINITY), double(0.0)));
    assert!(!can_pad_burst(double(0.0), double(f64::INFINITY)));
}

#[test]
fn lines_have_to_be_countable() {
    let mut field = field();
    field.lineoffset = usize::MAX - 6;
    field.linelocs = Some(doubles(&[0.0]));
    assert!(can_judge_lines(&field));
    field.lineoffset += 1;
    assert!(!can_judge_lines(&field));
    field.linelocs = None;
    assert!(can_judge_lines(&field));
}

#[test]
fn lines_have_to_be_located() {
    let lines = doubles(&[0.0, 1.0, 2.0]);
    let can = |count: usize, offset: usize, line: usize| {
        can_measure_line(Some(count), offset, Some(line), Some(&lines))
    };
    assert!(can(2, 1, 0) && can(2, 1, 1) && !can(2, 1, 2) && !can(2, 1, 3));
    assert!(can(1, 1, 2) && can(0, 0, 1) && !can(0, 0, 0));
    assert!(!can(usize::MAX, 1, 0));
    assert!(can_measure_line(None, 1, Some(9), Some(&lines)));
    assert!(can_measure_line(Some(1), 1, None, Some(&lines)));
    assert!(can_measure_line(Some(1), 1, Some(9), None));
    assert!(!can_measure_line(Some(5), 0, Some(0), Some(&lines[..1])));
}
