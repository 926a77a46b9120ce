use tape_decode::chroma::{
    active_chroma_heterodyne, chroma_afc_chainfiltfilt, demod_chroma_filt_array,
    gen_chroma_heterodyne, heterodyne_len, shift_chroma_and_remove_dc, ChromaAfcState,
    StackableMa,
};
use tape_decode::double::Double;

fn double(value: f64) -> Double {
    Double::from_bits(value.to_bits())
}

fn value(number: Double) -> f64 {
    f64::from_bits(number.bits)
}

fn mean(values: &Vec<Double>) -> Double {
    double(values.iter().map(|&v| value(v)).sum::<f64>() / values.len() as f64)
}

#[test]
fn an_average_is_over_the_last_values() {
    let mut average = StackableMa::new(1, 3);
    assert!(!average.has_values());
    assert_eq!(average.pull(mean), None);
    average.push(double(1.0));
    assert!(!average.has_values());
    assert_eq!(average.pull(mean), Some(double(1.0)));
    average.push(double(2.0));
    assert!(average.has_values());
    average.push(double(3.0));
    average.push(double(7.0));
    assert_eq!(average.size(), 4);
    assert_eq!(average.pull(mean), Some(double(4.0)));
    assert_eq!(average.size(), 3);
    assert_eq!(average.pull(mean), Some(double(4.0)));
    assert_eq!(average.size(), 3);
}

#[test]
fn an_empty_window_has_no_average() {
    let mut average = StackableMa::new(0, 0);
    average.push(double(1.0));
    assert!(average.has_values());
    assert_eq!(average.pull(mean), None);
    assert_eq!(average.size(), 0);
}

#[test]
fn a_carrier_has_four_phases() {
    let tables = gen_chroma_heterodyne(3, |i| (i as i32, 10 + i as i32), |sample| -sample);
    assert_eq!(
        tables,
        vec![vec![-10, -11, -12], vec![0, 1, 2], vec![10, 11, 12], vec![0, -1, -2]]
    );
    let empty = gen_chroma_heterodyne(0, |_| (0, 0), |sample: i32| -sample);
    assert_eq!(empty, vec![Vec::<i32>::new(); 4]);
}

#[test]
fn a_carrier_is_as_long_as_the_longer_field() {
    assert_eq!(heterodyne_len(910, (263, 262)), 910 * 263);
    assert_eq!(heterodyne_len(1135, (312, 313)), 1135 * 313);
}

/// A carrier that only shows what it was made for.
fn generate(freq: Double, phase: Double) -> Vec<Vec<u64>> {
    vec![vec![freq.bits, phase.bits]]
}

#[test]
fn a_new_carrier_has_phase_zero() {
    let state = ChromaAfcState::new(true, double(0.5), generate);
    assert_eq!(state.cc_phase, double(0.0));
    assert_eq!(state.cc_freq_mhz, double(0.5));
    assert_eq!(state.chroma_heterodyne, generate(double(0.5), double(0.0)));
    let stack = state.meas_stack.unwrap();
    assert_eq!((stack.size(), stack.min_watermark, stack.window_average), (0, 0, 8192));
    let drift = state.chroma_log_drift.unwrap();
    assert_eq!((drift.size(), drift.min_watermark, drift.window_average), (0, 0, 8192));
    let fixed = ChromaAfcState::new(false, double(0.5), generate);
    assert!(fixed.meas_stack.is_none() && fixed.chroma_log_drift.is_none());
}

fn take(state: &mut ChromaAfcState<u64>, measured: f64, adjustf: bool) -> (f64, bool) {
    let (offset, held) = state.freq_offset(
        double(measured),
        double(0.75),
        double(400.0),
        double(600.0),
        adjustf,
        |freq| double(value(freq) / 1000.0),
        |freq| double(value(freq) * 1000.0),
        |freq| double(value(freq) - 500.0),
        mean,
        generate,
    );
    (value(offset), held)
}

#[test]
fn a_measured_carrier_is_taken_over() {
    let mut state = ChromaAfcState::new(true, double(0.5), generate);
    assert_eq!(take(&mut state, 512.0, true), (12.0, false));
    assert_eq!(state.cc_freq_mhz, double(0.512));
    assert_eq!(state.cc_phase, double(0.75));
    assert_eq!(state.chroma_heterodyne, generate(double(0.512), double(0.75)));
    assert_eq!(state.meas_stack.as_ref().unwrap().stack, vec![double(512.0)]);
    assert_eq!(state.chroma_log_drift.as_ref().unwrap().stack, vec![double(12.0)]);
    assert_eq!(take(&mut state, 500.0, true), (0.0, false));
    assert_eq!(state.chroma_log_drift.as_ref().unwrap().stack, vec![double(12.0), double(0.0)]);
}

#[test]
fn a_measured_carrier_is_held_in_its_band() {
    let mut state = ChromaAfcState::new(true, double(0.5), generate);
    assert_eq!(take(&mut state, 700.0, true), (100.0, true));
    assert_eq!(state.cc_freq_mhz, double(0.6));
    assert_eq!(take(&mut state, 100.0, true), (-100.0, true));
    assert_eq!(state.cc_freq_mhz, double(0.4));
    assert_eq!(take(&mut state, 600.0, true), (100.0, false));
    assert_eq!(
        state.meas_stack.as_ref().unwrap().stack,
        vec![double(600.0), double(400.0), double(600.0)]
    );
}

#[test]
fn a_carrier_that_is_not_adjusted_keeps_its_frequency() {
    let mut state = ChromaAfcState::new(true, double(0.5), generate);
    assert_eq!(take(&mut state, 512.0, false), (0.0, false));
    assert_eq!(state.cc_freq_mhz, double(0.5));
    assert_eq!(state.chroma_heterodyne, generate(double(0.5), double(0.75)));
    assert_eq!(state.meas_stack.as_ref().unwrap().size(), 0);
    assert_eq!(state.chroma_log_drift.as_ref().unwrap().stack, vec![double(0.0)]);
}

#[test]
fn the_carrier_in_use() {
    let state = ChromaAfcState::new(false, double(0.5), generate);
    let fixed = vec![vec![1u64]];
    assert_eq!(*active_chroma_heterodyne(true, &state, &fixed), state.chroma_heterodyne);
    assert_eq!(*active_chroma_heterodyne(false, &state, &fixed), fixed);
}

fn level(samples: &Vec<f32>) -> f32 {
    samples.iter().sum::<f32>() / samples.len() as f32
}

#[test]
fn the_level_is_taken_off() {
    let output = shift_chroma_and_remove_dc(vec![1.0, 2.0, 3.0, 6.0], 1, level, |a, b| a - b);
    assert_eq!(output, vec![3.0, -2.0, -1.0, 0.0]);
    let output = shift_chroma_and_remove_dc(vec![1.0, 2.0, 3.0, 6.0], -1, level, |a, b| a - b);
    assert_eq!(output, vec![-1.0, 0.0, 3.0, -2.0]);
    let output = shift_chroma_and_remove_dc(vec![], 5, level, |a, b| a - b);
    assert_eq!(output, Vec::<f32>::new());
}

fn scale(filter: &f32, samples: &[f32]) -> Vec<f32> {
    samples.iter().map(|sample| sample * filter + 1.0).collect()
}

#[test]
fn filters_follow_one_another() {
    assert_eq!(chroma_afc_chainfiltfilt(&[], &[1.0, 2.0], &scale), vec![1.0, 2.0]);
    assert_eq!(chroma_afc_chainfiltfilt(&[&2.0], &[1.0, 2.0], &scale), vec![3.0, 5.0]);
    assert_eq!(chroma_afc_chainfiltfilt(&[&2.0, &10.0], &[1.0, 2.0], &scale), vec![31.0, 51.0]);
}

#[test]
fn colour_is_filtered_shifted_and_levelled() {
    let data = [1.0, 2.0, 3.0, 100.0];
    let run = |audio: Option<&f32>, video: Option<&f32>, move_by: Option<isize>| {
        demod_chroma_filt_array(
            &data,
            3,
            &2.0,
            audio,
            video,
            move_by,
            2,
            &scale,
            level,
            |a, b| a - b,
        )
    };
    // 3, 5, 7, around their mean, turned by the default offset.
    assert_eq!(run(None, None, None), vec![0.0, 2.0, -2.0]);
    assert_eq!(run(None, None, Some(0)), vec![-2.0, 0.0, 2.0]);
    // 7, 11, 15, then 22, 34, 46.
    assert_eq!(run(Some(&2.0), None, Some(0)), vec![-4.0, 0.0, 4.0]);
    assert_eq!(run(None, Some(&2.0), Some(0)), vec![-4.0, 0.0, 4.0]);
    assert_eq!(run(Some(&2.0), Some(&3.0), Some(1)), vec![12.0, -12.0, 0.0]);
}

#[test]
fn a_long_block_takes_all_samples() {
    let output = demod_chroma_filt_array(
        &[1.0f32, 3.0],
        9,
        &1.0,
        None,
        None,
        None,
        0,
        &scale,
        level,
        |a, b| a - b,
    );
    assert_eq!(output, vec![-1.0, 1.0]);
}
