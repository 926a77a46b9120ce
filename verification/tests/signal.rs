use tape_decode::comb::{chromasep_comb, y_comb};
use tape_decode::double::{Double, Single};
use tape_decode::pulses::{chunk_crosses, findpulses_raw};
use tape_decode::resample::{at_rate, cubic_resample, sample_clamped};
use tape_decode::separation::{limit_denominator, ChromaSepClass};

fn double(value: f64) -> Double {
    Double::from_bits(value.to_bits())
}

fn single(value: f32) -> Single {
    Single::from_bits(value.to_bits())
}

fn signal(values: &[f32]) -> Vec<Single> {
    values.iter().map(|&value| single(value)).collect()
}

fn value(number: Single) -> f32 {
    f32::from_bits(number.bits)
}

fn line_comb(values: &[f32], line_len: usize, limit: f32) -> Vec<f32> {
    let combed = y_comb(
        &signal(values),
        line_len,
        single(limit),
        |current, ahead, behind| {
            let (current, ahead, behind) = (value(current), value(ahead), value(behind));
            single((current - ahead) + (current - behind))
        },
        |current, held| single(value(current) - value(held) / 2.0),
    );
    combed.into_iter().map(value).collect()
}

#[test]
fn a_line_comb_pairs_lines() {
    let triples = y_comb(
        &signal(&[0.0, 1.0, 2.0, 3.0]),
        1,
        single(f32::INFINITY),
        |current, ahead, behind| {
            single(100.0 * value(current) + 10.0 * value(ahead) + value(behind))
        },
        |_, held| held,
    );
    assert_eq!(triples, signal(&[13.0, 120.0, 231.0, 302.0]));
}

#[test]
fn a_line_comb_halves_what_stands_out() {
    assert_eq!(line_comb(&[1.0, 2.0, 3.0, 8.0], 1, 10.0), vec![5.0, 2.0, 5.0, 3.0]);
    // The middle of the lines before and behind, where nothing holds it back.
    assert_eq!(line_comb(&[1.0, 2.0, 3.0, 8.0], 1, 100.0), vec![5.0, 2.0, 5.0, 2.0]);
    assert_eq!(line_comb(&[1.0, 2.0, 3.0, 8.0], 1, 1.0), vec![1.5, 2.0, 3.5, 7.5]);
    assert_eq!(line_comb(&[1.0, 2.0, 3.0, 8.0], 1, 0.0), vec![1.0, 2.0, 3.0, 8.0]);
}

#[test]
fn a_line_comb_goes_around_any_length() {
    assert_eq!(line_comb(&[1.0, 2.0, 4.0], 7, 100.0), vec![3.0, 2.5, 1.5]);
    assert_eq!(line_comb(&[1.0, 2.0, 3.0], 6, 100.0), vec![1.0, 2.0, 3.0]);
    assert_eq!(line_comb(&[], 5, 1.0), Vec::<f32>::new());
    // Without samples the limit is of no matter.
    assert_eq!(line_comb(&[], 5, f32::NAN), Vec::<f32>::new());
}

#[test]
fn a_delay_comb_goes_around_the_front() {
    let combed = chromasep_comb(&[2.0f32, 4.0, 6.0, 8.0, 10.0], 2, |a, b| (a + b) * 0.5);
    assert_eq!(combed, vec![5.0, 7.0, 4.0, 6.0, 8.0]);
    assert_eq!(chromasep_comb(&[1, 2, 3], 4, |a, b| a * 10 + b), vec![13, 21, 32]);
    assert_eq!(chromasep_comb(&[1, 2, 3], 0, |a, b| a * 10 + b), vec![11, 22, 33]);
    assert_eq!(chromasep_comb(&[], 4, |a: i32, _| a), Vec::<i32>::new());
}

#[test]
fn samples_are_held_inside() {
    assert_eq!(sample_clamped(&[5, 6, 7], -1), 5);
    assert_eq!(sample_clamped(&[5, 6, 7], isize::MIN), 5);
    assert_eq!(sample_clamped(&[5, 6, 7], 1), 6);
    assert_eq!(sample_clamped(&[5, 6, 7], 3), 7);
    assert_eq!(sample_clamped(&[5, 6, 7], isize::MAX), 7);
}

/// Catmull-Rom weights of a phase.
fn weights(p: usize, offset: usize, input_rate: usize, output_rate: usize) -> [f32; 4] {
    let scale = input_rate as f64 / output_rate as f64;
    let f = (p as f64 * scale - offset as f64) as f32;
    let f2 = f * f;
    let f3 = f2 * f;
    [
        -0.5 * f3 + f2 - 0.5 * f,
        1.5 * f3 - 2.5 * f2 + 1.0,
        -1.5 * f3 + 2.0 * f2 + 0.5 * f,
        0.5 * f3 - 0.5 * f2,
    ]
}

fn mix(w: [f32; 4], a: f32, b: f32, c: f32, d: f32) -> f32 {
    w[0] * a + w[1] * b + w[2] * c + w[3] * d
}

fn resample(data: &[f32], input_rate: usize, output_rate: usize) -> Vec<f32> {
    let weigh = |p, offset| weights(p, offset, input_rate, output_rate);
    cubic_resample(data, input_rate, output_rate, weigh, &mix)
}

#[test]
fn resampling_to_the_same_rate_changes_nothing() {
    assert_eq!(resample(&[3.0, 1.0, 2.0], 7, 7), vec![3.0, 1.0, 2.0]);
    assert_eq!(resample(&[], 7, 3), Vec::<f32>::new());
}

#[test]
fn doubling_the_rate_interpolates() {
    // Samples that stay, and means with the outer neighbours weighed in.
    let out = resample(&[0.0, 16.0, 32.0, 16.0], 1, 2);
    assert_eq!(out, vec![0.0, 7.0, 16.0, 26.0, 32.0, 25.0, 16.0, 15.0]);
}

#[test]
fn halving_the_rate_takes_every_other_sample() {
    assert_eq!(resample(&[1.0, 2.0, 3.0, 4.0, 5.0], 2, 1), vec![1.0, 3.0]);
    assert_eq!(resample(&[1.0], 2, 1), Vec::<f32>::new());
}

#[test]
fn whole_positions_keep_their_samples() {
    let data: Vec<f32> = (0..23).map(|i| (i * i) as f32).collect();
    for k in 1..6usize {
        for m in 1..5usize {
            let out = resample(&data, k * m, m);
            assert_eq!(out.len(), data.len() / k);
            for (i, &value) in out.iter().enumerate() {
                assert_eq!(value, data[i * k]);
            }
        }
        let out = resample(&data, 1, k);
        assert_eq!(out.len(), data.len() * k);
        for (i, &value) in data.iter().enumerate() {
            assert_eq!(out[i * k], value);
        }
    }
}

#[test]
fn every_sample_is_mixed_from_the_held_input_around_it() {
    for (input_rate, output_rate) in [(3usize, 5usize), (5, 3), (7, 16), (16, 7), (1, 9), (2, 3)] {
        for len in 1..40usize {
            let data: Vec<f32> = (0..len).map(|i| ((i * 37) % 23) as f32).collect();
            let out = resample(&data, input_rate, output_rate);
            assert_eq!(out.len(), len * output_rate / input_rate);
            for (i, &value) in out.iter().enumerate() {
                let idx = (i * input_rate / output_rate) as isize;
                let phase = i % output_rate;
                let w = weights(phase, phase * input_rate / output_rate, input_rate, output_rate);
                let at = |k: isize| data[k.clamp(0, len as isize - 1) as usize];
                assert_eq!(value, mix(w, at(idx - 1), at(idx), at(idx + 1), at(idx + 2)));
            }
        }
    }
}

#[test]
fn resampled_taps_go_by_cycles_and_never_back() {
    let data: Vec<usize> = (0..50).collect();
    let taps = cubic_resample(&data, 5, 8, |_, _| (), &|_, _, at, _, _| at);
    assert_eq!(taps.len(), 80);
    for i in 0..taps.len() {
        assert_eq!(taps[i], i / 8 * 5 + taps[i % 8]);
        assert!(taps[i] < data.len());
        if i > 0 {
            assert!(taps[i - 1] <= taps[i]);
        }
    }
}

fn nearest_ratio(x: f64) -> impl Fn(usize) -> (usize, Double) {
    move |den| {
        let num = (x * den as f64).round() as usize;
        (num, double((x - num as f64 / den as f64).abs()))
    }
}

#[test]
fn the_best_ratio_comes_first() {
    assert_eq!(limit_denominator(1000, nearest_ratio(0.5)), (1, 2));
    assert_eq!(limit_denominator(1000, nearest_ratio(3.0)), (3, 1));
    assert_eq!(limit_denominator(10, nearest_ratio(3.14159265)), (22, 7));
    assert_eq!(limit_denominator(1000, nearest_ratio(3.14159265)), (355, 113));
}

#[test]
fn no_ratio_is_zero() {
    assert_eq!(limit_denominator(1000, nearest_ratio(f64::NAN)), (0, 1));
    assert_eq!(limit_denominator(0, nearest_ratio(0.5)), (0, 1));
}

fn separator() -> ChromaSepClass {
    // The comb works at eight times the carrier frequency.
    let fscx = (4.43361875f64 * 8.0 * 1e6) as usize;
    ChromaSepClass::new(nearest_ratio(fscx as f64 / 40e6))
}

fn separate(separator: &ChromaSepClass, luminance: &[f32]) -> Vec<f32> {
    let (num, den) = (separator.ratio_num, separator.ratio_den);
    separator.work(
        luminance,
        |p, offset| weights(p, offset, den, num),
        |p, offset| weights(p, offset, num, den),
        &mix,
        |a: f32, b: f32| (a + b) * 0.5,
    )
}

#[test]
fn a_separator_knows_its_ratio() {
    let separator = separator();
    assert_eq!((separator.ratio_num, separator.ratio_den), (728, 821));
    assert_eq!(separator.delay, 4);
}

#[test]
fn separation_keeps_length_and_level() {
    let separator = separator();
    for len in [100usize, 1000, 4321] {
        let output = separate(&separator, &vec![2.5f32; len]);
        assert_eq!(output.len(), len);
        for value in output {
            assert!((value - 2.5).abs() < 1e-4);
        }
    }
    assert_eq!(separate(&separator, &[]), Vec::<f32>::new());
    let nothing = ChromaSepClass { ratio_num: 0, ratio_den: 1, delay: 4 };
    assert_eq!(separate(&nothing, &[]), Vec::<f32>::new());
}

#[test]
fn separation_at_the_carrier_rate_only_combs() {
    let plain = ChromaSepClass { ratio_num: 1, ratio_den: 1, delay: 4 };
    let input = [8.0f32, 0.0, 0.0, 0.0, 0.0, 0.0];
    assert_eq!(separate(&plain, &input), vec![4.0, 0.0, 0.0, 0.0, 4.0, 0.0]);
}

#[test]
fn separation_shortens_very_short_signals() {
    // Nothing is left of two samples at a third of their rate.
    let third_rate = ChromaSepClass { ratio_num: 1, ratio_den: 3, delay: 4 };
    assert_eq!(separate(&third_rate, &[1.0, 2.0]), Vec::<f32>::new());
}

#[test]
fn a_chunk_crosses_the_threshold() {
    let chunk = signal(&[1.0, 2.0, 3.0]);
    assert!(chunk_crosses(&chunk, single(2.5), true));
    assert!(!chunk_crosses(&chunk, single(3.0), true));
    assert!(chunk_crosses(&chunk, single(1.0), false));
    assert!(!chunk_crosses(&chunk, single(0.5), false));
    assert!(!chunk_crosses(&signal(&[f32::NAN]), single(0.5), false));
    assert!(!chunk_crosses(&signal(&[f32::NAN]), single(0.5), true));
    assert!(!chunk_crosses(&[], single(0.5), true));
}

fn pulses(values: &[f32], min: f64, max: f64) -> (Vec<i64>, Vec<i64>) {
    findpulses_raw(&signal(values), single(0.0), double(min), double(max))
}

#[test]
fn pulses_are_stretches_at_or_below_the_threshold() {
    let values = [1.0, 0.0, -1.0, 1.0, 1.0, -2.0, 2.0, 0.0, 0.0, 0.0, 1.0];
    assert_eq!(pulses(&values, 1.0, 10.0), (vec![1, 5, 7], vec![2, 1, 3]));
    assert_eq!(pulses(&values, 2.0, 10.0), (vec![1, 7], vec![2, 3]));
    assert_eq!(pulses(&values, 1.0, 2.0), (vec![1, 5], vec![2, 1]));
    // Lengths between two bounds that are no whole numbers.
    assert_eq!(pulses(&values, 1.5, 2.5), (vec![1], vec![2]));
    assert_eq!(pulses(&values, 2.25, 2.75), (vec![], vec![]));
}

#[test]
fn pulses_at_the_ends_do_not_count() {
    assert_eq!(pulses(&[0.0, 0.0, 1.0, 1.0], 0.0, 9.0), (vec![], vec![]));
    assert_eq!(pulses(&[1.0, 0.0, 0.0], 0.0, 9.0), (vec![], vec![]));
    assert_eq!(pulses(&[1.0], 0.0, 9.0), (vec![], vec![]));
}

#[test]
fn no_length_lies_between_no_numbers() {
    let values = [1.0, 0.0, 1.0];
    assert_eq!(pulses(&values, f64::NAN, 9.0), (vec![], vec![]));
    assert_eq!(pulses(&values, 0.0, f64::NAN), (vec![], vec![]));
    assert_eq!(
        pulses(&values, f64::NEG_INFINITY, f64::INFINITY),
        (vec![1], vec![1])
    );
}

#[test]
fn samples_that_are_no_numbers_change_nothing() {
    let values = [1.0, f32::NAN, 0.0, f32::NAN, 0.0, 1.0];
    assert_eq!(pulses(&values, 0.0, 9.0), (vec![2], vec![3]));
}

#[test]
fn pulses_cross_chunks() {
    let mut values = vec![1.0f32; 400];
    for sample in &mut values[60..70] {
        *sample = -1.0;
    }
    for sample in &mut values[128..330] {
        *sample = 0.0;
    }
    values[398] = -1.0;
    assert_eq!(
        pulses(&values, 0.0, 1000.0),
        (vec![60, 128, 398], vec![10, 202, 1])
    );
}

#[test]
fn lengths_follow_the_rates() {
    assert_eq!(at_rate(10, 2, 3), Some(15));
    assert_eq!(at_rate(10, 3, 2), Some(6));
    assert_eq!(at_rate(10, 3, 0), Some(0));
    assert_eq!(at_rate(0, 3, usize::MAX), Some(0));
    assert_eq!(at_rate(usize::MAX, 7, 7), Some(usize::MAX));
    assert_eq!(at_rate(usize::MAX, 1, 2), None);
    assert_eq!(at_rate(usize::MAX, usize::MAX, 5), Some(5));
}

#[test]
fn separation_needs_two_rates() {
    let separator = |ratio_num: usize, ratio_den: usize| {
        let mut separator = ChromaSepClass::new(|_| (1, double(0.0)));
        separator.ratio_num = ratio_num;
        separator.ratio_den = ratio_den;
        separator
    };
    assert!(separator(0, 0).works_on(0));
    assert!(!separator(0, 3).works_on(1));
    assert!(!separator(3, 0).works_on(1));
    assert!(separator(3, 2).works_on(1000));
    assert!(!separator(2, 1).works_on(usize::MAX));
    assert!(separator(1, 2).works_on(usize::MAX));
}
