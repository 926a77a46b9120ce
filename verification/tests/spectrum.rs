use tape_decode::double::{Double, Single};
use tape_decode::spectrum::{
    cafc_fft_center_freq, fine_tune_frequency, fine_tune_step, hilbert, CarrierError, TuneStep,
};

fn double(value: f64) -> Double {
    Double::from_bits(value.to_bits())
}

fn value(number: Double) -> f64 {
    f64::from_bits(number.bits)
}

#[test]
fn an_even_spectrum_keeps_two_bins() {
    let analytic = hilbert(vec![1, 2, 3, 4, 5, 6], |bin| bin * 2, 0);
    assert_eq!(analytic, vec![1, 4, 6, 4, 0, 0]);
}

#[test]
fn an_odd_spectrum_keeps_one_bin() {
    let analytic = hilbert(vec![1, 2, 3, 4, 5], |bin| bin * 2, 0);
    assert_eq!(analytic, vec![1, 4, 6, 0, 0]);
}

#[test]
fn short_spectra_stay() {
    assert_eq!(hilbert(vec![7], |bin| bin * 2, 0), vec![7]);
    assert_eq!(hilbert(vec![7, 8], |bin| bin * 2, 0), vec![7, 8]);
    assert_eq!(hilbert(vec![], |bin: i32| bin * 2, 0), Vec::<i32>::new());
}

#[test]
fn the_nearest_frequency_is_taken() {
    let step = |here, more, less| fine_tune_step(double(here), double(more), double(less));
    assert_eq!(step(1.0, 2.0, 3.0), TuneStep::Stay);
    assert_eq!(step(3.0, 2.0, 4.0), TuneStep::More);
    assert_eq!(step(3.0, 4.0, 2.0), TuneStep::Less);
    // Ties go to one step less.
    assert_eq!(step(1.0, 1.0, 1.0), TuneStep::Less);
    assert_eq!(step(1.0, 1.0, 3.0), TuneStep::More);
    assert_eq!(step(f64::NAN, 2.0, 1.0), TuneStep::Less);
}

fn tune(freq: f64, color_under: f64, max_step: f64) -> f64 {
    value(fine_tune_frequency(
        double(freq),
        double(color_under),
        double(max_step),
        &|at| double((value(at) - color_under).abs()),
        &|at| double(value(at) + max_step),
        &|at| double(value(at) - max_step),
    ))
}

#[test]
fn tuning_walks_towards_the_carrier() {
    assert_eq!(tune(1000.0, 100.0, 30.0), 100.0);
    assert_eq!(tune(-1000.0, 100.0, 30.0), 110.0);
    assert_eq!(tune(100.0, 100.0, 30.0), 100.0);
    // Half a step off, one step less is taken.
    assert_eq!(tune(115.0, 100.0, 30.0), 85.0);
    assert_eq!(tune(85.0, 100.0, 30.0), 115.0);
    assert_eq!(tune(120.0, 100.0, 30.0), 90.0);
    assert_eq!(tune(80.0, 100.0, 30.0), 110.0);
}

#[test]
fn tuning_ends_at_the_nearest_of_the_grid() {
    for freq in -50i64..50 {
        for carrier in [-7i64, 0, 13] {
            for step in 1i64..12 {
                let tuned = tune(freq as f64, carrier as f64, step as f64) as i64;
                assert_eq!((tuned - freq) % step, 0);
                let nearest = (-200..200).map(|k| (freq + k * step - carrier).abs()).min();
                assert_eq!(Some((tuned - carrier).abs()), nearest);
                if 2 * (freq - carrier).abs() < step {
                    assert_eq!(tuned, freq);
                }
            }
        }
    }
}

/// A search with bins 10 apart and a step of 40.
fn search(power: &[f32], color_under: f64) -> Result<(f64, f64), CarrierError> {
    let power: Vec<Single> = power.iter().map(|p| Single::from_bits(p.to_bits())).collect();
    let max_step = 40.0;
    cafc_fft_center_freq(
        &power,
        double(color_under),
        double(max_step),
        |most| Single::from_bits((f32::from_bits(most.bits) * 0.25).to_bits()),
        |bin| double(bin as f64 * 10.0),
        |at| double((value(at) - color_under).abs()),
        |at| double(value(at) + max_step),
        |at| double(value(at) - max_step),
        |bin| double(bin as f64 / 8.0),
    )
    .map(|(freq, phase)| (value(freq), value(phase)))
}

#[test]
fn a_carrier_needs_samples() {
    assert_eq!(search(&[], 0.0), Err(CarrierError::TooFewSamples));
    assert_eq!(search(&[1.0, 2.0], 0.0), Err(CarrierError::TooFewSamples));
    assert_eq!(search(&[1.0; 3], 0.0), Err(CarrierError::NoInteriorBins));
    assert_eq!(search(&[1.0; 4], 0.0), Err(CarrierError::NoInteriorBins));
}

#[test]
fn a_peak_needs_seven_samples() {
    assert_eq!(search(&[1.0, 1.0, 9.0, 1.0, 1.0, 1.0], 20.0), Err(CarrierError::NoPeak));
    assert_eq!(search(&[1.0, 1.0, 9.0, 1.0, 1.0, 1.0, 1.0], 20.0), Ok((20.0, 0.25)));
}

#[test]
fn a_flat_spectrum_has_no_carrier() {
    assert_eq!(search(&[1.0; 5], 0.0), Err(CarrierError::NoPeak));
    assert_eq!(search(&[1.0; 20], 0.0), Err(CarrierError::NoPeak));
    // Everything below a quarter of the greatest power counts as equal.
    let mut power = [1.0f32; 20];
    power[4] = 2.0;
    power[15] = 8.0;
    assert_eq!(search(&power, 0.0), Err(CarrierError::NoPeak));
    // Neither the constant bin nor its neighbour is a peak.
    let mut power = [1.0f32; 20];
    power[1] = 2.0;
    assert_eq!(search(&power, 0.0), Err(CarrierError::NoPeak));
    let mut power = [1.0f32; 20];
    power[9] = 2.0;
    assert_eq!(search(&power, 0.0), Err(CarrierError::NoPeak));
}

#[test]
fn the_nearest_peak_is_the_carrier() {
    let mut power = [1.0f32; 20];
    power[2] = 8.0;
    power[5] = 9.0;
    power[8] = 8.5;
    assert_eq!(search(&power, 50.0), Ok((50.0, 0.625)));
    assert_eq!(search(&power, 21.0), Ok((20.0, 0.25)));
    assert_eq!(search(&power, 90.0), Ok((80.0, 1.0)));
    // Of two equally near peaks, the lower one.
    assert_eq!(search(&power, 35.0), Ok((20.0, 0.25)));
}

#[test]
fn the_carrier_is_tuned_and_may_have_no_bin() {
    let mut power = [1.0f32; 20];
    power[8] = 8.0;
    // Two steps down from 80, to where there is a bin of that frequency.
    assert_eq!(search(&power, 0.0), Ok((0.0, 0.0)));
    // Bins of negative frequency count from the end.
    assert_eq!(search(&power, -40.0), Ok((-40.0, 2.0)));
    assert_eq!(search(&power, 200.0), Ok((200.0, 0.0)));
}

#[test]
fn no_carrier_is_infinitely_far_off() {
    let mut power = [1.0f32; 20];
    power[5] = 8.0;
    assert_eq!(search(&power, f64::NAN), Err(CarrierError::NoPeak));
}
