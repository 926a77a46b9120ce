use tape_decode::double::{inrange, through_double, whole_in_double, Double, Single};
use tape_decode::levels::{hz_to_output_array, hz_to_output_scalar, OutputLevel};
use tape_decode::rank::{median_from_values, sort_keys, Median};
use tape_decode::rounding::{distance_on_disk, locate_on_disk};

fn double(value: f64) -> Double {
    Double::from_bits(value.to_bits())
}

fn single(value: f32) -> Single {
    Single::from_bits(value.to_bits())
}

const VALUES: [f64; 34] = [
    0.0,
    -0.0,
    0.5,
    -0.5,
    0.49999999999999994,
    1.0,
    -1.0,
    1.5,
    2.5,
    -1.5,
    -2.5,
    3.5,
    1.1,
    -1.1,
    0.9,
    1e-300,
    -1e-300,
    5e-324,
    4503599627370495.5,
    4503599627370496.5,
    9007199254740993.0,
    -9007199254740992.0,
    1e15,
    123456789.75,
    -123456789.25,
    9.3e18,
    -9.3e18,
    9223372036854775807.0,
    -9223372036854775808.0,
    1.9e19,
    1e300,
    f64::INFINITY,
    f64::NEG_INFINITY,
    f64::NAN,
];

#[test]
fn doubles_compare_as_numbers() {
    for a in VALUES {
        for b in VALUES {
            assert_eq!(double(a).lt(double(b)), a < b, "{} < {}", a, b);
            assert_eq!(double(a).le(double(b)), a <= b, "{} <= {}", a, b);
            assert_eq!(double(a).is_same(double(b)), a == b, "{} == {}", a, b);
        }
        assert_eq!(double(a).is_nan(), a.is_nan());
    }
}

#[test]
fn singles_compare_as_numbers() {
    for a in VALUES {
        for b in VALUES {
            let (a, b) = (a as f32, b as f32);
            assert_eq!(single(a).lt(single(b)), a < b);
            assert_eq!(single(a).le(single(b)), a <= b);
        }
        assert_eq!(single(a as f32).is_nan(), (a as f32).is_nan());
    }
}

#[test]
fn doubles_become_whole_numbers() {
    for a in VALUES {
        assert_eq!(double(a).to_i64(), a as i64, "{} as i64", a);
        assert_eq!(double(a).to_u64(), a as u64, "{} as u64", a);
        assert_eq!(double(a).floor_to_i64(), a.floor() as i64, "floor of {}", a);
        assert_eq!(double(a).ceil_to_i64(), a.ceil() as i64, "ceiling of {}", a);
        assert_eq!(
            double(a).round_to_i64(),
            a.round_ties_even() as i64,
            "{} rounded",
            a
        );
    }
}

#[test]
fn halves_round_to_even() {
    assert_eq!(double(0.5).round_to_i64(), 0);
    assert_eq!(double(1.5).round_to_i64(), 2);
    assert_eq!(double(2.5).round_to_i64(), 2);
    assert_eq!(double(-2.5).round_to_i64(), -2);
    assert_eq!(double(-3.5).round_to_i64(), -4);
}

#[test]
fn ranges_include_both_ends() {
    let within = |a: f64| inrange(double(a), double(0.9), double(1.1));
    assert!(within(0.9));
    assert!(within(1.0));
    assert!(within(1.1));
    assert!(!within(0.8999999999999999));
    assert!(!within(1.1000000000000003));
    assert!(!within(f64::NAN));
    assert!(!inrange(double(1.0), double(f64::NAN), double(2.0)));
}

#[test]
fn the_middle_key_is_found() {
    assert_eq!(median_from_values(&mut []), Median::Nothing);
    assert_eq!(median_from_values(&mut [7]), Median::One(7));
    assert_eq!(median_from_values(&mut [9, 1, 5]), Median::One(5));
    assert_eq!(median_from_values(&mut [9, 1]), Median::Two(1, 9));
    assert_eq!(median_from_values(&mut [4, 8, 6, 2]), Median::Two(4, 6));
    assert_eq!(median_from_values(&mut [3, 3, 3, 3, 1]), Median::One(3));
    assert_eq!(
        median_from_values(&mut [i64::MAX, i64::MIN, 0]),
        Median::One(0)
    );
}

#[test]
fn the_middle_is_that_of_the_sorted_keys() {
    let mut state: u64 = 1;
    for count in 1..60usize {
        let mut keys = Vec::new();
        for _ in 0..count {
            state = state.wrapping_mul(6364136223846793005).wrapping_add(1442695040888963407);
            keys.push((state >> 58) as i64 - 30);
        }
        let ordered = sort_keys(keys.clone());
        let mut expected = keys.clone();
        expected.sort();
        assert_eq!(ordered, expected);
        let median = median_from_values(&mut keys);
        if count % 2 == 0 {
            assert_eq!(median, Median::Two(ordered[count / 2 - 1], ordered[count / 2]));
        } else {
            assert_eq!(median, Median::One(ordered[count / 2]));
        }
        keys.sort();
        assert_eq!(keys, expected);
    }
}

#[test]
fn whole_numbers_go_through_doubles() {
    for shift in 0..63u32 {
        for around in -3i64..4 {
            let number = (1i64 << shift).wrapping_add(around);
            for number in [number, -number, number.wrapping_mul(3), i64::MAX - around.abs()] {
                assert_eq!(through_double(number), (number as f64).floor() as i64, "{}", number);
            }
        }
    }
    assert_eq!(through_double(i64::MAX), i64::MAX);
    assert_eq!(through_double(i64::MIN), i64::MIN);
    assert_eq!(through_double(9007199254740993), 9007199254740992);
    assert_eq!(through_double(-9007199254740995), -9007199254740996);
    assert_eq!(through_double(123456789), 123456789);
}

#[test]
fn numbers_become_samples() {
    for a in VALUES.into_iter().chain([255.99, 256.0, 65534.99, 65535.0, 65535.5, 65536.0, 7e4]) {
        assert_eq!(double(a).to_u16(), a as u16, "{} as u16", a);
        let narrow = a as f32;
        assert_eq!(single(narrow).to_u16(), narrow as u16, "{} as u16", narrow);
        assert_eq!(single(narrow).negate().bits, (-narrow).to_bits());
    }
    for k in 0..70_000u32 {
        let a = k as f32 - 0.25;
        assert_eq!(single(a).to_u16(), a as u16, "{} as u16", a);
    }
}

#[test]
fn numbers_are_held_in_a_range() {
    for a in VALUES {
        for (low, high) in [(0.0, 65535.0), (-1.5, 1.1), (-0.0, 0.0), (2.5, 2.5)] {
            let held = a.clamp(low, high);
            assert_eq!(double(a).clip(double(low), double(high)).bits, held.to_bits());
            let (a, low, high) = (a as f32, low as f32, high as f32);
            let held = a.clamp(low, high);
            assert_eq!(single(a).clip(single(low), single(high)).bits, held.to_bits());
        }
    }
}

#[test]
fn doubles_come_apart() {
    assert_eq!(double(1.0).parts(), (1 << 52, -52));
    assert_eq!(double(-0.1).parts(), (7205759403792794, -56));
    assert_eq!(double(5e-324).parts(), (1, -1074));
    assert_eq!(double(0.0).parts(), (0, -1074));
    for a in [0.0, 0.5, 1.5, 2.5, 2.6, 1e15, 4503599627370495.5, 9007199254740993.0, 1e27, 4e27] {
        assert_eq!(double(a).round_to_u128(), a.round_ties_even() as u128, "{} rounded", a);
    }
}

#[test]
fn doubles_hold_whole_numbers() {
    for number in [0, 1, 9007199254740991, 9007199254740993, u64::MAX, u64::MAX - 1024, u64::MAX - 1023] {
        assert_eq!(whole_in_double(number), number as f64 as u128, "{}", number);
    }
}

/// A place on the disk by floating-point arithmetic.
fn place(file_loc: i64, field_len: usize) -> f64 {
    (file_loc as f64 / field_len as f64 * 10.0).round_ties_even() / 10.0
}

#[test]
fn places_on_the_disk_are_in_tenths() {
    assert_eq!(locate_on_disk(0, 477_750).bits, 0.0f64.to_bits());
    assert_eq!(locate_on_disk(477_750, 477_750).bits, 1.0f64.to_bits());
    assert_eq!(locate_on_disk(477_750 * 7 / 2, 477_750).bits, 3.5f64.to_bits());
    assert_eq!(locate_on_disk(1, 3).bits, 0.3f64.to_bits());
    assert_eq!(locate_on_disk(-2, 3).bits, (-0.7f64).to_bits());
    // Halves of a tenth go to the even one.
    assert_eq!(locate_on_disk(1, 4).bits, 0.2f64.to_bits());
    assert_eq!(locate_on_disk(3, 4).bits, 0.8f64.to_bits());
    // Nothing is left of a place before the start but its sign.
    assert_eq!(locate_on_disk(-1, 100).bits, (-0.0f64).to_bits());
}

#[test]
fn places_on_the_disk_agree_with_the_arithmetic() {
    let mut state: u64 = 7;
    let mut next = |bits: u32| {
        state = state.wrapping_mul(6364136223846793005).wrapping_add(1442695040888963407);
        (state >> 1) >> (63 - bits)
    };
    for _ in 0..2000 {
        for (loc_bits, len_bits) in [(30, 19), (40, 20), (53, 10), (63, 1), (63, 63), (10, 60), (62, 33)] {
            let file_loc = next(loc_bits) as i64;
            let field_len = next(len_bits) as usize + 1;
            for file_loc in [file_loc, -file_loc] {
                assert_eq!(
                    locate_on_disk(file_loc, field_len).bits,
                    place(file_loc, field_len).to_bits(),
                    "{} / {}",
                    file_loc,
                    field_len
                );
            }
        }
    }
    for file_loc in [i64::MIN, i64::MIN + 1, -1, 0, 1, i64::MAX - 512, i64::MAX - 511, i64::MAX] {
        for field_len in [1, 2, 3, 10, 477_750, 9007199254740993, usize::MAX] {
            assert_eq!(
                locate_on_disk(file_loc, field_len).bits,
                place(file_loc, field_len).to_bits()
            );
        }
    }
}

#[test]
fn fields_without_samples_lie_nowhere() {
    assert_eq!(locate_on_disk(5, 0).bits, f64::INFINITY.to_bits());
    assert_eq!(locate_on_disk(-5, 0).bits, f64::NEG_INFINITY.to_bits());
    assert!(locate_on_disk(0, 0).is_nan());
}

#[test]
fn signals_are_encoded_sample_by_sample() {
    let scale = |(factor, offset): (f32, f32), sample: Single| {
        single(f32::from_bits(sample.bits) * factor + offset)
    };
    let input: Vec<Single> = [0.0f32, 1.0, -3.0, 0.249, 1e9, f32::NAN, f32::NEG_INFINITY]
        .map(single)
        .to_vec();
    let output = hz_to_output_array(&input, (1000.0f32, 2000.5f32), &scale);
    assert_eq!(output, vec![2000, 3000, 0, 2249, 65535, 0, 0]);
    assert_eq!(hz_to_output_array(&[], (1.0f32, 0.0f32), &scale), Vec::<u16>::new());
}

#[test]
fn levels_are_raw_or_encoded() {
    let number = |d: Double| f64::from_bits(d.bits);
    let scaled = |hz: Double, scale: Double| double(number(hz) * number(scale) + 3.0);
    let add_half = |level: Double| double(number(level) + 0.5);
    let level = |raw: bool, hz: f64| {
        hz_to_output_scalar(raw, double(hz), double(10.0), &scaled, &add_half)
    };
    assert_eq!(level(true, 12.34), OutputLevel::Raw(double(12.34)));
    assert_eq!(level(false, 12.34), OutputLevel::Encoded(126));
    assert_eq!(level(false, 12.36), OutputLevel::Encoded(127));
    assert_eq!(level(false, -12.0), OutputLevel::Encoded(0));
    assert_eq!(level(false, 7000.0), OutputLevel::Encoded(65535));
    assert_eq!(level(false, f64::NAN), OutputLevel::Encoded(0));
}

#[test]
fn distances_on_the_disk_agree_with_the_arithmetic() {
    let agree = |file_loc: i64, previous: i64, field_len: usize| {
        let expected = place(file_loc, field_len) - place(previous, field_len);
        let found = distance_on_disk(file_loc, previous, field_len);
        assert_eq!(found.bits, expected.to_bits(), "{} {} {}", file_loc, previous, field_len);
    };
    // Two tenths are apart by no more than what doubles hold of them.
    agree(3, 2, 10);
    agree(9, 8, 10);
    agree(477_750 * 11 / 10, 0, 477_750);
    let mut state: u64 = 11;
    let mut next = |bits: u32| {
        state = state.wrapping_mul(6364136223846793005).wrapping_add(1442695040888963407);
        (state >> 1) >> (63 - bits)
    };
    for _ in 0..1000 {
        for (loc_bits, other_bits, len_bits) in
            [(30, 30, 19), (40, 20, 5), (53, 53, 10), (63, 3, 1), (3, 63, 1), (63, 63, 63), (62, 8, 2)]
        {
            let (loc, other) = (next(loc_bits) as i64, next(other_bits) as i64);
            let field_len = next(len_bits) as usize + 1;
            agree(loc, other, field_len);
            agree(-loc, other, field_len);
            agree(loc, -other, field_len);
            agree(-loc, -other, field_len);
            agree(loc, loc, field_len);
            agree(loc, loc.wrapping_sub(field_len as i64), field_len);
        }
    }
    for file_loc in [i64::MIN, -100, -1, 0, 1, 100, i64::MAX] {
        for previous in [i64::MIN, -100, -1, 0, 1, 100, i64::MAX] {
            for field_len in [1, 3, 1000, usize::MAX] {
                agree(file_loc, previous, field_len);
            }
        }
    }
}

#[test]
fn places_nowhere_have_no_distance() {
    assert!(distance_on_disk(5, 6, 0).is_nan());
    assert!(distance_on_disk(0, 6, 0).is_nan());
    assert!(distance_on_disk(6, 0, 0).is_nan());
    assert_eq!(distance_on_disk(5, -5, 0).bits, f64::INFINITY.to_bits());
    assert_eq!(distance_on_disk(-5, 5, 0).bits, f64::NEG_INFINITY.to_bits());
}
