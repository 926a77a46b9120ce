use tape_decode::slices::{demod_slice_bounds, pad_or_truncate, resolve_slice_bound, roll};

#[test]
fn bounds_count_from_either_end() {
    assert_eq!(resolve_slice_bound(10, 3), 3);
    assert_eq!(resolve_slice_bound(10, 10), 10);
    assert_eq!(resolve_slice_bound(10, 12), 10);
    assert_eq!(resolve_slice_bound(10, -4), 6);
    assert_eq!(resolve_slice_bound(10, -10), 0);
    assert_eq!(resolve_slice_bound(10, -12), 0);
    assert_eq!(resolve_slice_bound(10, isize::MIN), 0);
    assert_eq!(resolve_slice_bound(10, isize::MAX), 10);
    assert_eq!(resolve_slice_bound(0, -1), 0);
}

#[test]
fn short_data_is_padded_from_before_its_end() {
    // Two samples are missing: those of the filler that end where the data does.
    assert_eq!(
        pad_or_truncate(&[1, 2, 3, 4], &[10, 11, 12, 13, 14, 15]),
        vec![1, 2, 3, 4, 12, 13]
    );
    // As many are missing as there are.
    assert_eq!(
        pad_or_truncate(&[1, 2], &[10, 11, 12, 13]),
        vec![1, 2, 10, 11]
    );
}

#[test]
fn very_short_data_is_left_alone() {
    assert_eq!(pad_or_truncate(&[1, 2], &[10, 11, 12, 13, 14]), vec![1, 2]);
    assert_eq!(pad_or_truncate(&[], &[10, 11]), Vec::<i32>::new());
}

#[test]
fn long_data_keeps_its_end() {
    assert_eq!(pad_or_truncate(&[1, 2, 3, 4, 5], &[0, 0]), vec![4, 5]);
    assert_eq!(pad_or_truncate(&[1, 2, 3], &[0, 0, 0]), vec![1, 2, 3]);
    assert_eq!(pad_or_truncate(&[1, 2, 3], &[]), Vec::<i32>::new());
}

#[test]
fn measurements_are_held_inside() {
    assert_eq!(demod_slice_bounds(100, 10, 20), Some((10, 20)));
    assert_eq!(demod_slice_bounds(100, -10, 20), Some((0, 20)));
    assert_eq!(demod_slice_bounds(100, 90, 120), Some((90, 100)));
    assert_eq!(demod_slice_bounds(100, i64::MIN, i64::MAX), Some((0, 100)));
    assert_eq!(demod_slice_bounds(100, 20, 20), None);
    assert_eq!(demod_slice_bounds(100, 30, 20), None);
    assert_eq!(demod_slice_bounds(100, 100, 120), None);
    assert_eq!(demod_slice_bounds(0, 0, 1), None);
}

#[test]
fn rolling_goes_around_the_end() {
    let mut values = [1, 2, 3, 4, 5];
    roll(&mut values, 2);
    assert_eq!(values, [4, 5, 1, 2, 3]);
    roll(&mut values, -2);
    assert_eq!(values, [1, 2, 3, 4, 5]);
    roll(&mut values, -1);
    assert_eq!(values, [2, 3, 4, 5, 1]);
    roll(&mut values, 11);
    assert_eq!(values, [1, 2, 3, 4, 5]);
}

#[test]
fn rolling_by_extremes() {
    let mut values = [1, 2, 3];
    roll(&mut values, 6);
    assert_eq!(values, [1, 2, 3]);
    roll(&mut values, -3);
    assert_eq!(values, [1, 2, 3]);
    let places = isize::MIN.rem_euclid(3) as usize;
    let mut expected = [1, 2, 3];
    expected.rotate_right(places);
    roll(&mut values, isize::MIN);
    assert_eq!(values, expected);
    let mut empty: [i32; 0] = [];
    roll(&mut empty, 7);
}

#[test]
fn rolls_add_up() {
    for shift in -7isize..8 {
        for then in -7isize..8 {
            let mut twice = [1, 2, 3, 4];
            roll(&mut twice, shift);
            roll(&mut twice, then);
            let mut once = [1, 2, 3, 4];
            roll(&mut once, shift + then);
            assert_eq!(twice, once);
        }
    }
}

#[test]
fn padding_again_changes_nothing() {
    let filler: Vec<i32> = (100..109).collect();
    for count in 0..14 {
        let data: Vec<i32> = (0..count).collect();
        let padded = pad_or_truncate(&data, &filler);
        assert_eq!(pad_or_truncate(&padded, &filler), padded);
    }
}
