use nbfm_trx::conv::{ConvIter, ConvIterable};
use num::complex::Complex32;

#[test]
fn convolution_test_i32() {
    let x = [1, 2, 3, 4];
    let y = [2, 2, 2, 2];

    let filter = ConvIter::new(y, 0);

    let filtered_vals: Vec<_> = filter.filter_iter(&x);

    assert_eq!(filtered_vals, [2, 6, 12, 20])
}

#[test]
fn conv_test_cf32_w_f32_taps() {
    let taps = [1.0, 0.0, 0.0];
    let samps = [Complex32::new(1.0, 1.0); 10];

    let filtered: Vec<Complex32> = samps.conv_iter(taps, Complex32::ZERO);

    assert_eq!(filtered, [Complex32::new(1.0, 1.0); 10]);
}

#[test]
fn conv_impulse_response_is_taps() {
    let mut filter = ConvIter::new([5i64, -3, 7], 0);
    assert_eq!(filter.filter_sample(1), 5);
    assert_eq!(filter.filter_sample(0), -3);
    assert_eq!(filter.filter_sample(0), 7);
    assert_eq!(filter.filter_sample(0), 0);
}

#[test]
fn conv_initial_value_offsets_history_and_sum() {
    // history starts as three 1s, and every sum starts at 1
    let mut filter = ConvIter::new([1i32, 10, 100], 1);
    assert_eq!(filter.filter_sample(2), 1 + 2 + 10 + 100);
    assert_eq!(filter.filter_sample(3), 1 + 3 + 20 + 100);
}

#[test]
fn conv_new_default_starts_from_zero() {
    let filter: ConvIter<i32, i32, 2> = ConvIter::new_default([3, 4]);
    assert_eq!(filter.filter_iter(&[1, 1, 1]), vec![3, 7, 7]);
}

#[test]
fn conv_iter_on_slice_matches_filter_iter() {
    let xs = [1i32, -2, 3, 0, 5];
    let a = xs.conv_iter([1, 2], 0);
    let b = ConvIter::new([1, 2], 0).filter_iter(&xs);
    assert_eq!(a, b);
    assert_eq!(a, vec![1, 0, -1, 6, 5]);
}

#[test]
fn conv_reset_restores_fresh_history() {
    let mut filter = ConvIter::new([1i32, 2, 3], 0);
    let fresh: Vec<i32> = ConvIter::new([1i32, 2, 3], 0).filter_iter(&[4, 5]);
    filter.filter_sample(9);
    filter.filter_sample(9);
    filter.reset();
    assert_eq!(filter.filter_sample(4), fresh[0]);
    assert_eq!(filter.filter_sample(5), fresh[1]);
}

#[test]
fn conv_is_linear() {
    let taps = [3i64, -1, 4, 1];
    let xs = [1i64, 5, -9, 2, 6, 0, -5];
    let ys = [2i64, -7, 1, 8, -2, 8, 1];
    let a = -3i64;
    let zs: Vec<i64> = xs.iter().zip(ys.iter()).map(|(x, y)| a * x + y).collect();
    let fx = ConvIter::new(taps, 0i64).filter_iter(&xs);
    let fy = ConvIter::new(taps, 0i64).filter_iter(&ys);
    let fz = ConvIter::new(taps, 0i64).filter_iter(&zs);
    for i in 0..xs.len() {
        assert_eq!(fz[i], a * fx[i] + fy[i]);
    }
}

#[test]
fn conv_filter_iter_matches_repeated_filter_sample() {
    let taps = [2i32, -1, 3];
    let xs = [4i32, 0, -2, 7, 1];
    let batch = ConvIter::new(taps, 1).filter_iter(&xs);
    let mut f = ConvIter::new(taps, 1);
    let one_by_one: Vec<i32> = xs.iter().map(|&x| f.filter_sample(x)).collect();
    assert_eq!(batch, one_by_one);
}
