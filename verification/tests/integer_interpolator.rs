use nbfm_trx::conv::ConvIter;
use nbfm_trx::integer_interpolator::IntegerInterpolator;
use nbfm_trx::zero_pad::Pad;

#[test]
fn interp_scratch() {
    let x = [1, 2, 3, 4, 5, 6, 7, 8, 9].into_iter();
    #[allow(clippy::iter_skip_zero)]
    let y = x.skip(0).step_by(2);
    println!("{:#?}", y.collect::<Vec<_>>())
}

#[test]
fn interp_output_length_is_factor_per_sample() {
    let samples = [1i32; 10];
    const INTERP: usize = 3;
    let mut interp: IntegerInterpolator<i32, 6, INTERP> =
        IntegerInterpolator::new([1, 2, 3, 4, 5, 6], 0);
    let out: Vec<i32> = samples
        .iter()
        .copied()
        .flat_map(|x| interp.process_testb(x).into_iter())
        .collect();
    assert_eq!(samples.len() * INTERP, out.len());
}

#[test]
fn interp_impulse_gives_polyphase_taps() {
    // one impulse followed by zeros walks through the taps in order
    let mut interp: IntegerInterpolator<i32, 6, 2> =
        IntegerInterpolator::new([1, 2, 3, 4, 5, 6], 0);
    assert_eq!(interp.process_testb(1), [1, 2]);
    assert_eq!(interp.process_testb(0), [3, 4]);
    assert_eq!(interp.process_testb(0), [5, 6]);
    assert_eq!(interp.process_testb(0), [0, 0]);
}

#[test]
fn interp_constant_input_settles_to_tap_sums() {
    let mut interp: IntegerInterpolator<i32, 4, 2> = IntegerInterpolator::new([1, 10, 100, 1000], 0);
    assert_eq!(interp.process_testb(1), [1, 10]);
    assert_eq!(interp.process_testb(1), [101, 1010]);
    assert_eq!(interp.process_testb(1), [101, 1010]);
}

#[test]
fn interp_matches_zero_stuffing_then_fir() {
    let taps = [3i64, -1, 4, 1, -5, 9, 2];
    let samples = [7i64, -2, 0, 5, 1];
    const F: usize = 3;

    let mut interp: IntegerInterpolator<i64, 7, F> = IntegerInterpolator::new(taps, 0);
    let polyphase: Vec<i64> = samples
        .iter()
        .flat_map(|&x| interp.process_testb(x).into_iter())
        .collect();

    let pad = Pad::new(0i64, F - 1);
    let stuffed: Vec<i64> = samples.iter().flat_map(|&x| pad.pad_sample(x)).collect();
    let direct = ConvIter::new(taps, 0i64).filter_iter(&stuffed);

    assert_eq!(polyphase, direct);
}

#[test]
fn interp_test() {
    let samples = [1.0_f32; 10];

    const INTERP: usize = 12;

    // 115 taps of a moving average; the output count does not depend on them
    let taps = [1.0_f32 / 115.0; 115];
    let mut smth: IntegerInterpolator<f32, 115, INTERP> = IntegerInterpolator::new(taps, 0.0);

    let out: Vec<_> = samples
        .iter()
        .copied()
        .flat_map(|x| smth.process_testb(x).into_iter())
        .collect();

    assert_eq!(samples.len() * INTERP, out.len());
    println!("Out: {out:#?}");
}

#[test]
fn interp_empty_buffer_grows_history() {
    let mut interp: IntegerInterpolator<i32, 4, 2> =
        IntegerInterpolator::with_empty_buffer([1, 10, 100, 1000], 0);
    assert_eq!(interp.process_testb(1), [1, 10]);
    assert_eq!(interp.process_testb(2), [102, 1020]);
}
