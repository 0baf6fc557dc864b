use nbfm_trx::keep_1_in_n::Keep1InN;

#[test]
fn keep_test() {
    let x = [1, 2, 3, 4, 5, 6, 7, 8, 9, 10];
    let mut dec = Keep1InN::<2>::new();
    let y: Vec<_> = x.iter().copied().filter(|_| dec.test_keep()).collect();
    assert_eq!(y, [1, 3, 5, 7, 9])
}

#[test]
fn keep_one_in_three_from_first() {
    let mut dec = Keep1InN::<3>::default();
    let kept: Vec<bool> = (0..9).map(|_| dec.test_keep()).collect();
    assert_eq!(
        kept,
        [true, false, false, true, false, false, true, false, false]
    );
}

#[test]
fn keep_reset_delays_next_keep() {
    let mut dec = Keep1InN::<2>::new();
    assert!(dec.test_keep());
    dec.reset();
    assert!(!dec.test_keep());
    assert!(dec.test_keep());
    assert!(!dec.test_keep());
    assert!(dec.test_keep());
}

#[test]
fn keep_factor_one_keeps_all() {
    let mut dec = Keep1InN::<1>::new();
    assert!((0..5).all(|_| dec.test_keep()));
}

#[test]
fn keep_is_every_nth() {
    let xs: Vec<u32> = (0..17).collect();
    for n in [1usize, 2, 3, 5] {
        let kept: Vec<u32> = match n {
            1 => { let mut d = Keep1InN::<1>::new(); xs.iter().copied().filter(|_| d.test_keep()).collect() }
            2 => { let mut d = Keep1InN::<2>::new(); xs.iter().copied().filter(|_| d.test_keep()).collect() }
            3 => { let mut d = Keep1InN::<3>::new(); xs.iter().copied().filter(|_| d.test_keep()).collect() }
            _ => { let mut d = Keep1InN::<5>::new(); xs.iter().copied().filter(|_| d.test_keep()).collect() }
        };
        let expected: Vec<u32> = xs.iter().copied().step_by(n).collect();
        assert_eq!(kept.len(), (xs.len() + n - 1) / n);
        assert_eq!(kept, expected);
    }
}
