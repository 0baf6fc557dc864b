use nbfm_trx::zero_pad::Pad;

#[test]
fn pad_test() {
    let x = [1, 2, 3, 4, 5];

    let pad = Pad::new(0, 3);

    let y: Vec<_> = x.into_iter().flat_map(|s| pad.pad_sample(s)).collect();

    assert_eq!(
        &y,
        &[1, 0, 0, 0, 2, 0, 0, 0, 3, 0, 0, 0, 4, 0, 0, 0, 5, 0, 0, 0]
    );
}

#[test]
fn pad_with_no_filler_is_identity() {
    let pad = Pad::new(9, 0);
    assert_eq!(pad.pad_sample(4), vec![4]);
}

#[test]
fn pad_clones_filler() {
    let pad = Pad::new(String::from("z"), 2);
    assert_eq!(
        pad.pad_sample(String::from("a")),
        vec![String::from("a"), String::from("z"), String::from("z")]
    );
}
