use nbfm_trx::circ_buffer::MyCircBuf;

#[test]
fn circ_buf_step1() {
    let buffer = [0, 1, 2, 3, 4, 5, 6, 7, 8];

    let mut circ = MyCircBuf::new(buffer);

    circ.step();
    circ.step();

    let out: Vec<_> = circ.step_by(1);
    let out2: Vec<_> = circ.step_by(2);

    println!("Output : {out:#?}");
    println!("Output2: {out2:#?}");
}

#[test]
fn circ_buf_step_by_reads_from_position() {
    let mut circ = MyCircBuf::new([0, 1, 2, 3, 4, 5, 6, 7, 8]);
    circ.step();
    circ.step();
    assert_eq!(circ.step_by(1), vec![2, 3, 4, 5, 6, 7, 8, 0, 1]);
    assert_eq!(circ.step_by(2), vec![2, 4, 6, 8, 1]);
    assert_eq!(circ.step_by(4), vec![2, 6, 1]);
    assert_eq!(circ.step_by(9), vec![2]);
    assert_eq!(circ.step_by(100), vec![2]);
}

#[test]
fn circ_buf_full_turn_returns_to_start() {
    let mut circ = MyCircBuf::new([10, 20, 30]);
    let start = circ.step_by(1);
    assert_eq!(start, vec![10, 20, 30]);
    circ.step();
    assert_eq!(circ.step_by(1), vec![20, 30, 10]);
    circ.step();
    circ.step();
    assert_eq!(circ.step_by(1), start);
}

#[test]
fn circ_buf_empty_ring_reads_nothing() {
    let circ: MyCircBuf<u8, 0> = MyCircBuf::new([]);
    assert!(circ.step_by(0).is_empty());
    assert!(circ.step_by(3).is_empty());
}
