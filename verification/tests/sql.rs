use nbfm_trx::sql::{SqlState, SquelchHysteresis};
use nbfm_trx::TrxState;

#[test]
fn sql_state_toggle_flips_open() {
    let mut s = SqlState::Closed;
    assert!(!s.is_open());
    s.toggle();
    assert!(s.is_open());
    assert_eq!(s, SqlState::Open);
    s.toggle();
    assert_eq!(s, SqlState::Closed);
}

#[test]
fn trx_state_toggle_twice_is_identity() {
    let mut t = TrxState::Recieving;
    t.toggle();
    assert_eq!(t, TrxState::Transmitting);
    t.toggle();
    assert_eq!(t, TrxState::Recieving);
}

#[test]
fn squelch_measures_once_per_period() {
    let mut sq = SquelchHysteresis::new(3);
    assert!(sq.needs_measurement());
    // measurement: above threshold opens
    assert!(sq.check(true));
    // the next two samples keep the decision whatever the level
    assert!(!sq.needs_measurement());
    assert!(sq.check(false));
    assert!(sq.check(false));
    // next measurement closes
    assert!(sq.needs_measurement());
    assert!(!sq.check(false));
    assert!(!sq.check(true));
    assert!(!sq.check(true));
    assert!(sq.check(true));
}

#[test]
fn squelch_with_zero_period_measures_every_sample() {
    let mut sq = SquelchHysteresis::new(0);
    assert!(sq.check(true));
    assert!(sq.needs_measurement());
    assert!(!sq.check(false));
    assert!(sq.check(true));
}

#[test]
fn squelch_redecides_every_period_calls() {
    let c = 4usize;
    let mut sq = SquelchHysteresis::new(c);
    let levels = [true, false, false, false, false, true, true, true, true, false];
    let mut prev = false;
    for (idx, &above) in levels.iter().enumerate() {
        let k = idx + 1;
        let measures = sq.needs_measurement();
        assert_eq!(measures, (k - 1) % c == 0);
        let open = sq.check(above);
        if measures {
            assert_eq!(open, above);
        } else {
            assert_eq!(open, prev);
        }
        prev = open;
    }
}
