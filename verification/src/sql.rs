//! Squelch: the open / closed state and its hysteresis.
//!
//! Measuring the signal level is floating-point work done by the caller; this
//! module decides, from each measurement, whether the squelch is open and
//! when the next measurement is due.
use vstd::prelude::*;

verus! {

/// Whether audio passes the squelch.
#[derive(Debug, Clone, Copy, PartialEq, Eq, Structural)]
pub enum SqlState {
    Open,
    Closed,
}

impl SqlState {
    /// `true` for `Open`.
    pub fn is_open(&self) -> (res: bool)
        ensures
            res == (*self == SqlState::Open),
    {
        matches!(self, Self::Open)
    }

    /// Switches between `Open` and `Closed`.
    pub fn toggle(&mut self)
        ensures
            *final(self) == (if *old(self) == SqlState::Open {
                SqlState::Closed
            } else {
                SqlState::Open
            }),
    {
        *self = match self {
            SqlState::Open => SqlState::Closed,
            SqlState::Closed => SqlState::Open,
        };
    }
}

/// The state that `toggle` leaves behind.
pub open spec fn toggled(s: SqlState) -> SqlState {
    match s {
        SqlState::Open => SqlState::Closed,
        SqlState::Closed => SqlState::Open,
    }
}

/// Toggling twice gives back the state one started from, and toggling always
/// changes whether the squelch is open.
pub proof fn lemma_toggle_involution(s: SqlState)
    ensures
        toggled(toggled(s)) == s,
        (toggled(s) == SqlState::Open) != (s == SqlState::Open),
{
}

/// One sample through the hysteresis, as (countdown, state): a due
/// measurement decides the state and restarts the countdown at
/// `period - 1`; otherwise the countdown runs down and the state holds.
pub open spec fn gate_step(countdown: nat, period: nat, state: SqlState, above: bool) -> (nat, SqlState) {
    if countdown == 0 {
        (
            if period == 0 {
                0
            } else {
                (period - 1) as nat
            },
            if above {
                SqlState::Open
            } else {
                SqlState::Closed
            },
        )
    } else {
        ((countdown - 1) as nat, state)
    }
}

/// The hysteresis after one sample per entry of `aboves`.
pub open spec fn gate_run(countdown: nat, period: nat, state: SqlState, aboves: Seq<bool>) -> (
    nat,
    SqlState,
)
    decreases aboves.len(),
{
    if aboves.len() == 0 {
        (countdown, state)
    } else {
        let prev = gate_run(countdown, period, state, aboves.drop_last());
        gate_step(prev.0, period, prev.1, aboves.last())
    }
}

/// While a countdown runs, no measurement is looked at: for as many samples
/// as the countdown, the state holds whatever the levels, and the countdown
/// then reads zero, so the sample after them is measured.
pub proof fn lemma_decision_holds(countdown: nat, period: nat, state: SqlState, aboves: Seq<bool>)
    requires
        aboves.len() <= countdown,
    ensures
        gate_run(countdown, period, state, aboves) == ((countdown - aboves.len()) as nat, state),
    decreases aboves.len(),
{
    if aboves.len() > 0 {
        lemma_decision_holds(countdown, period, state, aboves.drop_last());
    }
}

/// The countdown after `aboves.len()` samples from a due measurement with
/// period `c > 0` is `(c - aboves.len() mod c) mod c`.
proof fn lemma_countdown_closed_form(c: nat, state: SqlState, aboves: Seq<bool>)
    requires
        c > 0,
    ensures
        gate_run(0, c, state, aboves).0 == (c as int - (aboves.len() as int) % (c as int)) % (c as int),
    decreases aboves.len(),
{
    let ci = c as int;
    let l = aboves.len() as int;
    if aboves.len() == 0 {
        assert((ci - 0int % ci) % ci == 0) by (nonlinear_arith)
            requires
                ci > 0,
        ;
    } else {
        lemma_countdown_closed_form(c, state, aboves.drop_last());
        let prev = gate_run(0, c, state, aboves.drop_last()).0 as int;
        let r = (l - 1) % ci;
        assert(0 <= r < ci) by (nonlinear_arith)
            requires
                ci > 0,
                r == (l - 1) % ci,
        ;
        if r == ci - 1 {
            assert(l % ci == 0) by (nonlinear_arith)
                requires
                    ci > 0,
                    r == (l - 1) % ci,
                    r == ci - 1,
            ;
        } else {
            assert(l % ci == r + 1) by (nonlinear_arith)
                requires
                    ci > 0,
                    r == (l - 1) % ci,
                    r + 1 < ci,
                    l >= 1,
            ;
        }
        if r == 0 {
            assert(prev == 0) by (nonlinear_arith)
                requires
                    prev == (ci - r) % ci,
                    r == 0,
                    ci > 0,
            ;
        } else {
            assert(prev == ci - r) by (nonlinear_arith)
                requires
                    prev == (ci - r) % ci,
                    0 < r < ci,
            ;
        }
        let m = l % ci;
        assert((ci - m) % ci == (if m == 0 { 0 } else { ci - m })) by (nonlinear_arith)
            requires
                0 <= m < ci,
        ;
    }
}

/// From a fresh squelch (`SquelchHysteresis::new(c)`: countdown 0, closed),
/// call number `k = aboves.len()` (counting from 1, with `aboves` the levels
/// seen by calls `1..=k`) measures exactly when `c == 0` or `(k - 1) mod c == 0`;
/// a measuring call decides by its own level, and every other call returns
/// the decision of the call before it.
pub proof fn lemma_periodic_decisions(c: nat, aboves: Seq<bool>)
    requires
        aboves.len() >= 1,
    ensures
        ({
            let before = gate_run(0, c, SqlState::Closed, aboves.drop_last());
            let after = gate_run(0, c, SqlState::Closed, aboves);
            let k = aboves.len() as int;
            &&& (before.0 == 0) == (c == 0 || (k - 1) % (c as int) == 0)
            &&& (c == 0 || (k - 1) % (c as int) == 0) ==> after.1 == (if aboves.last() {
                SqlState::Open
            } else {
                SqlState::Closed
            })
            &&& !(c == 0 || (k - 1) % (c as int) == 0) ==> after.1 == before.1
        }),
{
    let prefix = aboves.drop_last();
    if c == 0 {
        lemma_countdown_zero_period(SqlState::Closed, prefix);
    } else {
        lemma_countdown_closed_form(c, SqlState::Closed, prefix);
        let ci = c as int;
        let m = (prefix.len() as int) % ci;
        assert(0 <= m < ci) by (nonlinear_arith)
            requires
                ci > 0,
                m == (prefix.len() as int) % ci,
        ;
        assert(((ci - m) % ci == 0) == (m == 0)) by (nonlinear_arith)
            requires
                0 <= m < ci,
        ;
    }
}

/// With period 0 every sample is measured.
proof fn lemma_countdown_zero_period(state: SqlState, aboves: Seq<bool>)
    ensures
        gate_run(0, 0, state, aboves).0 == 0,
    decreases aboves.len(),
{
    if aboves.len() > 0 {
        lemma_countdown_zero_period(state, aboves.drop_last());
    }
}

/// The hysteresis of the squelch: the level is measured once every
/// `timeout_reset_count` samples, and the decision taken at a measurement
/// holds until the next one.
pub struct SquelchHysteresis {
    sql_hystereis_counter: usize,
    timeout_reset_count: usize,
    state: SqlState,
}

impl SquelchHysteresis {
    /// The number of samples left before the next measurement.
    pub closed spec fn countdown(&self) -> nat {
        self.sql_hystereis_counter as nat
    }

    /// The number of samples between two measurements.
    pub closed spec fn period(&self) -> nat {
        self.timeout_reset_count as nat
    }

    /// The current decision.
    pub closed spec fn state(&self) -> SqlState {
        self.state
    }

    /// A closed squelch that measures at the first sample and then once
    /// every `counter` samples.
    pub fn new(counter: usize) -> (res: Self)
        ensures
            res.countdown() == 0,
            res.period() == counter,
            res.state() == SqlState::Closed,
    {
        SquelchHysteresis { sql_hystereis_counter: 0, timeout_reset_count: counter, state: SqlState::Closed }
    }

    /// `true` when the next call of `check` takes a measurement into account.
    pub fn needs_measurement(&self) -> (res: bool)
        ensures
            res == (self.countdown() == 0),
    {
        self.sql_hystereis_counter == 0
    }

    /// Handles one sample. When a measurement is due, `above_threshold`
    /// (whether the averaged level exceeds the threshold) opens or closes the
    /// squelch and restarts the countdown; otherwise it is ignored. Returns
    /// whether the squelch is open.
    pub fn check(&mut self, above_threshold: bool) -> (open: bool)
        ensures
            (final(self).countdown(), final(self).state()) == gate_step(
                old(self).countdown(),
                old(self).period(),
                old(self).state(),
                above_threshold,
            ),
            final(self).period() == old(self).period(),
            open == (final(self).state() == SqlState::Open),
    {
        if self.sql_hystereis_counter == 0 {
            self.sql_hystereis_counter = self.timeout_reset_count;
            if above_threshold {
                self.state = SqlState::Open;
            } else {
                self.state = SqlState::Closed;
            }
        }
        self.sql_hystereis_counter = self.sql_hystereis_counter.saturating_sub(1);
        self.state.is_open()
    }
}

} // verus!
