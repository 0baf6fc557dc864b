//! Verified building blocks of a narrow-band FM transceiver: sample-rate
//! decimation, zero padding, circular buffers, FIR convolution, integer
//! interpolation and the squelch / transceiver state machines.
use vstd::prelude::*;

pub mod circ_buffer;
pub mod integer_interpolator;
pub mod conv;
pub mod keep_1_in_n;
pub mod ring;
pub mod sql;
pub mod zero_pad;

verus! {

/// Whether the transceiver listens or sends.
#[derive(Debug, Clone, Copy, PartialEq, Eq, Structural)]
pub enum TrxState {
    Recieving,
    Transmitting,
}

impl TrxState {
    /// Switches between receiving and transmitting.
    pub fn toggle(&mut self)
        ensures
            *final(self) == (if *old(self) == TrxState::Recieving {
                TrxState::Transmitting
            } else {
                TrxState::Recieving
            }),
    {
        *self = match self {
            TrxState::Recieving => TrxState::Transmitting,
            TrxState::Transmitting => TrxState::Recieving,
        };
    }
}

/// The state that `TrxState::toggle` leaves behind.
pub open spec fn trx_toggled(s: TrxState) -> TrxState {
    match s {
        TrxState::Recieving => TrxState::Transmitting,
        TrxState::Transmitting => TrxState::Recieving,
    }
}

/// Toggling twice returns to the starting state, and every toggle changes it.
pub proof fn lemma_trx_toggle_involution(s: TrxState)
    ensures
        trx_toggled(trx_toggled(s)) == s,
        trx_toggled(s) != s,
{
}

} // verus!
