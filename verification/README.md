# nbfm_trx

Verified building blocks of a narrow-band FM transceiver for a bladeRF:

- `src/` (Verus): decimation (`Keep1InN`), zero stuffing (`Pad`), a rotating
  read-out of a fixed array (`MyCircBuf`), FIR filtering (`ConvIter`,
  `ConvIterable`), polyphase interpolation (`IntegerInterpolator`), the
  squelch hysteresis and the receive / transmit state (`SqlState`,
  `SquelchHysteresis`, `TrxState`).
- `app/` (plain Rust): the floating-point blocks (pre-emphasis, FM
  modulation and demodulation, tone generator, squelch level), the receive and
  transmit chains built from them, and the program that drives the radio and
  the sound card.

The filter history is `SampleRing`, a ring on `std::collections::VecDeque`
with the push-front and fill behaviour of a fixed-capacity circular buffer
(pushing onto a full ring drops the oldest sample; filling makes `N` copies).
The `circular_buffer` crate's own buffer is generic in its capacity and item
type, and its contents cannot be given a specification in that form, so the
verified code keeps its own ring; `app/` still uses the crate for the squelch
averaging.

The filter contracts require the sample type's arithmetic to be the one vstd
specifies (integers, without overflow). Float and complex samples, which the
receive and transmit chains in `app/` use, run the same code outside those
contracts: nothing is proved of their results.
