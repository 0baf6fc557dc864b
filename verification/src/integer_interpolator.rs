//! Interpolation by an integer factor: zero stuffing followed by a FIR
//! filter, computed as a polyphase filter.
use vstd::prelude::*;
use core::ops::{Add, Mul};
use crate::ring::SampleRing;
use vstd::std_specs::ops::{AddSpec, MulSpec};
use crate::conv::{mac_fold, mac_defined, exact_arith, history_after, strided_mac, filtered, lemma_history_after_full, lemma_history_after_partial,
    lemma_history_after_append, lemma_filtered_append};

verus! {

/// The `f` inputs that one sample turns into: the sample, then `f - 1` zeros.
pub open spec fn stuffed<T>(sample: T, zero: T, f: nat) -> Seq<T> {
    Seq::new(f, |i: int| if i == 0 { sample } else { zero })
}

/// Output `c` of one interpolation step: after the first `c + 1` stuffed
/// inputs have entered the history, the products of history and taps at the
/// indices `c, c + f, c + 2f, ...` are accumulated onto `zero`.
pub open spec fn interp_output<T: Mul<T, Output = T> + Add<T, Output = T>>(
    hist: Seq<T>,
    taps: Seq<T>,
    inputs: Seq<T>,
    zero: T,
    n: nat,
    f: nat,
    c: int,
) -> T {
    let h = history_after(hist, inputs.take(c + 1), n);
    mac_fold(zero, h, taps, c as nat, f, h.len())
}

/// Every output of one interpolation step is defined (for integers: no
/// overflow).
pub open spec fn interp_defined<T: Mul<T, Output = T> + Add<T, Output = T>>(
    hist: Seq<T>,
    taps: Seq<T>,
    inputs: Seq<T>,
    zero: T,
    n: nat,
    f: nat,
) -> bool {
    forall|c: int|
        0 <= c < f ==> {
            let h = #[trigger] history_after(hist, inputs.take(c + 1), n);
            mac_defined(zero, h, taps, c as nat, f, h.len())
        }
}

/// Interpolates by `INTERP_FAC` with an `N`-tap filter.
pub struct IntegerInterpolator<T, const N: usize, const INTERP_FAC: usize> {
    pub taps: [T; N],
    buffer: SampleRing<T, N>,
    zero: T,
}

impl<T, const N: usize, const INTERP_FAC: usize> IntegerInterpolator<T, N, INTERP_FAC> {
    /// The last (at most `N`) filter inputs, newest first.
    pub closed spec fn history(&self) -> Seq<T> {
        self.buffer@
    }

    /// The zero of the sample type: the stuffing value and the start of every
    /// accumulation.
    pub closed spec fn zero(&self) -> T {
        self.zero
    }

    /// The filter taps.
    pub closed spec fn tap_seq(&self) -> Seq<T> {
        self.taps@
    }

    pub closed spec fn wf(&self) -> bool {
        self.buffer.wf()
    }
}

impl<T: Copy + Mul<T, Output = T> + Add<T, Output = T>, const N: usize, const INTERP_FAC: usize> IntegerInterpolator<T, N, INTERP_FAC> {
    /// An interpolator with the given taps whose history is `N` zeros.
    pub fn new(taps: [T; N], zero: T) -> (res: Self)
        ensures
            res.wf(),
            res.tap_seq() == taps@,
            res.zero() == zero,
            res.history() == Seq::new(N as nat, |i: int| zero),
            block_aligned(res.history(), zero, INTERP_FAC as nat),
    {
        let mut buffer: SampleRing<T, N> = SampleRing::new();
        buffer.fill(zero);
        IntegerInterpolator { taps, buffer, zero }
    }

    /// An interpolator with the given taps and an empty history; until `N`
    /// inputs have arrived, the accumulations run over the inputs seen so far.
    pub fn with_empty_buffer(taps: [T; N], zero: T) -> (res: Self)
        ensures
            res.wf(),
            res.tap_seq() == taps@,
            res.zero() == zero,
            res.history() == Seq::<T>::empty(),
            block_aligned(res.history(), zero, INTERP_FAC as nat),
    {
        IntegerInterpolator { taps, buffer: SampleRing::new(), zero }
    }

    /// Turns one input sample into `INTERP_FAC` output samples.
    pub fn process_testb(&mut self, sample: T) -> (out: [T; INTERP_FAC])
        requires
            old(self).wf(),
            INTERP_FAC > 0,
            exact_arith::<T, T>(),
            interp_defined(
                old(self).history(),
                old(self).tap_seq(),
                stuffed(sample, old(self).zero(), INTERP_FAC as nat),
                old(self).zero(),
                N as nat,
                INTERP_FAC as nat,
            ),
        ensures
            final(self).wf(),
            final(self).tap_seq() == old(self).tap_seq(),
            final(self).zero() == old(self).zero(),
            final(self).history() == history_after(
                old(self).history(),
                stuffed(sample, old(self).zero(), INTERP_FAC as nat),
                N as nat,
            ),
            forall|c: int|
                0 <= c < INTERP_FAC ==> #[trigger] out@[c] == interp_output(
                    old(self).history(),
                    old(self).tap_seq(),
                    stuffed(sample, old(self).zero(), INTERP_FAC as nat),
                    old(self).zero(),
                    N as nat,
                    INTERP_FAC as nat,
                    c,
                ),
            forall|c: int|
                0 <= c < INTERP_FAC ==> #[trigger] out@[c] == mac_fold(
                    old(self).zero(),
                    history_after(
                        old(self).history(),
                        stuffed(sample, old(self).zero(), INTERP_FAC as nat).take(c + 1),
                        N as nat,
                    ),
                    old(self).tap_seq(),
                    c as nat,
                    INTERP_FAC as nat,
                    history_after(
                        old(self).history(),
                        stuffed(sample, old(self).zero(), INTERP_FAC as nat).take(c + 1),
                        N as nat,
                    ).len(),
                ),
    {
        let ghost h0 = self.history();
        let ghost inputs = stuffed(sample, self.zero, INTERP_FAC as nat);
        let mut intermediate_samples = [self.zero; INTERP_FAC];
        intermediate_samples[0] = sample;
        assert(intermediate_samples@ =~= inputs);
        let mut out = [self.zero; INTERP_FAC];
        let mut counter: usize = 0;
        while counter < INTERP_FAC
            invariant
                INTERP_FAC > 0,
                counter <= INTERP_FAC,
                self.wf(),
                exact_arith::<T, T>(),
                intermediate_samples@ == inputs,
                inputs == stuffed(sample, self.zero, INTERP_FAC as nat),
                self.taps@ == old(self).tap_seq(),
                self.zero == old(self).zero(),
                h0 == old(self).history(),
                self.taps@.len() == N,
                self.history() == history_after(h0, inputs.take(counter as int), N as nat),
                interp_defined(h0, self.taps@, inputs, self.zero, N as nat, INTERP_FAC as nat),
                forall|c: int|
                    0 <= c < counter ==> #[trigger] out@[c] == interp_output(
                        h0,
                        self.taps@,
                        inputs,
                        self.zero,
                        N as nat,
                        INTERP_FAC as nat,
                        c,
                    ),
            decreases INTERP_FAC - counter,
        {
            let x = intermediate_samples[counter];
            proof {
                assert(inputs.take(counter + 1).drop_last() =~= inputs.take(counter as int));
                assert(inputs.take(counter + 1).last() == x);
            }
            self.buffer.push_front(x);
            let ghost h = self.history();
            assert(h == history_after(h0, inputs.take(counter + 1), N as nat));
            assert(mac_defined(self.zero, h, self.taps@, counter as nat, INTERP_FAC as nat, h.len()));
            let len = self.buffer.len();
            let y = strided_mac(self.zero, &self.buffer, &self.taps, counter, INTERP_FAC, len);
            out[counter] = y;
            counter = counter + 1;
        }
        proof {
            assert(inputs.take(INTERP_FAC as int) =~= inputs);
        }
        out
    }
}

/// Zero is absorbing for products and neutral for sums.
pub open spec fn zero_laws<T: Mul<T, Output = T> + Add<T, Output = T>>(zero: T) -> bool {
    &&& forall|t: T| #[trigger] zero.mul_spec(t) == zero
    &&& forall|a: T| #[trigger] zero.add_spec(a) == a
}

/// The history is aligned to the interpolation blocks: everything except the
/// entries at positions `f - 1, 2f - 1, ...` (where whole blocks put their
/// samples) is zero.
pub open spec fn block_aligned<T>(hist: Seq<T>, zero: T, f: nat) -> bool {
    forall|k: int| 0 <= k < hist.len() && k % (f as int) != f - 1 ==> #[trigger] hist[k] == zero
}

/// Accumulating over entries that are all zero changes nothing.
proof fn lemma_skip_zeros<T: Mul<T, Output = T> + Add<T, Output = T>>(
    acc: T,
    hist: Seq<T>,
    taps: Seq<T>,
    idx: nat,
    j: nat,
    end: nat,
    zero: T,
)
    requires
        idx <= j <= end,
        zero_laws(zero),
        forall|k: int| idx <= k < j ==> #[trigger] hist[k] == zero,
    ensures
        mac_fold(acc, hist, taps, idx, 1, end) == mac_fold(acc, hist, taps, j, 1, end),
    decreases j - idx,
{
    if idx < j {
        assert(hist[idx as int] == zero);
        assert(zero.mul_spec(taps[idx as int]) == zero);
        assert(zero.add_spec(acc) == acc);
        lemma_skip_zeros(acc, hist, taps, idx + 1, j, end, zero);
    }
}

/// When every entry off the stride is zero, the strided accumulation equals
/// the full one.
proof fn lemma_strided_is_full<T: Mul<T, Output = T> + Add<T, Output = T>>(
    acc: T,
    hist: Seq<T>,
    taps: Seq<T>,
    idx: nat,
    f: nat,
    end: nat,
    zero: T,
)
    requires
        f > 0,
        zero_laws(zero),
        forall|k: int| idx <= k < end && (k - idx) % (f as int) != 0 ==> #[trigger] hist[k] == zero,
    ensures
        mac_fold(acc, hist, taps, idx, 1, end) == mac_fold(acc, hist, taps, idx, f, end),
    decreases (if idx >= end { 0 } else { end - idx }),
{
    if idx < end {
        let acc2 = hist[idx as int].mul_spec(taps[idx as int]).add_spec(acc);
        let j: nat = if idx + f < end { idx + f } else { end };
        assert forall|k: int| idx + 1 <= k < j implies #[trigger] hist[k] == zero by {
            assert((k - idx) % (f as int) == k - idx) by (nonlinear_arith)
                requires
                    1 <= k - idx < f,
            ;
        }
        lemma_skip_zeros(acc2, hist, taps, idx + 1, j, end, zero);
        assert(mac_fold(acc, hist, taps, idx, 1, end) == mac_fold(acc2, hist, taps, idx + 1, 1, end));
        assert(mac_fold(acc, hist, taps, idx, f, end) == mac_fold(acc2, hist, taps, idx + f, f, end));
        if idx + f >= end {
            assert(mac_fold(acc2, hist, taps, end, 1, end) == acc2);
            assert(mac_fold(acc2, hist, taps, idx + f, f, end) == acc2);
        } else {
            assert forall|k: int| idx + f <= k < end && (k - (idx + f)) % (f as int) != 0 implies #[trigger] hist[k]
                == zero by {
                assert((k - idx) % (f as int) == (k - (idx + f)) % (f as int)) by (nonlinear_arith)
                    requires
                        f > 0,
                ;
            }
            lemma_strided_is_full(acc2, hist, taps, idx + f, f, end, zero);
        }
    }
}

/// Polyphase interpolation is zero stuffing followed by FIR filtering: from a
/// block-aligned full history, each of the `f` outputs that one sample gives
/// equals the output of an `n`-tap FIR filter (accumulating from zero) fed
/// with the sample and `f - 1` zeros, and the history stays block-aligned.
pub proof fn lemma_interpolation_is_padded_fir<T: Mul<T, Output = T> + Add<T, Output = T>>(
    hist: Seq<T>,
    taps: Seq<T>,
    sample: T,
    zero: T,
    n: nat,
    f: nat,
)
    requires
        f > 0,
        hist.len() == n,
        zero_laws(zero),
        block_aligned(hist, zero, f),
    ensures
        forall|c: int|
            0 <= c < f ==> #[trigger] interp_output(hist, taps, stuffed(sample, zero, f), zero, n, f, c)
                == filtered(zero, taps, hist, stuffed(sample, zero, f), n)[c],
        block_aligned(history_after(hist, stuffed(sample, zero, f), n), zero, f),
{
    let inputs = stuffed(sample, zero, f);
    let fi = f as int;
    assert forall|c: int| 0 <= c < f implies #[trigger] interp_output(hist, taps, inputs, zero, n, f, c)
        == filtered(zero, taps, hist, inputs, n)[c] by {
        let xs = inputs.take(c + 1);
        lemma_history_after_full(hist, xs, n);
        let h = history_after(hist, xs, n);
        assert(h.len() == n);
        assert forall|k: int| 0 <= k < h.len() && k != c && (k < c || (k - c) % fi != 0) implies #[trigger] h[k]
            == zero by {
            if k <= c {
                assert(h[k] == inputs[c - k]);
            } else {
                assert(h[k] == hist[k - c - 1]);
                assert((k - c - 1) % fi != fi - 1) by (nonlinear_arith)
                    requires
                        (k - c) % fi != 0,
                        fi > 0,
                ;
            }
        }
        let j: nat = if c < n { c as nat } else { n };
        assert forall|k: int| 0 <= k < j implies #[trigger] h[k] == zero by {}
        lemma_skip_zeros(zero, h, taps, 0, j, n, zero);
        if c < n {
            assert forall|k: int| c <= k < n && (k - c) % fi != 0 implies #[trigger] h[k] == zero by {
                if k == c {
                    assert(0int % fi == 0) by (nonlinear_arith)
                        requires
                            fi > 0,
                    ;
                }
            }
            lemma_strided_is_full(zero, h, taps, c as nat, f, n, zero);
        }
    }
    lemma_history_after_full(hist, inputs, n);
    let h = history_after(hist, inputs, n);
    assert forall|k: int| 0 <= k < h.len() && k % fi != fi - 1 implies #[trigger] h[k] == zero by {
        if k < fi {
            assert(k % fi == k) by (nonlinear_arith)
                requires
                    0 <= k < fi,
            ;
            assert(h[k] == inputs[fi - 1 - k]);
        } else {
            assert(h[k] == hist[k - fi]);
            assert((k - fi) % fi == k % fi) by (nonlinear_arith)
                requires
                    fi > 0,
            ;
        }
    }
}

/// Polyphase interpolation is FIR filtering of the zero-stuffed input over
/// the samples held so far, full history or not (the empty one of
/// `with_empty_buffer` included): from a block-aligned history of at most
/// `n` samples, output `c` of one step is the accumulation from `zero` of
/// `h[k] * taps[k]` over every index `k < h.len()` of the history `h` that the
/// first `c + 1` stuffed inputs leave, in order. The history left after the
/// step is block-aligned again.
pub proof fn lemma_interpolation_is_fir_over_held_samples<T: Mul<T, Output = T> + Add<T, Output = T>>(
    hist: Seq<T>,
    taps: Seq<T>,
    sample: T,
    zero: T,
    n: nat,
    f: nat,
)
    requires
        f > 0,
        hist.len() <= n,
        zero_laws(zero),
        block_aligned(hist, zero, f),
    ensures
        forall|c: int|
            0 <= c < f ==> #[trigger] interp_output(hist, taps, stuffed(sample, zero, f), zero, n, f, c)
                == mac_fold(
                zero,
                history_after(hist, stuffed(sample, zero, f).take(c + 1), n),
                taps,
                0,
                1,
                history_after(hist, stuffed(sample, zero, f).take(c + 1), n).len(),
            ),
        block_aligned(history_after(hist, stuffed(sample, zero, f), n), zero, f),
{
    let inputs = stuffed(sample, zero, f);
    let fi = f as int;
    assert forall|c: int| 0 <= c < f implies #[trigger] interp_output(hist, taps, inputs, zero, n, f, c)
        == mac_fold(
        zero,
        history_after(hist, inputs.take(c + 1), n),
        taps,
        0,
        1,
        history_after(hist, inputs.take(c + 1), n).len(),
    ) by {
        let xs = inputs.take(c + 1);
        lemma_history_after_partial(hist, xs, n);
        let h = history_after(hist, xs, n);
        let l = h.len();
        assert forall|k: int| 0 <= k < l && k != c && (k < c || (k - c) % fi != 0) implies #[trigger] h[k]
            == zero by {
            if k <= c {
                assert(h[k] == inputs[c - k]);
            } else {
                assert(h[k] == hist[k - c - 1]);
                assert((k - c - 1) % fi != fi - 1) by (nonlinear_arith)
                    requires
                        (k - c) % fi != 0,
                        fi > 0,
                ;
            }
        }
        let j: nat = if c < l { c as nat } else { l };
        assert forall|k: int| 0 <= k < j implies #[trigger] h[k] == zero by {}
        lemma_skip_zeros(zero, h, taps, 0, j, l, zero);
        if c < l {
            assert forall|k: int| c <= k < l && (k - c) % fi != 0 implies #[trigger] h[k] == zero by {
                if k == c {
                    assert(0int % fi == 0) by (nonlinear_arith)
                        requires
                            fi > 0,
                    ;
                }
            }
            lemma_strided_is_full(zero, h, taps, c as nat, f, l, zero);
        } else {
            assert(mac_fold(zero, h, taps, c as nat, f, l) == zero);
            assert(mac_fold(zero, h, taps, l, 1, l) == zero);
        }
    }
    lemma_history_after_partial(hist, inputs, n);
    let h = history_after(hist, inputs, n);
    assert forall|k: int| 0 <= k < h.len() && k % fi != fi - 1 implies #[trigger] h[k] == zero by {
        if k < fi {
            assert(k % fi == k) by (nonlinear_arith)
                requires
                    0 <= k < fi,
            ;
            assert(h[k] == inputs[fi - 1 - k]);
        } else {
            assert(h[k] == hist[k - fi]);
            assert((k - fi) % fi == k % fi) by (nonlinear_arith)
                requires
                    fi > 0,
            ;
        }
    }
}

/// Each sample of `xs` followed by `f - 1` zeros.
pub open spec fn stuffed_all<T>(xs: Seq<T>, zero: T, f: nat) -> Seq<T>
    decreases xs.len(),
{
    if xs.len() == 0 {
        Seq::empty()
    } else {
        stuffed_all(xs.drop_last(), zero, f) + stuffed(xs.last(), zero, f)
    }
}

/// The outputs of calling `process_testb` once per sample of `xs`, in order,
/// from the history `hist`, concatenated.
pub open spec fn interp_run<T: Mul<T, Output = T> + Add<T, Output = T>>(
    hist: Seq<T>,
    taps: Seq<T>,
    xs: Seq<T>,
    zero: T,
    n: nat,
    f: nat,
) -> Seq<T>
    decreases xs.len(),
{
    if xs.len() == 0 {
        Seq::empty()
    } else {
        let before = history_after(hist, stuffed_all(xs.drop_last(), zero, f), n);
        interp_run(hist, taps, xs.drop_last(), zero, n, f) + Seq::new(
            f,
            |c: int| interp_output(before, taps, stuffed(xs.last(), zero, f), zero, n, f, c),
        )
    }
}

/// Over a whole input sequence, polyphase interpolation from a block-aligned
/// full history (such as the zeros that `new` gives) produces the same
/// samples as stuffing every sample with `f - 1` zeros and running the
/// result through an `n`-tap FIR filter that accumulates from zero.
pub proof fn lemma_interpolation_run_is_padded_fir<T: Mul<T, Output = T> + Add<T, Output = T>>(
    hist: Seq<T>,
    taps: Seq<T>,
    xs: Seq<T>,
    zero: T,
    n: nat,
    f: nat,
)
    requires
        f > 0,
        hist.len() == n,
        zero_laws(zero),
        block_aligned(hist, zero, f),
    ensures
        interp_run(hist, taps, xs, zero, n, f) == filtered(zero, taps, hist, stuffed_all(xs, zero, f), n),
        block_aligned(history_after(hist, stuffed_all(xs, zero, f), n), zero, f),
    decreases xs.len(),
{
    if xs.len() > 0 {
        let ys = xs.drop_last();
        let s1 = stuffed_all(ys, zero, f);
        let b = stuffed(xs.last(), zero, f);
        lemma_interpolation_run_is_padded_fir(hist, taps, ys, zero, n, f);
        lemma_history_after_full(hist, s1, n);
        let hp = history_after(hist, s1, n);
        lemma_interpolation_is_padded_fir(hp, taps, xs.last(), zero, n, f);
        lemma_filtered_append(zero, taps, hist, s1, b, n);
        lemma_history_after_append(hist, s1, b, n);
        let block = Seq::new(f, |c: int| interp_output(hp, taps, b, zero, n, f, c));
        assert(block =~= filtered(zero, taps, hp, b, n));
        assert(interp_run(hist, taps, xs, zero, n, f) =~= filtered(zero, taps, hist, s1 + b, n));
    } else {
        assert(interp_run(hist, taps, xs, zero, n, f) =~= filtered(zero, taps, hist, stuffed_all(xs, zero, f), n));
    }
}

} // verus!
