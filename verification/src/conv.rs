//! FIR filtering by direct convolution.
use vstd::prelude::*;
use vstd::std_specs::ops::{AddSpec, MulSpec};
use core::ops::{Add, Mul};
use crate::ring::{SampleRing, pushed};

verus! {

/// The multiply-accumulate that FIR filtering performs: starting from `acc`,
/// for the indices `idx, idx + stride, ...` below `end`, in that order,
/// `acc` becomes `hist[k] * taps[k] + acc`.
pub open spec fn mac_fold<T, S: Mul<T, Output = S> + Add<S, Output = S>>(
    acc: S,
    hist: Seq<S>,
    taps: Seq<T>,
    idx: nat,
    stride: nat,
    end: nat,
) -> S
    decreases (if idx >= end { 0 } else { end - idx }),
{
    if idx >= end || stride == 0 {
        acc
    } else {
        let p = hist[idx as int].mul_spec(taps[idx as int]);
        mac_fold(p.add_spec(acc), hist, taps, idx + stride, stride, end)
    }
}

/// Every product and sum that `mac_fold` forms is defined (for integers: none
/// overflows).
pub open spec fn mac_defined<T, S: Mul<T, Output = S> + Add<S, Output = S>>(
    acc: S,
    hist: Seq<S>,
    taps: Seq<T>,
    idx: nat,
    stride: nat,
    end: nat,
) -> bool
    decreases (if idx >= end { 0 } else { end - idx }),
{
    if idx >= end || stride == 0 {
        true
    } else if !hist[idx as int].mul_req(taps[idx as int]) {
        false
    } else if !hist[idx as int].mul_spec(taps[idx as int]).add_req(acc) {
        false
    } else {
        mac_defined(
            hist[idx as int].mul_spec(taps[idx as int]).add_spec(acc),
            hist,
            taps,
            idx + stride,
            stride,
            end,
        )
    }
}

/// The arithmetic of the sample type is the one that vstd specifies
/// (integers: exact results within range).
pub open spec fn exact_arith<T, S: Mul<T, Output = S> + Add<S, Output = S>>() -> bool {
    <S as MulSpec<T>>::obeys_mul_spec() && <S as AddSpec<S>>::obeys_add_spec()
}

/// The strided multiply-accumulate over the first `end` entries, computed.
pub fn strided_mac<T: Copy, S: Copy + Mul<T, Output = S> + Add<S, Output = S>, const N: usize>(
    init: S,
    hist: &SampleRing<S, N>,
    taps: &[T; N],
    skip: usize,
    stride: usize,
    end: usize,
) -> (out: S)
    requires
        hist.wf(),
        stride > 0,
        end <= hist@.len(),
        end <= N,
        exact_arith::<T, S>(),
        mac_defined(init, hist@, taps@, skip as nat, stride as nat, end as nat),
    ensures
        out == mac_fold(init, hist@, taps@, skip as nat, stride as nat, end as nat),
{
    let mut acc = init;
    let mut k = skip;
    while k < end
        invariant
            hist.wf(),
            stride > 0,
            end <= hist@.len(),
            end <= N,
            taps@.len() == N,
            exact_arith::<T, S>(),
            mac_defined(acc, hist@, taps@, k as nat, stride as nat, end as nat),
            mac_fold(acc, hist@, taps@, k as nat, stride as nat, end as nat) == mac_fold(
                init,
                hist@,
                taps@,
                skip as nat,
                stride as nat,
                end as nat,
            ),
        decreases end - k,
    {
        let b = *hist.get(k);
        let a = taps[k];
        let p = b * a;
        assert(p == hist@[k as int].mul_spec(taps@[k as int]));
        let next = p + acc;
        assert(next == p.add_spec(acc));
        acc = next;
        if stride >= end - k {
            assert(mac_fold(acc, hist@, taps@, (k + stride) as nat, stride as nat, end as nat) == acc);
            k = end;
        } else {
            k = k + stride;
        }
    }
    acc
}


/// The history of a ring of capacity `n` after the samples `xs` arrive, in
/// order, on top of `hist`.
pub open spec fn history_after<S>(hist: Seq<S>, xs: Seq<S>, n: nat) -> Seq<S>
    decreases xs.len(),
{
    if xs.len() == 0 {
        hist
    } else {
        pushed(history_after(hist, xs.drop_last(), n), xs.last(), n)
    }
}

/// A full history after pushes: the pushed samples, newest first, in front of
/// the old history, cut to the capacity.
pub proof fn lemma_history_after_full<S>(h: Seq<S>, xs: Seq<S>, n: nat)
    requires
        h.len() == n,
    ensures
        history_after(h, xs, n) == (xs.reverse() + h).take(n as int),
    decreases xs.len(),
{
    if xs.len() > 0 {
        lemma_history_after_full(h, xs.drop_last(), n);
        let prev = history_after(h, xs.drop_last(), n);
        assert(prev.len() == n);
        assert(xs.reverse() =~= seq![xs.last()] + xs.drop_last().reverse());
        assert((seq![xs.last()] + prev).take(n as int) =~= (xs.reverse() + h).take(n as int));
    }
}

/// A history that is not yet full after pushes: the pushed samples, newest
/// first, in front of the old history, cut to the capacity once that is
/// reached.
pub proof fn lemma_history_after_partial<S>(h: Seq<S>, xs: Seq<S>, n: nat)
    requires
        h.len() <= n,
    ensures
        history_after(h, xs, n) == (xs.reverse() + h).take(
            if xs.len() + h.len() <= n {
                (xs.len() + h.len()) as int
            } else {
                n as int
            },
        ),
    decreases xs.len(),
{
    if xs.len() > 0 {
        lemma_history_after_partial(h, xs.drop_last(), n);
        let prev = history_after(h, xs.drop_last(), n);
        assert(xs.reverse() =~= seq![xs.last()] + xs.drop_last().reverse());
        if prev.len() < n {
            assert(seq![xs.last()] + prev =~= (xs.reverse() + h).take((xs.len() + h.len()) as int));
        } else {
            assert((seq![xs.last()] + prev).take(n as int) =~= (xs.reverse() + h).take(n as int));
        }
    }
}

/// Pushing `a` then `b` is pushing `a + b`.
pub proof fn lemma_history_after_append<S>(h: Seq<S>, a: Seq<S>, b: Seq<S>, n: nat)
    ensures
        history_after(h, a + b, n) == history_after(history_after(h, a, n), b, n),
    decreases b.len(),
{
    if b.len() == 0 {
        assert(a + b =~= a);
    } else {
        lemma_history_after_append(h, a, b.drop_last(), n);
        assert((a + b).drop_last() =~= a + b.drop_last());
        assert((a + b).last() == b.last());
    }
}

/// Filtering `a + b` gives the outputs for `a`, then the outputs for `b`
/// from the history that `a` left.
pub proof fn lemma_filtered_append<T, S: Mul<T, Output = S> + Add<S, Output = S>>(
    init: S,
    taps: Seq<T>,
    h: Seq<S>,
    a: Seq<S>,
    b: Seq<S>,
    n: nat,
)
    ensures
        filtered(init, taps, h, a + b, n) == filtered(init, taps, h, a, n) + filtered(
            init,
            taps,
            history_after(h, a, n),
            b,
            n,
        ),
{
    let lhs = filtered(init, taps, h, a + b, n);
    let rhs = filtered(init, taps, h, a, n) + filtered(init, taps, history_after(h, a, n), b, n);
    assert forall|i: int| 0 <= i < lhs.len() implies #[trigger] lhs[i] == rhs[i] by {
        if i < a.len() {
            assert((a + b).take(i + 1) =~= a.take(i + 1));
        } else {
            let j = i - a.len();
            assert((a + b).take(i + 1) =~= a + b.take(j + 1));
            lemma_history_after_append(h, a, b.take(j + 1), n);
        }
    }
    assert(lhs =~= rhs);
}

/// The outputs of an `n`-tap FIR filter with taps `taps`, accumulator start
/// `init` and history `hist`, for the input samples `xs`: output `i` is the
/// multiply-accumulate over the history once `xs[0..=i]` have arrived.
pub open spec fn filtered<T, S: Mul<T, Output = S> + Add<S, Output = S>>(
    init: S,
    taps: Seq<T>,
    hist: Seq<S>,
    xs: Seq<S>,
    n: nat,
) -> Seq<S> {
    Seq::new(
        xs.len(),
        |i: int| mac_fold(init, history_after(hist, xs.take(i + 1), n), taps, 0, 1, n),
    )
}

/// Every output of `filtered` is defined (for integers: no overflow).
pub open spec fn filter_defined<T, S: Mul<T, Output = S> + Add<S, Output = S>>(
    init: S,
    taps: Seq<T>,
    hist: Seq<S>,
    xs: Seq<S>,
    n: nat,
) -> bool {
    forall|i: int|
        0 <= i < xs.len() ==> #[trigger] mac_defined(
            init,
            history_after(hist, xs.take(i + 1), n),
            taps,
            0,
            1,
            n,
        )
}

/// `mac_fold` on 64-bit integers, computed in unbounded integers.
pub open spec fn mac_int(acc: int, hist: Seq<i64>, taps: Seq<i64>, idx: nat, stride: nat, end: nat) -> int
    decreases (if idx >= end { 0 } else { end - idx }),
{
    if idx >= end || stride == 0 {
        acc
    } else {
        mac_int(hist[idx as int] * taps[idx as int] + acc, hist, taps, idx + stride, stride, end)
    }
}

/// Without overflow, the 64-bit multiply-accumulate is the exact one.
pub proof fn lemma_mac_fold_exact(acc: i64, hist: Seq<i64>, taps: Seq<i64>, idx: nat, stride: nat, end: nat)
    requires
        mac_defined(acc, hist, taps, idx, stride, end),
    ensures
        mac_fold(acc, hist, taps, idx, stride, end) as int == mac_int(acc as int, hist, taps, idx, stride, end),
    decreases (if idx >= end { 0 } else { end - idx }),
{
    if idx < end && stride > 0 {
        let p = hist[idx as int].mul_spec(taps[idx as int]);
        lemma_mac_fold_exact(p.add_spec(acc), hist, taps, idx + stride, stride, end);
    }
}

/// The exact multiply-accumulate is linear in the history and the start:
/// if `h3 = a * h1 + h2` entrywise and `acc3 = a * acc1 + acc2`, then the
/// result for `h3` is `a` times the result for `h1` plus the result for `h2`.
pub proof fn lemma_mac_int_linear(
    a: int,
    acc1: int,
    acc2: int,
    acc3: int,
    h1: Seq<i64>,
    h2: Seq<i64>,
    h3: Seq<i64>,
    taps: Seq<i64>,
    idx: nat,
    stride: nat,
    end: nat,
)
    requires
        acc3 == a * acc1 + acc2,
        forall|k: int| idx <= k < end ==> #[trigger] h3[k] == a * h1[k] + h2[k],
    ensures
        mac_int(acc3, h3, taps, idx, stride, end) == a * mac_int(acc1, h1, taps, idx, stride, end)
            + mac_int(acc2, h2, taps, idx, stride, end),
    decreases (if idx >= end { 0 } else { end - idx }),
{
    if idx < end && stride > 0 {
        let i = idx as int;
        let t = taps[i] as int;
        let x1 = h1[i] as int;
        let x2 = h2[i] as int;
        let x3 = h3[i] as int;
        assert(x3 * t + acc3 == a * (x1 * t + acc1) + (x2 * t + acc2)) by (nonlinear_arith)
            requires
                x3 == a * x1 + x2,
                acc3 == a * acc1 + acc2,
        ;
        lemma_mac_int_linear(
            a,
            x1 * t + acc1,
            x2 * t + acc2,
            x3 * t + acc3,
            h1,
            h2,
            h3,
            taps,
            idx + stride,
            stride,
            end,
        );
    }
}

/// `n` zero samples.
pub open spec fn zero_history(n: nat) -> Seq<i64> {
    Seq::new(n, |i: int| 0i64)
}

/// The FIR filter is linear: for 64-bit samples and taps, a filter starting
/// from zero history and zero accumulation, and inputs `zs = a * xs + ys`
/// (entrywise), every output for `zs` is `a` times the output for `xs` plus
/// the output for `ys`, provided no step of the three runs overflows.
pub proof fn lemma_filter_linear(a: int, taps: Seq<i64>, xs: Seq<i64>, ys: Seq<i64>, zs: Seq<i64>, n: nat)
    requires
        xs.len() == ys.len(),
        zs.len() == xs.len(),
        forall|i: int| 0 <= i < xs.len() ==> #[trigger] zs[i] == a * xs[i] + ys[i],
        filter_defined(0i64, taps, zero_history(n), xs, n),
        filter_defined(0i64, taps, zero_history(n), ys, n),
        filter_defined(0i64, taps, zero_history(n), zs, n),
    ensures
        forall|i: int|
            0 <= i < xs.len() ==> #[trigger] filtered(0i64, taps, zero_history(n), zs, n)[i]
                as int == a * filtered(0i64, taps, zero_history(n), xs, n)[i] + filtered(
                0i64,
                taps,
                zero_history(n),
                ys,
                n,
            )[i],
{
    let z = zero_history(n);
    assert forall|i: int| 0 <= i < xs.len() implies #[trigger] filtered(0i64, taps, z, zs, n)[i] as int == a
        * filtered(0i64, taps, z, xs, n)[i] + filtered(0i64, taps, z, ys, n)[i] by {
        let hx = history_after(z, xs.take(i + 1), n);
        let hy = history_after(z, ys.take(i + 1), n);
        let hz = history_after(z, zs.take(i + 1), n);
        lemma_history_after_full(z, xs.take(i + 1), n);
        lemma_history_after_full(z, ys.take(i + 1), n);
        lemma_history_after_full(z, zs.take(i + 1), n);
        assert forall|k: int| 0 <= k < n implies #[trigger] hz[k] == a * hx[k] + hy[k] by {
            if k <= i {
                assert(hz[k] == zs[i - k]);
                assert(hx[k] == xs[i - k]);
                assert(hy[k] == ys[i - k]);
            } else {
                assert(hz[k] == 0 && hx[k] == 0 && hy[k] == 0);
                assert(a * 0 + 0 == 0) by (nonlinear_arith);
            }
        }
        assert(mac_defined(0i64, hx, taps, 0, 1, n));
        assert(mac_defined(0i64, hy, taps, 0, 1, n));
        assert(mac_defined(0i64, hz, taps, 0, 1, n));
        lemma_mac_fold_exact(0i64, hx, taps, 0, 1, n);
        lemma_mac_fold_exact(0i64, hy, taps, 0, 1, n);
        lemma_mac_fold_exact(0i64, hz, taps, 0, 1, n);
        assert(a * 0 + 0 == 0) by (nonlinear_arith);
        lemma_mac_int_linear(a, 0, 0, 0, hx, hy, hz, taps, 0, 1, n);
    }
}

/// A FIR filter: each sample enters a history of the last `N` samples, and
/// the output is `initial_value + sum of history[k] * taps[k]`, accumulated
/// from `k = 0` upwards.
#[derive(Debug)]
pub struct ConvIter<T, S, const N: usize> {
    taps: [T; N],
    buf: SampleRing<S, N>,
    initial_value: S,
}

impl<T, S, const N: usize> ConvIter<T, S, N> {
    /// The filter taps.
    pub closed spec fn taps(&self) -> Seq<T> {
        self.taps@
    }

    /// The last `N` samples, newest first.
    pub closed spec fn history(&self) -> Seq<S> {
        self.buf@
    }

    /// The value each accumulation starts from.
    pub closed spec fn initial(&self) -> S {
        self.initial_value
    }

    /// The history always holds exactly `N` samples.
    pub closed spec fn wf(&self) -> bool {
        &&& self.buf.wf()
        &&& self.buf@.len() == N
    }
}

impl<T: Copy, S: Copy + Mul<T, Output = S> + Add<S, Output = S>, const N: usize> ConvIter<T, S, N> {
    /// A filter with the given taps whose history is `N` copies of
    /// `initial_value`.
    pub fn new(taps: [T; N], initial_value: S) -> (res: Self)
        ensures
            res.wf(),
            res.taps() == taps@,
            res.history() == Seq::new(N as nat, |i: int| initial_value),
            res.initial() == initial_value,
    {
        let mut buf: SampleRing<S, N> = SampleRing::new();
        buf.fill(initial_value);
        ConvIter { taps, buf, initial_value }
    }

    /// A filter whose accumulation and history start from `S::default()`.
    pub fn new_default(taps: [T; N]) -> (res: Self) where S: Default
        ensures
            res.wf(),
            res.taps() == taps@,
            call_ensures(S::default, (), res.initial()),
            res.history() == Seq::new(N as nat, |i: int| res.initial()),
    {
        ConvIter::new(taps, S::default())
    }

    /// Forgets every sample seen: the history is `N` copies of the initial
    /// value again.
    pub fn reset(&mut self)
        ensures
            final(self).wf(),
            final(self).taps() == old(self).taps(),
            final(self).initial() == old(self).initial(),
            final(self).history() == Seq::new(N as nat, |i: int| old(self).initial()),
    {
        self.buf.fill(self.initial_value);
    }

    /// Pushes `sample` into the history and returns the filter output.
    pub fn filter_sample(&mut self, sample: S) -> (out: S)
        requires
            old(self).wf(),
            exact_arith::<T, S>(),
            mac_defined(
                old(self).initial(),
                pushed(old(self).history(), sample, N as nat),
                old(self).taps(),
                0,
                1,
                N as nat,
            ),
        ensures
            final(self).wf(),
            final(self).taps() == old(self).taps(),
            final(self).initial() == old(self).initial(),
            final(self).history() == pushed(old(self).history(), sample, N as nat),
            out == mac_fold(final(self).initial(), final(self).history(), final(self).taps(), 0, 1, N as nat),
    {
        self.buf.push_front(sample);
        strided_mac(self.initial_value, &self.buf, &self.taps, 0, 1, N)
    }

    /// Filters every sample of `samples`, in order, and returns the outputs.
    pub fn filter_iter(self, samples: &[S]) -> (out: Vec<S>)
        requires
            self.wf(),
            exact_arith::<T, S>(),
            filter_defined(self.initial(), self.taps(), self.history(), samples@, N as nat),
        ensures
            out@ == filtered(self.initial(), self.taps(), self.history(), samples@, N as nat),
    {
        let mut filter = self;
        let ghost h0 = filter.history();
        let ghost init = filter.initial();
        let ghost taps = filter.taps();
        let ghost xs = samples@;
        let mut out: Vec<S> = Vec::new();
        let mut i: usize = 0;
        while i < samples.len()
            invariant
                i <= xs.len(),
                xs == samples@,
                filter.wf(),
                exact_arith::<T, S>(),
                filter.initial() == init,
                filter.taps() == taps,
                filter.history() == history_after(h0, xs.take(i as int), N as nat),
                filter_defined(init, taps, h0, xs, N as nat),
                out@ == filtered(init, taps, h0, xs.take(i as int), N as nat),
            decreases samples.len() - i,
        {
            proof {
                assert(xs.take(i + 1).drop_last() =~= xs.take(i as int));
                assert(xs.take(i + 1).last() == xs[i as int]);
                assert(mac_defined(init, history_after(h0, xs.take(i + 1), N as nat), taps, 0, 1, N as nat));
            }
            let y = filter.filter_sample(samples[i]);
            out.push(y);
            proof {
                let ys = xs.take(i + 1);
                assert forall|j: int| 0 <= j < ys.len() implies #[trigger] ys.take(j + 1) == xs.take(j + 1) by {
                    assert(ys.take(j + 1) =~= xs.take(j + 1));
                }
                assert forall|j: int| 0 <= j < i implies #[trigger] xs.take(i as int).take(j + 1) == xs.take(j + 1) by {
                    assert(xs.take(i as int).take(j + 1) =~= xs.take(j + 1));
                }
                assert(out@ =~= filtered(init, taps, h0, ys, N as nat));
            }
            i = i + 1;
        }
        proof {
            assert(xs.take(xs.len() as int) =~= xs);
        }
        out
    }
}


/// Sample sequences that can be run through a fresh FIR filter.
pub trait ConvIterable<T: Copy, S: Copy + Mul<T, Output = S> + Add<S, Output = S>, const N: usize> {
    /// The samples, in order.
    spec fn samples(&self) -> Seq<S>;

    /// The outputs of a filter with the given taps whose history starts as
    /// `N` copies of `initial_value`, for each sample in turn.
    fn conv_iter(&self, taps: [T; N], initial_value: S) -> (out: Vec<S>)
        requires
            exact_arith::<T, S>(),
            filter_defined(
                initial_value,
                taps@,
                Seq::new(N as nat, |i: int| initial_value),
                self.samples(),
                N as nat,
            ),
        ensures
            out@ == filtered(
                initial_value,
                taps@,
                Seq::new(N as nat, |i: int| initial_value),
                self.samples(),
                N as nat,
            ),
    ;
}

impl<T: Copy, S: Copy + Mul<T, Output = S> + Add<S, Output = S>, const N: usize> ConvIterable<
    T,
    S,
    N,
> for [S] {
    open spec fn samples(&self) -> Seq<S> {
        self@
    }

    fn conv_iter(&self, taps: [T; N], initial_value: S) -> (out: Vec<S>) {
        let filter = ConvIter::new(taps, initial_value);
        filter.filter_iter(self)
    }
}

} // verus!
