//! Decimation by an integer factor: keep the first of every `N` samples.
use vstd::prelude::*;

verus! {

/// Keeps one sample out of every `N`.
///
/// The counter runs through `1, 2, ..., N, 1, 2, ...`; a sample is kept when
/// the counter reads `1`.
pub struct Keep1InN<const N: usize> {
    counter: usize,
}

/// The counter value that follows `c` for a decimation factor `n`.
pub open spec fn next_counter(n: nat, c: nat) -> nat {
    if c == n {
        1
    } else {
        c + 1
    }
}

/// The counter value after `k` calls of `test_keep`, starting from `c`.
pub open spec fn counter_after(n: nat, c: nat, k: nat) -> nat
    decreases k,
{
    if k == 0 {
        c
    } else {
        next_counter(n, counter_after(n, c, (k - 1) as nat))
    }
}

impl<const N: usize> View for Keep1InN<N> {
    type V = nat;

    /// The current counter value.
    closed spec fn view(&self) -> nat {
        self.counter as nat
    }
}

impl<const N: usize> Keep1InN<N> {
    #[verifier::type_invariant]
    spec fn inv(self) -> bool {
        N == 0 || self.counter <= N
    }

    /// A fresh decimator, whose next call keeps its sample.
    pub fn new() -> (res: Self)
        ensures
            res@ == 1,
    {
        Keep1InN { counter: 1 }
    }

    /// Tells whether the current sample is kept, and advances the counter.
    pub fn test_keep(&mut self) -> (keep: bool)
        requires
            N > 0 || old(self)@ < usize::MAX,
        ensures
            keep == (old(self)@ == 1),
            final(self)@ == (if old(self)@ == N {
                1
            } else {
                old(self)@ + 1
            }),
            final(self)@ == next_counter(N as nat, old(self)@),
    {
        proof {
            use_type_invariant(&*self);
        }
        let prev_counter = self.counter;
        let keep = prev_counter == 1;
        if prev_counter == N {
            self.counter = 1;
        } else {
            self.counter = prev_counter + 1;
        }
        keep
    }

    /// Sets the counter to zero: the next sample is dropped, the one after kept.
    pub fn reset(&mut self)
        ensures
            final(self)@ == 0,
    {
        self.counter = 0;
    }
}

impl<const N: usize> Default for Keep1InN<N> {
    fn default() -> (res: Self)
        ensures
            res@ == 1,
    {
        Self::new()
    }
}

/// The samples of `xs` that `test_keep` keeps when called once per sample,
/// in order, starting from counter `c`.
pub open spec fn kept_by<T>(xs: Seq<T>, n: nat, c: nat) -> Seq<T>
    decreases xs.len(),
{
    if xs.len() == 0 {
        Seq::empty()
    } else {
        let prev = kept_by(xs.drop_last(), n, c);
        if counter_after(n, c, (xs.len() - 1) as nat) == 1 {
            prev.push(xs.last())
        } else {
            prev
        }
    }
}

/// Every `n`-th sample of `xs`, starting with the first.
pub open spec fn every_nth<T>(xs: Seq<T>, n: nat) -> Seq<T> {
    Seq::new(((xs.len() + n - 1) as int / (n as int)) as nat, |j: int| xs[j * n])
}

/// Filtering a sequence with a fresh decimator keeps every `n`-th sample,
/// starting with the first: `(len + n - 1) / n` samples in all.
pub proof fn lemma_decimation_is_every_nth<T>(xs: Seq<T>, n: nat)
    requires
        n > 0,
    ensures
        kept_by(xs, n, 1) == every_nth(xs, n),
    decreases xs.len(),
{
    let ni = n as int;
    if xs.len() == 0 {
        assert((0 + ni - 1) / ni == 0) by (nonlinear_arith)
            requires
                ni > 0,
        ;
        assert(kept_by(xs, n, 1) =~= every_nth(xs, n));
    } else {
        let ys = xs.drop_last();
        lemma_decimation_is_every_nth(ys, n);
        let m = ys.len() as int;
        lemma_keeps_one_in_n(n, m as nat);
        let q = m / ni;
        let r = m % ni;
        assert(m == q * ni + r && 0 <= r < ni && q >= 0) by (nonlinear_arith)
            requires
                ni > 0,
                m >= 0,
                q == m / ni,
                r == m % ni,
        ;
        let prev_len = (m + ni - 1) / ni;
        let new_len = (m + 1 + ni - 1) / ni;
        assert forall|j: int| 0 <= j < prev_len implies #[trigger] (j * ni) < m by {
            assert(j * ni < m) by (nonlinear_arith)
                requires
                    0 <= j,
                    j < (m + ni - 1) / ni,
                    ni > 0,
            ;
        }
        if r == 0 {
            assert(prev_len == q && new_len == q + 1) by (nonlinear_arith)
                requires
                    m == q * ni,
                    ni > 0,
                    q >= 0,
                    prev_len == (m + ni - 1) / ni,
                    new_len == (m + 1 + ni - 1) / ni,
            ;
            assert(q * ni == m);
            assert(kept_by(xs, n, 1) =~= every_nth(xs, n));
        } else {
            assert(prev_len == q + 1 && new_len == q + 1) by (nonlinear_arith)
                requires
                    m == q * ni + r,
                    0 < r < ni,
                    q >= 0,
                    prev_len == (m + ni - 1) / ni,
                    new_len == (m + 1 + ni - 1) / ni,
            ;
            assert(kept_by(xs, n, 1) =~= every_nth(xs, n));
        }
    }
}

/// `k + 1` calls from `c` are one call from `c`, then `k` calls.
proof fn lemma_counter_after_shift(n: nat, c: nat, k: nat)
    ensures
        counter_after(n, c, k + 1) == counter_after(n, next_counter(n, c), k),
    decreases k,
{
    if k > 0 {
        lemma_counter_after_shift(n, c, (k - 1) as nat);
        assert(counter_after(n, c, k + 1) == next_counter(n, counter_after(n, c, k)));
        assert(counter_after(n, next_counter(n, c), k) == next_counter(
            n,
            counter_after(n, next_counter(n, c), (k - 1) as nat),
        ));
    } else {
        assert(counter_after(n, c, 0) == c);
        assert(counter_after(n, c, 1) == next_counter(n, counter_after(n, c, 0)));
    }
}

/// After `reset` (counter 0), with factor `n > 0`: the first call moves the
/// counter to 1 and drops its sample; the counter after `k >= 1` calls is
/// `(k - 1) mod n + 1`, so call number `k` (counting from 1) keeps its
/// sample exactly when `(k - 1) mod n == 0`: the second call after a reset
/// keeps, then every `n`-th.
pub proof fn lemma_keeps_after_reset(n: nat, k: nat)
    requires
        n > 0,
        k >= 1,
    ensures
        counter_after(n, 0, 1) == 1,
        counter_after(n, 0, k) == (k as int - 1) % (n as int) + 1,
        (counter_after(n, 0, k) == 1) == ((k as int - 1) % (n as int) == 0),
{
    lemma_counter_after_shift(n, 0, (k - 1) as nat);
    lemma_counter_after_shift(n, 0, 0);
    assert(next_counter(n, 0) == 1);
    assert(counter_after(n, 1, 0) == 1);
    lemma_keeps_one_in_n(n, (k - 1) as nat);
}

/// From a fresh decimator (counter 1), the counter after `k` calls is
/// `k mod n + 1`, so call number `k` (counting from 0) keeps its sample
/// exactly when `k` is a multiple of `n`: one sample in every `n` is kept,
/// starting with the first.
pub proof fn lemma_keeps_one_in_n(n: nat, k: nat)
    requires
        n > 0,
    ensures
        counter_after(n, 1, k) == (k as int) % (n as int) + 1,
        (counter_after(n, 1, k) == 1) == ((k as int) % (n as int) == 0),
    decreases k,
{
    let ni = n as int;
    let ki = k as int;
    if k == 0 {
        assert(0int % ni == 0) by (nonlinear_arith)
            requires
                ni > 0,
        ;
    } else {
        lemma_keeps_one_in_n(n, (k - 1) as nat);
        let r = (ki - 1) % ni;
        if r + 1 == ni {
            assert(ki % ni == 0) by (nonlinear_arith)
                requires
                    r == (ki - 1) % ni,
                    r + 1 == ni,
                    ni > 0,
            ;
        } else {
            assert(ki % ni == r + 1) by (nonlinear_arith)
                requires
                    r == (ki - 1) % ni,
                    r + 1 < ni,
                    ni > 0,
                    ki >= 1,
            ;
        }
    }
}

} // verus!
