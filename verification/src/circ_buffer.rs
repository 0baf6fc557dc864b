//! A fixed array read as a ring that starts at a movable position.
use vstd::prelude::*;

verus! {

/// A fixed array of `N` items, read as a ring that starts at `pos`.
pub struct MyCircBuf<T, const N: usize> {
    buf: [T; N],
    pos: usize,
}

/// The start position after `k` calls of `step` from position `p`.
pub open spec fn pos_after(n: nat, p: nat, k: nat) -> nat
    decreases k,
{
    if k == 0 {
        p
    } else {
        let q = pos_after(n, p, (k - 1) as nat);
        if q + 1 == n {
            0
        } else {
            q + 1
        }
    }
}

/// What `step_by(step_size)` returns for the items `buf` read from `pos`:
/// the items at positions `pos`, `pos + step_size`, ... (taken round the ring)
/// for every multiple of `step_size` below the ring's length.
pub open spec fn strided_read<T>(buf: Seq<T>, pos: nat, step_size: nat) -> Seq<T> {
    Seq::new(
        (buf.len() + step_size - 1) as nat / step_size,
        |i: int| buf[(i * step_size + pos) % (buf.len() as int)],
    )
}

impl<T, const N: usize> MyCircBuf<T, N> {
    #[verifier::type_invariant]
    spec fn inv(self) -> bool {
        self.pos == 0 || self.pos < N
    }
}

impl<T: Copy, const N: usize> MyCircBuf<T, N> {
    /// The items of the ring, in array order.
    pub closed spec fn items(&self) -> Seq<T> {
        self.buf@
    }

    /// The position at which reading starts.
    pub closed spec fn pos(&self) -> nat {
        self.pos as nat
    }

    /// A ring over `buf` that starts at position 0.
    pub fn new(buf: [T; N]) -> (res: Self)
        ensures
            res.items() == buf@,
            res.pos() == 0,
    {
        MyCircBuf { buf, pos: 0 }
    }

    /// Moves the start one position on, wrapping from `N - 1` to `0`.
    pub fn step(&mut self)
        requires
            N > 0,
        ensures
            final(self).items() == old(self).items(),
            final(self).pos() == (if old(self).pos() + 1 == N {
                0
            } else {
                old(self).pos() + 1
            }),
    {
        proof {
            use_type_invariant(&*self);
        }
        if self.pos == (N - 1) {
            self.pos = 0;
        } else {
            let newpos = self.pos + 1;
            self.pos = newpos;
        }
    }

    /// The items at offsets `0, step_size, 2 * step_size, ...` below `N`,
    /// counted from the start position round the ring.
    pub fn step_by(&self, step_size: usize) -> (out: Vec<T>)
        requires
            step_size > 0 || N == 0,
        ensures
            forall|i: int| 0 <= i ==> (i < out.len() <==> #[trigger] (i * step_size) < N),
            forall|i: int|
                0 <= i < out.len() ==> #[trigger] out[i] == self.items()[(i * step_size
                    + self.pos()) % (N as int)],
            N > 0 ==> out@ == strided_read(self.items(), self.pos(), step_size as nat),
    {
        proof {
            use_type_invariant(self);
        }
        let mut out: Vec<T> = Vec::new();
        if N == 0 {
            return out;
        }
        let mut counter: usize = 0;
        assert(0 * step_size == 0);
        while counter < N
            invariant_except_break
                counter < N,
                counter == out.len() * step_size,
            invariant
                N > 0,
                step_size > 0,
                self.pos < N,
                self.buf@.len() == N,
                forall|i: int|
                    0 <= i < out.len() ==> #[trigger] out[i] == self.buf@[(i * step_size
                        + self.pos) % (N as int)],
                forall|i: int| 0 <= i < out.len() ==> #[trigger] (i * step_size) < N,
            ensures
                out.len() * step_size >= N,
            decreases N - counter,
        {
            let index = if counter < N - self.pos {
                counter + self.pos
            } else {
                counter - (N - self.pos)
            };
            proof {
                let x = counter + self.pos;
                if x < N {
                    assert(x % (N as int) == x) by (nonlinear_arith)
                        requires
                            0 <= x < N,
                    ;
                } else {
                    assert(x % (N as int) == x - N) by (nonlinear_arith)
                        requires
                            N <= x < 2 * N,
                    ;
                }
            }
            let item = self.buf[index];
            let ghost len = out.len();
            out.push(item);
            proof {
                assert((len + 1) * step_size == len * step_size + step_size) by (nonlinear_arith);
            }
            if step_size >= N - counter {
                break;
            }
            counter = counter + step_size;
        }
        proof {
            let len = out.len() as int;
            assert forall|i: int| 0 <= i implies (i < out.len() <==> #[trigger] (i * step_size) < N) by {
                if i < len {
                    assert(i * step_size <= (len - 1) * step_size) by (nonlinear_arith)
                        requires
                            i <= len - 1,
                            step_size > 0,
                    ;
                    assert((len - 1) * step_size < N);
                } else {
                    assert(i * step_size >= len * step_size) by (nonlinear_arith)
                        requires
                            i >= len,
                            step_size > 0,
                    ;
                }
            }
            let st = step_size as int;
            let n = N as int;
            assert(len * st >= n);
            assert(len >= 1) by (nonlinear_arith)
                requires
                    len * st >= n,
                    n > 0,
                    len >= 0,
            ;
            assert((len - 1) * st < n);
            assert((n + st - 1) / st == len) by (nonlinear_arith)
                requires
                    len * st >= n,
                    (len - 1) * st < n,
                    st > 0,
            ;
            assert(out@ =~= strided_read(self.items(), self.pos(), step_size as nat));
        }
        out
    }
}

/// `k` steps from position `p` land on `(p + k) mod n`; in particular `n`
/// steps bring the ring back to where it started.
pub proof fn lemma_steps_wrap(n: nat, p: nat, k: nat)
    requires
        p < n,
    ensures
        pos_after(n, p, k) == (p as int + k as int) % (n as int),
        pos_after(n, p, n) == p,
{
    lemma_steps_mod(n, p, k);
    lemma_steps_mod(n, p, n);
    assert((p as int + n as int) % (n as int) == p) by (nonlinear_arith)
        requires
            0 <= p < n,
    ;
}

proof fn lemma_steps_mod(n: nat, p: nat, k: nat)
    requires
        p < n,
    ensures
        pos_after(n, p, k) == (p as int + k as int) % (n as int),
    decreases k,
{
    let ni = n as int;
    let pi = p as int;
    let ki = k as int;
    if k > 0 {
        lemma_steps_mod(n, p, (k - 1) as nat);
        let q = pos_after(n, p, (k - 1) as nat) as int;
        if q + 1 == ni {
            assert((pi + ki) % ni == 0) by (nonlinear_arith)
                requires
                    q == (pi + ki - 1) % ni,
                    q + 1 == ni,
                    ni > 0,
            ;
        } else {
            assert((pi + ki) % ni == q + 1) by (nonlinear_arith)
                requires
                    q == (pi + ki - 1) % ni,
                    q + 1 < ni,
                    ni > 0,
            ;
        }
    } else {
        assert(pi % ni == pi) by (nonlinear_arith)
            requires
                0 <= pi < ni,
        ;
    }
}

/// Reading with a step of 1 gives the array rotated to start at `pos`.
pub proof fn lemma_step_by_one_is_rotation<T>(buf: Seq<T>, pos: nat)
    requires
        pos < buf.len(),
    ensures
        strided_read(buf, pos, 1) == buf.subrange(pos as int, buf.len() as int) + buf.subrange(
            0,
            pos as int,
        ),
{
    let n = buf.len() as int;
    let lhs = strided_read(buf, pos, 1);
    let rhs = buf.subrange(pos as int, n) + buf.subrange(0, pos as int);
    assert((n + 1 - 1) / 1 == n) by (nonlinear_arith);
    assert forall|i: int| 0 <= i < n implies #[trigger] lhs[i] == rhs[i] by {
        assert(i * 1 == i);
        if i + pos < n {
            assert((i + pos) % n == i + pos) by (nonlinear_arith)
                requires
                    0 <= i + pos < n,
            ;
        } else {
            assert((i + pos) % n == i + pos - n) by (nonlinear_arith)
                requires
                    n <= i + pos < 2 * n,
            ;
        }
    }
    assert(lhs =~= rhs);
}

} // verus!
