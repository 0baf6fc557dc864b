//! A bounded history of samples, newest first.
use vstd::prelude::*;
use std::collections::VecDeque;

verus! {

/// At most `N` samples, newest first; pushing onto a full ring drops the
/// oldest sample.
#[derive(Debug)]
pub struct SampleRing<S, const N: usize> {
    items: VecDeque<S>,
}

/// The history after `x` arrives in a ring of capacity `n`: `x` in front,
/// the oldest sample dropped when the ring was full.
pub open spec fn pushed<S>(hist: Seq<S>, x: S, n: nat) -> Seq<S> {
    if hist.len() < n {
        seq![x] + hist
    } else {
        (seq![x] + hist).take(n as int)
    }
}

impl<S, const N: usize> View for SampleRing<S, N> {
    type V = Seq<S>;

    closed spec fn view(&self) -> Seq<S> {
        self.items@
    }
}

impl<S, const N: usize> SampleRing<S, N> {
    /// The ring holds no more than its capacity.
    pub closed spec fn wf(&self) -> bool {
        self.items@.len() <= N
    }

    /// An empty ring.
    pub fn new() -> (res: Self)
        ensures
            res.wf(),
            res@ == Seq::<S>::empty(),
    {
        SampleRing { items: VecDeque::new() }
    }

    /// The number of samples held.
    pub fn len(&self) -> (n: usize)
        requires
            self.wf(),
        ensures
            n == self@.len(),
            n <= N,
    {
        self.items.len()
    }

    /// The `i`-th newest sample.
    pub fn get(&self, i: usize) -> (x: &S)
        requires
            i < self@.len(),
        ensures
            *x == self@[i as int],
    {
        &self.items[i]
    }

    /// Puts `x` in front, dropping the oldest sample when the ring is full.
    pub fn push_front(&mut self, x: S)
        requires
            old(self).wf(),
        ensures
            final(self).wf(),
            final(self)@ == pushed(old(self)@, x, N as nat),
    {
        if N == 0 {
            return;
        }
        let full = self.items.len() == N;
        if full {
            let _ = self.items.pop_back();
        }
        self.items.push_front(x);
        proof {
            assert(self.items@ =~= pushed(old(self)@, x, N as nat));
        }
    }
}

impl<S: Copy, const N: usize> SampleRing<S, N> {
    /// Replaces the contents by `N` copies of `value`.
    pub fn fill(&mut self, value: S)
        ensures
            final(self).wf(),
            final(self)@ == Seq::new(N as nat, |i: int| value),
    {
        let mut items: VecDeque<S> = VecDeque::new();
        let mut i: usize = 0;
        while i < N
            invariant
                i <= N,
                items@ == Seq::new(i as nat, |j: int| value),
            decreases N - i,
        {
            items.push_back(value);
            i = i + 1;
            proof {
                assert(items@ =~= Seq::new(i as nat, |j: int| value));
            }
        }
        self.items = items;
    }
}

} // verus!
