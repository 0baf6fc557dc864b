//! Zero stuffing: each sample is followed by a fixed number of filler items.
use vstd::prelude::*;

verus! {

/// Follows every sample with `count` copies of `item`.
pub struct Pad<T: Clone> {
    item: T,
    count: usize,
}

impl<T: Clone> Pad<T> {
    /// The filler item.
    pub closed spec fn item(&self) -> T {
        self.item
    }

    /// The number of filler items after each sample.
    pub closed spec fn count(&self) -> nat {
        self.count as nat
    }

    pub fn new(item: T, count: usize) -> (res: Self)
        ensures
            res.item() == item,
            res.count() == count,
    {
        Self { item, count }
    }

    /// The sample followed by `count` clones of the filler item.
    pub fn pad_sample(&self, sample: T) -> (out: Vec<T>)
        requires
            self.count() < usize::MAX,
        ensures
            out.len() == self.count() + 1,
            out[0] == sample,
            forall|i: int| 1 <= i < out.len() ==> cloned::<T>(self.item(), #[trigger] out[i]),
    {
        let mut out: Vec<T> = Vec::new();
        out.push(sample);
        let mut i: usize = 0;
        while i < self.count
            invariant
                i <= self.count,
                out.len() == i + 1,
                out[0] == sample,
                forall|j: int| 1 <= j < out.len() ==> cloned::<T>(self.item, #[trigger] out[j]),
            decreases self.count - i,
        {
            let x = self.item.clone();
            out.push(x);
            i = i + 1;
        }
        out
    }
}

} // verus!
