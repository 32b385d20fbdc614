//! A counter that runs round and round below a maximum.

use vstd::prelude::*;

verus! {

/// A position that cycles through `0 .. max`.
pub struct IndexLoop<T> {
    current: T,
    max: T,
}

impl<T> IndexLoop<T> {
    /// The position that the next call of `next` hands out.
    pub closed spec fn current(&self) -> T {
        self.current
    }

    /// The bound below which the positions stay.
    pub closed spec fn max(&self) -> T {
        self.max
    }

    pub fn new(max: T, current: T) -> (r: Self)
        ensures
            r.max() == max,
            r.current() == current,
    {
        Self { current, max }
    }
}

impl IndexLoop<usize> {
    /// Hands out the current position and moves on by one, back to zero
    /// where the maximum is reached.
    pub fn next(&mut self) -> (r: usize)
        requires
            old(self).max() > 0,
            old(self).current() < usize::MAX,
        ensures
            r == old(self).current(),
            final(self).max() == old(self).max(),
            final(self).current() == (old(self).current() + 1) % (old(self).max() as int),
    {
        let current = self.current;
        self.current = (self.current + 1) % self.max;
        current
    }

    /// From a position below the maximum, the next position is the one
    /// behind it, or zero where that is the maximum: it stays below the
    /// maximum.
    pub proof fn law_stays_below(current: int, max: int)
        requires
            0 <= current < max,
        ensures
            0 <= (current + 1) % max < max,
            (current + 1) % max == if current + 1 == max {
                0
            } else {
                current + 1
            },
    {
        if current + 1 == max {
            assert(max % max == 0) by (nonlinear_arith)
                requires
                    max > 0,
            ;
        } else {
            assert((current + 1) % max == current + 1) by (nonlinear_arith)
                requires
                    0 <= current + 1 < max,
            ;
        }
    }
}

} // verus!
