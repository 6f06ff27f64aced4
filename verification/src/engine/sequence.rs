use vstd::prelude::*;

verus! {

/// Rotating sequence of order identifiers over an inclusive range.
pub struct TradeSequence {
    min_id: u64,
    max_id: u64,
    current_idx: u64,
}

impl TradeSequence {
    /// Lower bound of the identifier range.
    pub closed spec fn min(&self) -> u64 {
        self.min_id
    }

    /// Upper bound of the identifier range.
    pub closed spec fn max(&self) -> u64 {
        self.max_id
    }

    /// The identifier that the next call of `next_id` hands out.
    pub closed spec fn upcoming(&self) -> u64 {
        self.current_idx
    }

    /// The upcoming identifier lies inside the range.
    pub open spec fn wf(&self) -> bool {
        self.min() <= self.upcoming() <= self.max()
    }

    /// The identifier that follows `id` in the rotation over `[min, max]`.
    pub open spec fn successor(min: u64, max: u64, id: u64) -> u64 {
        if id < max {
            (id + 1) as u64
        } else {
            min
        }
    }

    /// Hands out the upcoming identifier and advances the rotation,
    /// wrapping to the lower bound after the upper bound.
    pub fn next_id(&mut self) -> (id: u64)
        ensures
            id == old(self).upcoming(),
            final(self).min() == old(self).min(),
            final(self).max() == old(self).max(),
            final(self).upcoming() == Self::successor(
                old(self).min(),
                old(self).max(),
                old(self).upcoming(),
            ),
            old(self).wf() ==> final(self).wf() && old(self).min() <= id <= old(self).max(),
    {
        let next_id: u64 = self.current_idx;
        if next_id < self.max_id {
            self.current_idx = next_id + 1;
        } else {
            self.current_idx = self.min_id;
        }
        next_id
    }

    /// The identifier that the next call of `next_id` hands out.
    pub fn current_idx(&self) -> (id: u64)
        ensures
            id == self.upcoming(),
    {
        self.current_idx
    }
}

/// A sequence over `[min, max]` that starts at `min`.
pub fn new_sequence_gen(min: u64, max: u64) -> (seq: TradeSequence)
    ensures
        seq.min() == min,
        seq.max() == max,
        seq.upcoming() == min,
        min <= max ==> seq.wf(),
{
    TradeSequence { min_id: min, max_id: max, current_idx: min }
}

} // verus!
