//! The per-cell tally of peers holding each digit.
use vstd::prelude::*;

verus! {

/// Counts, for each digit 1 to 9, how many peers of a cell currently hold it.
/// The count for digit `d` is stored at index `d - 1`.
#[derive(Copy, Clone, Debug, PartialEq, Eq, Hash)]
pub struct Obstruction(pub [u8; 9]);

impl Obstruction {
    /// The count for digit `d`.
    pub open spec fn count(self, d: int) -> int {
        self.0@[d - 1] as int
    }

    pub fn new() -> (r: Obstruction)
        ensures
            forall|d: int| 1 <= d <= 9 ==> r.count(d) == 0,
    {
        Obstruction([0u8; 9])
    }

    /// One more peer holds `number`.
    pub fn add(&mut self, number: u8)
        requires
            1 <= number <= 9,
            old(self).count(number as int) < 255,
        ensures
            final(self).0@ == old(self).0@.update(number - 1, (old(self).count(number as int) + 1) as u8),
    {
        let i = (number - 1) as usize;
        self.0[i] = self.0[i] + 1;
    }

    /// One peer fewer holds `number`.
    pub fn remove(&mut self, number: u8)
        requires
            1 <= number <= 9,
            old(self).count(number as int) > 0,
        ensures
            final(self).0@ == old(self).0@.update(number - 1, (old(self).count(number as int) - 1) as u8),
    {
        let i = (number - 1) as usize;
        self.0[i] = self.0[i] - 1;
    }

    /// How many peers hold `number`.
    pub fn for_number(&self, number: u8) -> (r: u8)
        requires
            1 <= number <= 9,
        ensures
            r == self.count(number as int),
    {
        self.0[(number - 1) as usize]
    }

    /// Every digit is held by exactly three peers.
    pub fn is_full(&self) -> (r: bool)
        ensures
            r == forall|d: int| 1 <= d <= 9 ==> self.count(d) == 3,
    {
        let mut i: usize = 0;
        while i < 9
            invariant
                i <= 9,
                forall|j: int| 0 <= j < i ==> self.0@[j] == 3,
            decreases 9 - i,
        {
            if self.0[i] != 3 {
                assert(self.count(i + 1) != 3);
                return false;
            }
            i = i + 1;
        }
        assert forall|d: int| 1 <= d <= 9 implies self.count(d) == 3 by {
            assert(self.0@[d - 1] == 3);
        }
        true
    }
}

} // verus!
