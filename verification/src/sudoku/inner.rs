//! A compact duplicate counter over one group (row, column or box) of digits.

use vstd::prelude::*;

verus! {

/// Counts duplicates among the digits fed to it, using a bitmask of digits
/// already seen. One instance serves exactly one group; a fresh instance is
/// required per row, column or box.
pub struct Scorer {
    seen: u64,
    score: u32,
}

impl Scorer {
    /// Whether `digit` has been fed to this scorer before (bit `digit` of the
    /// `seen` mask is set).
    pub closed spec fn has_seen(&self, digit: u8) -> bool {
        (self.seen >> (digit as u64)) & 1 == 1
    }

    /// The number of duplicates counted so far.
    pub closed spec fn dup_score(&self) -> u32 {
        self.score
    }

    /// Feeds one digit: counts it as a duplicate if already seen, otherwise
    /// marks it as seen.
    pub fn check(&mut self, digit: u8)
        requires
            digit < 64,
            old(self).dup_score() < u32::MAX,
        ensures
            final(self).dup_score() == old(self).dup_score() + if old(self).has_seen(digit) {
                1int
            } else {
                0int
            },
            forall|e: u8|
                e < 64 ==> (final(self).has_seen(e) <==> old(self).has_seen(e) || (!old(
                    self,
                ).has_seen(digit) && e == digit)),
    {
        let bit: u64 = 1u64 << (digit as u64);
        proof {
            let s = self.seen;
            let d = digit as u64;
            assert((s & (1u64 << d) != 0) == ((s >> d) & 1 == 1)) by (bit_vector)
                requires
                    d < 64,
            ;
            assert(forall|e: u64|
                e < 64 ==> ((((s | (1u64 << d)) >> e) & 1 == 1) <==> ((s >> e) & 1 == 1 || e
                    == d))) by (bit_vector)
                requires
                    d < 64,
            ;
        }
        if self.seen & bit != 0 {
            self.score = self.score + 1;
        } else {
            self.seen = self.seen | bit;
        }
    }

    /// Consumes the scorer and returns the duplicate count for its group.
    pub fn score(self) -> (r: u32)
        ensures
            r == self.dup_score(),
    {
        self.score
    }
}

impl Default for Scorer {
    /// A fresh scorer: nothing seen, no duplicates.
    fn default() -> (r: Self)
        ensures
            r.dup_score() == 0,
            forall|e: u8| !r.has_seen(e),
    {
        proof {
            assert(forall|e: u64| (0u64 >> e) & 1 == 0) by (bit_vector);
        }
        Scorer { seen: 0, score: 0 }
    }
}

} // verus!
