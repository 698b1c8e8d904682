use vstd::prelude::*;

verus! {

/// A payload paired with its score, ordered so that the smallest score is the greatest entry:
/// a max-oriented priority queue over `MinScored` pops the cheapest entry first.
///
/// Scores are unsigned integers, which are totally ordered, so no tie-break for incomparable
/// scores is ever needed.
#[derive(Copy, Clone, Debug)]
pub struct MinScored<T, K>(pub T, pub K);

/// The order of two entries with scores `left` and `right`: reversed score order.
pub open spec fn min_scored_order(left: u64, right: u64) -> std::cmp::Ordering {
    if left < right {
        std::cmp::Ordering::Greater
    } else if left == right {
        std::cmp::Ordering::Equal
    } else {
        std::cmp::Ordering::Less
    }
}

impl<T> MinScored<T, u64> {
    /// Compares two entries: the one with the smaller score is the greater.
    pub fn cmp(&self, other: &MinScored<T, u64>) -> (r: std::cmp::Ordering)
        ensures
            r == min_scored_order(self.1, other.1),
    {
        if self.1 < other.1 {
            std::cmp::Ordering::Greater
        } else if self.1 == other.1 {
            std::cmp::Ordering::Equal
        } else {
            std::cmp::Ordering::Less
        }
    }

    /// Two entries are equal in this order when their scores are equal.
    pub fn eq(&self, other: &MinScored<T, u64>) -> (r: bool)
        ensures
            r == (self.1 == other.1),
    {
        self.1 == other.1
    }
}

} // verus!
