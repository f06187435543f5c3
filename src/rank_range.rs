use vstd::prelude::*;
use vstd::std_specs::cmp::PartialEqSpec;

verus! {

/// An inclusive range of ranks with `u32` bounds.
///
/// A range whose `start` is greater than its `end` is empty; every empty
/// range is equal to every other, whatever its bounds.
#[derive(Clone, Copy, Debug)]
pub struct RankRange {
    pub start: u32,
    pub end: u32,
}

impl RankRange {
    pub open spec fn spec_is_empty(self) -> bool {
        self.start > self.end
    }

    pub open spec fn spec_contains(self, value: int) -> bool {
        self.start <= value <= self.end
    }

    /// Two ranges are equivalent when they have the same bounds or are both empty.
    pub open spec fn equivalent(self, other: RankRange) -> bool {
        (self.start == other.start && self.end == other.end) || (self.spec_is_empty()
            && other.spec_is_empty())
    }

    /// The values that stepping through the range yields, in order.
    pub open spec fn values(self) -> Seq<u32> {
        if self.spec_is_empty() {
            Seq::empty()
        } else {
            Seq::new((self.end - self.start + 1) as nat, |i: int| (self.start + i) as u32)
        }
    }

    pub fn new(start: u32, end: u32) -> (r: Self)
        ensures
            r.start == start,
            r.end == end,
    {
        RankRange { start, end }
    }

    pub fn is_empty(&self) -> (r: bool)
        ensures
            r == self.spec_is_empty(),
    {
        self.start > self.end
    }

    pub fn contains(&self, value: u32) -> (r: bool)
        ensures
            r == self.spec_contains(value as int),
            self.spec_is_empty() ==> !r,
    {
        self.start <= value && value <= self.end
    }

    /// The values that the start of this range may take while it is edited
    /// within `bounds`: from the lower bound up to just below the current end.
    pub fn start_limits(&self, bounds: &RankRange) -> (r: RankRange)
        ensures
            r.start == bounds.start,
            r.end == if self.end == 0 {
                0
            } else {
                self.end - 1
            },
    {
        RankRange { start: bounds.start, end: self.end.saturating_sub(1) }
    }

    /// The values that the end of this range may take while it is edited
    /// within `bounds`: from just above the current start up to the upper bound.
    pub fn end_limits(&self, bounds: &RankRange) -> (r: RankRange)
        ensures
            r.start == if self.start == u32::MAX {
                u32::MAX
            } else {
                (self.start + 1) as u32
            },
            r.end == bounds.end,
    {
        RankRange { start: self.start.saturating_add(1), end: bounds.end }
    }

    /// Yields the lowest value still in the range and removes it, or `None`
    /// once the range is empty. An empty range stays as it is.
    pub fn next(&mut self) -> (r: Option<u32>)
        ensures
            old(self).spec_is_empty() ==> r == None::<u32> && *final(self) == *old(self),
            !old(self).spec_is_empty() ==> r == Some(old(self).start) && final(self).values()
                == old(self).values().drop_first(),
            !old(self).spec_is_empty() && old(self).start < u32::MAX ==> final(self).start
                == old(self).start + 1 && final(self).end == old(self).end,
    {
        if self.is_empty() {
            None
        } else {
            let value = self.start;
            if self.start < u32::MAX {
                self.start = self.start + 1;
            } else {
                // Here start == end == u32::MAX: close the range from above.
                self.end = self.end - 1;
            }
            assert(self.values() =~= old(self).values().drop_first());
            Some(value)
        }
    }
}

impl PartialEq for RankRange {
    fn eq(&self, other: &RankRange) -> (r: bool) {
        (self.start == other.start && self.end == other.end) || (self.start > self.end
            && other.start > other.end)
    }
}

impl vstd::std_specs::cmp::PartialEqSpecImpl for RankRange {
    open spec fn obeys_eq_spec() -> bool {
        true
    }

    open spec fn eq_spec(&self, other: &RankRange) -> bool {
        self.equivalent(*other)
    }
}

impl Default for RankRange {
    /// The canonical empty range.
    fn default() -> (r: RankRange)
        ensures
            r.start == 4,
            r.end == 3,
            r.spec_is_empty(),
    {
        RankRange { start: 4, end: 3 }
    }
}

/// A non-empty range contains both of its bounds and neither of the values
/// just outside them.
pub proof fn lemma_contains_bounds(r: RankRange)
    requires
        !r.spec_is_empty(),
    ensures
        r.spec_contains(r.start as int),
        r.spec_contains(r.end as int),
        r.start > 0 ==> !r.spec_contains(r.start - 1),
        r.end < u32::MAX ==> !r.spec_contains(r.end + 1),
{
}

/// Any two empty ranges are equal, whatever their bounds.
pub proof fn lemma_empty_ranges_equal(r1: RankRange, r2: RankRange)
    requires
        r1.spec_is_empty(),
        r2.spec_is_empty(),
    ensures
        r1.eq_spec(&r2),
        r1.equivalent(r2),
{
}

/// Stepping through an empty range yields nothing and leaves it empty, so
/// every later step yields nothing as well.
pub proof fn lemma_empty_range_exhausted(r: RankRange)
    requires
        r.spec_is_empty(),
    ensures
        r.values() == Seq::<u32>::empty(),
{
}

} // verus!
