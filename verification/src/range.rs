//! Key ranges for range locking.
//!
//! A point lock protects one resource; a *range* lock protects a contiguous
//! span of keys, so that no other transaction can slip a new key into a span
//! that has been read. [`KeyRange`] is the span itself, an inclusive
//! `[start, end]` interval over `u64` keys. Inclusive bounds avoid the overflow
//! corner that half-open intervals hit at `u64::MAX`.
use vstd::prelude::*;

verus! {

/// An inclusive, never empty range of `u64` keys, `[start, end]`.
#[derive(Debug, Clone, Copy, PartialEq, Eq, Hash, Structural)]
pub struct KeyRange {
    pub(crate) start: u64,
    pub(crate) end: u64,
}

impl KeyRange {
    /// The inclusive lower bound.
    pub open(crate) spec fn lo(self) -> u64 {
        self.start
    }

    /// The inclusive upper bound.
    pub open(crate) spec fn hi(self) -> u64 {
        self.end
    }

    /// Every range has at least one key.
    #[verifier::type_invariant]
    pub open(crate) spec fn wf(self) -> bool {
        self.start <= self.end
    }

    /// Whether `key` lies in the range.
    pub open spec fn has(self, key: u64) -> bool {
        self.lo() <= key <= self.hi()
    }

    /// Whether the two ranges share a key.
    pub open spec fn meets(self, other: KeyRange) -> bool {
        exists|key: u64| self.has(key) && other.has(key)
    }

    /// Creates the inclusive range `[start, end]`, or `None` if `start > end`.
    #[must_use]
    pub fn new(start: u64, end: u64) -> (r: Option<Self>)
        ensures
            r is Some <==> start <= end,
            r matches Some(range) ==> range.lo() == start && range.hi() == end && range.wf(),
    {
        if start <= end {
            Some(KeyRange { start, end })
        } else {
            None
        }
    }

    /// Creates a range covering the single key `key`.
    #[must_use]
    pub fn point(key: u64) -> (range: Self)
        ensures
            range.lo() == key,
            range.hi() == key,
            range.wf(),
    {
        KeyRange { start: key, end: key }
    }

    /// Returns the inclusive lower bound.
    #[must_use]
    pub fn start(self) -> (key: u64)
        ensures
            key == self.lo(),
            self.has(key),
    {
        proof {
            use_type_invariant(&self);
        }
        self.start
    }

    /// Returns the inclusive upper bound.
    #[must_use]
    pub fn end(self) -> (key: u64)
        ensures
            key == self.hi(),
            self.has(key),
    {
        proof {
            use_type_invariant(&self);
        }
        self.end
    }

    /// Returns `true` if `key` falls within the range.
    #[must_use]
    pub fn contains(self, key: u64) -> (r: bool)
        ensures
            r == self.has(key),
            r <==> self.lo() <= key && key <= self.hi(),
    {
        self.start <= key && key <= self.end
    }

    /// Returns `true` if the two ranges share at least one key.
    #[must_use]
    pub fn overlaps(self, other: KeyRange) -> (r: bool)
        ensures
            r == self.meets(other),
            r == (self.lo() <= other.hi() && other.lo() <= self.hi()),
    {
        proof {
            use_type_invariant(&self);
            use_type_invariant(&other);
            if self.start <= other.end && other.start <= self.end {
                let key = if self.start <= other.start {
                    other.start
                } else {
                    self.start
                };
                assert(self.has(key) && other.has(key));
            }
        }
        self.start <= other.end && other.start <= self.end
    }

    /// Law: a range is given by its two bounds, and a key is in it exactly when it
    /// lies between them.
    pub proof fn law_range_is_its_bounds(self, other: KeyRange, key: u64)
        ensures
            self.has(key) <==> self.lo() <= key && key <= self.hi(),
            self.lo() == other.lo() && self.hi() == other.hi() <==> self == other,
    {
    }

    /// Law: two ranges overlap exactly when neither lies wholly beyond the other,
    /// which is when a key lies in both.
    pub proof fn law_overlap_by_bounds(self, other: KeyRange)
        requires
            self.lo() <= self.hi(),
            other.lo() <= other.hi(),
        ensures
            self.meets(other) <==> !(self.hi() < other.lo() || other.hi() < self.lo()),
            self.meets(other) <==> exists|key: u64|
                self.lo() <= key <= self.hi() && #[trigger] other.has(key),
    {
        let key = if self.lo() <= other.lo() {
            other.lo()
        } else {
            self.lo()
        };
        if !(self.hi() < other.lo() || other.hi() < self.lo()) {
            assert(self.has(key) && other.has(key));
        }
    }

    /// Law: overlap is symmetric, and a range overlaps itself.
    pub proof fn law_overlap_is_symmetric(self, other: KeyRange)
        ensures
            self.meets(other) == other.meets(self),
            self.wf() ==> self.meets(self),
    {
        assert(self.wf() ==> self.has(self.lo()));
    }

    /// Law: a range overlaps a single key exactly when it contains the key.
    pub proof fn law_overlap_with_a_point(self, point: KeyRange, key: u64)
        requires
            point.lo() == key,
            point.hi() == key,
        ensures
            self.meets(point) == self.has(key),
    {
        assert(point.has(key));
    }
}

} // verus!
