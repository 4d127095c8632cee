//! Lock modes and the compatibility matrix.
//!
//! The compatibility matrix is the correctness core of a lock manager: it
//! decides, for any two transactions contending for the same resource, whether
//! both requests can be held at once. The five modes are the standard
//! multi-granularity ones. Two of them are the fundamental shared (read) and
//! exclusive (write) modes. The others are *intention* modes, which a
//! transaction takes on a coarse resource (a table, say) to announce that it
//! will take a finer lock (a row) underneath it.
use vstd::prelude::*;

verus! {

/// The mode in which a transaction holds, or wants to hold, a lock.
///
/// What a mode grants is given by three privileges, each implying the weaker
/// ones: reading the whole resource, writing parts of it, and writing the whole
/// of it. Every mode allows announcing reads of finer resources.
#[derive(Debug, Clone, Copy, PartialEq, Eq, PartialOrd, Ord, Hash, Structural)]
pub enum LockMode {
    /// Intention shared (IS). Announces shared locks on finer resources.
    IntentionShared,
    /// Intention exclusive (IX). Announces exclusive (or shared) locks on finer
    /// resources.
    IntentionExclusive,
    /// Shared (S). A read lock.
    Shared,
    /// Shared and intention exclusive (SIX). Reads the whole subtree and intends
    /// to write part of it.
    SharedIntentionExclusive,
    /// Exclusive (X). A write lock.
    Exclusive,
}

impl LockMode {
    /// Whether the mode grants reading the whole resource.
    pub open spec fn reads_all(self) -> bool {
        self is Shared || self is SharedIntentionExclusive || self is Exclusive
    }

    /// Whether the mode grants announcing writes beneath the resource.
    pub open spec fn writes_part(self) -> bool {
        self is IntentionExclusive || self is SharedIntentionExclusive || self is Exclusive
    }

    /// Whether the mode grants writing the whole resource.
    pub open spec fn writes_all(self) -> bool {
        self is Exclusive
    }

    /// Whether two transactions may hold the two modes on one resource at once:
    /// neither writes the whole, and neither reads the whole while the other
    /// writes parts.
    pub open spec fn compatible(self, other: LockMode) -> bool {
        &&& !self.writes_all()
        &&& !other.writes_all()
        &&& !(self.reads_all() && other.writes_part())
        &&& !(self.writes_part() && other.reads_all())
    }

    /// Whether `self` grants everything that `other` grants.
    pub open spec fn at_least(self, other: LockMode) -> bool {
        &&& other.reads_all() ==> self.reads_all()
        &&& other.writes_part() ==> self.writes_part()
        &&& other.writes_all() ==> self.writes_all()
    }

    /// The mode that grants exactly what `self` and `other` grant together.
    pub open spec fn joined(self, other: LockMode) -> LockMode {
        if self.writes_all() || other.writes_all() {
            LockMode::Exclusive
        } else if self.reads_all() || other.reads_all() {
            if self.writes_part() || other.writes_part() {
                LockMode::SharedIntentionExclusive
            } else {
                LockMode::Shared
            }
        } else if self.writes_part() || other.writes_part() {
            LockMode::IntentionExclusive
        } else {
            LockMode::IntentionShared
        }
    }

    /// The row and the column of the mode in the compatibility and join tables.
    pub open spec fn row(self) -> nat {
        match self {
            LockMode::IntentionShared => 0,
            LockMode::IntentionExclusive => 1,
            LockMode::Shared => 2,
            LockMode::SharedIntentionExclusive => 3,
            LockMode::Exclusive => 4,
        }
    }

    /// Maps a mode to its row and column in the compatibility and join tables.
    fn index(self) -> (i: usize)
        ensures
            i == self.row(),
            i < 5,
    {
        match self {
            LockMode::IntentionShared => 0,
            LockMode::IntentionExclusive => 1,
            LockMode::Shared => 2,
            LockMode::SharedIntentionExclusive => 3,
            LockMode::Exclusive => 4,
        }
    }

    /// Returns `true` if a lock in `self` mode and a lock in `other` mode may be
    /// held on the same resource by two different transactions at once.
    ///
    /// |         | IS  | IX  | S   | SIX | X  |
    /// |---------|-----|-----|-----|-----|----|
    /// | **IS**  | yes | yes | yes | yes | no |
    /// | **IX**  | yes | yes | no  | no  | no |
    /// | **S**   | yes | no  | yes | no  | no |
    /// | **SIX** | yes | no  | no  | no  | no |
    /// | **X**   | no  | no  | no  | no  | no |
    #[must_use]
    pub fn compatible_with(self, other: LockMode) -> (r: bool)
        ensures
            r == self.compatible(other),
    {
        // Rows and columns in the order IS, IX, S, SIX, X.
        let table: [[bool; 5]; 5] = [
            [true, true, true, true, false],
            [true, true, false, false, false],
            [true, false, true, false, false],
            [true, false, false, false, false],
            [false, false, false, false, false],
        ];
        table[self.index()][other.index()]
    }

    /// Returns the least mode that grants everything both `self` and `other`
    /// grant, their least upper bound in the privilege lattice.
    ///
    /// This is what an upgrade resolves to: a transaction already holding `self`
    /// that requests `other` ends up holding `self.join(other)`.
    #[must_use]
    pub fn join(self, other: LockMode) -> (r: LockMode)
        ensures
            r == self.joined(other),
    {
        let (is, ix, s, six, x) = (
            LockMode::IntentionShared,
            LockMode::IntentionExclusive,
            LockMode::Shared,
            LockMode::SharedIntentionExclusive,
            LockMode::Exclusive,
        );
        // Rows and columns in the order IS, IX, S, SIX, X.
        let table: [[LockMode; 5]; 5] = [
            [is, ix, s, six, x],
            [ix, ix, six, six, x],
            [s, six, s, six, x],
            [six, six, six, six, x],
            [x, x, x, x, x],
        ];
        table[self.index()][other.index()]
    }

    /// Returns `true` if holding `self` already grants everything `other` would.
    ///
    /// Equivalent to `self.join(other) == self`.
    #[must_use]
    pub fn covers(self, other: LockMode) -> (r: bool)
        ensures
            r == self.at_least(other),
            r == (self.joined(other) == self),
    {
        self.join(other) == self
    }

    /// Returns `true` for [`LockMode::Exclusive`].
    #[must_use]
    pub fn is_exclusive(self) -> (r: bool)
        ensures
            r == (self is Exclusive),
    {
        matches!(self, LockMode::Exclusive)
    }

    /// Returns `true` for the intention modes (IS, IX, SIX).
    #[must_use]
    pub fn is_intention(self) -> (r: bool)
        ensures
            r == (self is IntentionShared || self is IntentionExclusive
                || self is SharedIntentionExclusive),
    {
        matches!(
            self,
            LockMode::IntentionShared
                | LockMode::IntentionExclusive
                | LockMode::SharedIntentionExclusive
        )
    }

    /// Law: each mode has a row of its own, and a mode comes after every mode that
    /// it covers.
    pub proof fn law_rows_are_distinct(self, other: LockMode)
        ensures
            self.row() < 5,
            self.row() == other.row() <==> self == other,
            self.at_least(other) ==> other.row() <= self.row(),
    {
    }

    /// Law: the compatibility relation is symmetric.
    pub proof fn law_compatible_is_symmetric(self, other: LockMode)
        ensures
            self.compatible(other) == other.compatible(self),
    {
    }

    /// Law: exclusive is compatible with no mode, and intention shared with
    /// every mode but exclusive.
    pub proof fn law_extreme_modes(self)
        ensures
            !LockMode::Exclusive.compatible(self),
            !self.compatible(LockMode::Exclusive),
            LockMode::IntentionShared.compatible(self) <==> self != LockMode::Exclusive,
    {
    }

    /// Law: the relation is the standard multi-granularity matrix. The
    /// compatible pairs are those with an intention-shared side (and no
    /// exclusive one), two intention-exclusive sides, or two shared sides.
    pub proof fn law_standard_matrix(self, other: LockMode)
        ensures
            self.compatible(other) <==> {
                ||| self is IntentionShared && !(other is Exclusive)
                ||| other is IntentionShared && !(self is Exclusive)
                ||| self is IntentionExclusive && other is IntentionExclusive
                ||| self is Shared && other is Shared
            },
    {
    }

    /// Law: the join of two modes, by cases. It is exclusive when either side is;
    /// otherwise it is the stronger side where one covers the other, and shared
    /// with intention exclusive where neither does.
    pub proof fn law_standard_join(self, other: LockMode)
        ensures
            self.joined(other) is Exclusive <==> self is Exclusive || other is Exclusive,
            self.joined(other) is SharedIntentionExclusive <==> {
                &&& !(self is Exclusive) && !(other is Exclusive)
                &&& {
                    ||| self is SharedIntentionExclusive
                    ||| other is SharedIntentionExclusive
                    ||| self is Shared && other is IntentionExclusive
                    ||| self is IntentionExclusive && other is Shared
                }
            },
            self.joined(other) is Shared <==> {
                ||| self is Shared && (other is Shared || other is IntentionShared)
                ||| self is IntentionShared && other is Shared
            },
            self.joined(other) is IntentionExclusive <==> {
                ||| self is IntentionExclusive && (other is IntentionExclusive
                    || other is IntentionShared)
                ||| self is IntentionShared && other is IntentionExclusive
            },
            self.joined(other) is IntentionShared <==> self is IntentionShared
                && other is IntentionShared,
    {
    }

    /// Law: a mode covers itself, exclusive covers every mode, every mode covers
    /// intention shared, shared with intention exclusive covers every mode but
    /// exclusive, and no mode covers any other.
    pub proof fn law_standard_order(self, other: LockMode)
        ensures
            self.at_least(other) <==> {
                ||| self == other
                ||| self is Exclusive
                ||| other is IntentionShared
                ||| self is SharedIntentionExclusive && !(other is Exclusive)
            },
    {
    }

    /// Law: what each mode grants.
    pub proof fn law_privileges(self)
        ensures
            self.reads_all() <==> self is Shared || self is SharedIntentionExclusive
                || self is Exclusive,
            self.writes_part() <==> self is IntentionExclusive || self is SharedIntentionExclusive
                || self is Exclusive,
            self.writes_all() <==> self is Exclusive,
    {
    }

    /// Law: the join is commutative, associative and idempotent.
    pub proof fn law_join_is_a_semilattice(self, b: LockMode, c: LockMode)
        ensures
            self.joined(b) == b.joined(self),
            self.joined(b).joined(c) == self.joined(b.joined(c)),
            self.joined(self) == self,
    {
    }

    /// Law: the join is the least upper bound of its two modes.
    pub proof fn law_join_is_least_upper_bound(self, b: LockMode, c: LockMode)
        ensures
            self.joined(b).at_least(self),
            self.joined(b).at_least(b),
            c.at_least(self) && c.at_least(b) <==> c.at_least(self.joined(b)),
    {
    }

    /// Law: covering is a partial order, it is the order of the join, and
    /// exclusive is its greatest and intention shared its least mode.
    pub proof fn law_covers_is_a_partial_order(self, b: LockMode, c: LockMode)
        ensures
            self.at_least(b) <==> self.joined(b) == self,
            self.at_least(self),
            self.at_least(b) && b.at_least(self) ==> self == b,
            self.at_least(b) && b.at_least(c) ==> self.at_least(c),
            LockMode::Exclusive.at_least(self),
            self.at_least(LockMode::IntentionShared),
    {
    }

    /// Law: a mode that coexists with a stronger one coexists with every weaker
    /// one too.
    pub proof fn law_weaker_modes_conflict_less(self, strong: LockMode, weak: LockMode)
        requires
            strong.at_least(weak),
            self.compatible(strong),
        ensures
            self.compatible(weak),
    {
    }

    /// Law: a mode coexists with the join of two modes exactly when it coexists
    /// with both. An upgrade therefore conflicts with another holder exactly
    /// when the requested mode itself does.
    pub proof fn law_join_conflicts_as_its_parts(self, b: LockMode, c: LockMode)
        ensures
            self.compatible(b.joined(c)) <==> self.compatible(b) && self.compatible(c),
    {
    }
}

} // verus!
