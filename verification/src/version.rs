//! Versions and the relations a dependency may demand between two of them.

use vstd::prelude::*;

verus! {

/// The relation that a version constraint demands between the installed
/// version (left) and the required version (right).
#[derive(Clone, Copy, Debug, PartialEq, Eq, Structural)]
pub enum VersionRelation {
    StrictlyLess,
    LessOrEqual,
    Equal,
    GreaterOrEqual,
    StrictlyGreater,
}

/// A version as the database records it: the text it was written as, and the
/// rank that orders it among all versions the database knows. Two versions of
/// the same rank are the same version for every relation.
#[derive(Clone, Debug)]
pub struct Version {
    pub text: String,
    pub rank: u64,
}

/// Whether `left` stands in relation `op` to `right`.
pub open spec fn relation_holds(op: VersionRelation, left: u64, right: u64) -> bool {
    match op {
        VersionRelation::StrictlyLess => left < right,
        VersionRelation::LessOrEqual => left <= right,
        VersionRelation::Equal => left == right,
        VersionRelation::GreaterOrEqual => left >= right,
        VersionRelation::StrictlyGreater => left > right,
    }
}

impl Version {
    /// Builds a version from its text and rank.
    pub fn new(text: &str, rank: u64) -> (v: Version)
        ensures
            v.text@ == text@,
            v.rank == rank,
    {
        Version { text: String::from_str(text), rank }
    }

    /// Tests `self op required`, the installed version on the left.
    pub fn satisfies(&self, op: VersionRelation, required: &Version) -> (ok: bool)
        ensures
            ok == relation_holds(op, self.rank, required.rank),
    {
        match op {
            VersionRelation::StrictlyLess => self.rank < required.rank,
            VersionRelation::LessOrEqual => self.rank <= required.rank,
            VersionRelation::Equal => self.rank == required.rank,
            VersionRelation::GreaterOrEqual => self.rank >= required.rank,
            VersionRelation::StrictlyGreater => self.rank > required.rank,
        }
    }

    /// Whether `self` is strictly newer than `other`.
    pub fn newer_than(&self, other: &Version) -> (newer: bool)
        ensures
            newer == (self.rank > other.rank),
    {
        self.rank > other.rank
    }
}

} // verus!
