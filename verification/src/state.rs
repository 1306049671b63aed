//! The per-replica entry state.
//!
//! One value describes what a single replica currently holds at a relative
//! path: nothing at all, a directory, a file, or a symbolic link, the latter
//! three carrying the modification time observed when the replica was probed.
//! The archive core only ever compares these values and asks whether one is
//! the distinguished empty state; probing the filesystem to construct them is
//! the caller's concern.

use vstd::prelude::*;

verus! {

/// What one replica holds at a path, as recorded in the archive.
#[derive(Clone, Copy, PartialEq, Eq, Structural, Debug)]
pub enum ArchiveEntryPerReplica {
    /// The replica holds nothing at this path.
    Empty,
    /// The replica holds a directory, with its modification time in
    /// nanoseconds.
    Directory { modified: u64 },
    /// The replica holds a regular file, with its modification time in
    /// nanoseconds.
    File { modified: u64 },
    /// The replica holds a symbolic link, with its modification time in
    /// nanoseconds.
    Symlink { modified: u64 },
}

impl ArchiveEntryPerReplica {
    /// Whether this is the distinguished "replica holds nothing" state.
    pub open spec fn spec_is_empty(self) -> bool {
        self == ArchiveEntryPerReplica::Empty
    }

    /// Tests for the distinguished empty state.
    pub fn is_empty(&self) -> (r: bool)
        ensures
            r == self.spec_is_empty(),
    {
        match self {
            ArchiveEntryPerReplica::Empty => true,
            _ => false,
        }
    }
}

/// Whether every slot of a row is the empty state: such a row says "no
/// replica holds anything here" and is pruned before persistence.
pub open spec fn spec_row_all_empty(row: Seq<ArchiveEntryPerReplica>) -> bool {
    forall|i: int| 0 <= i < row.len() ==> row[i].spec_is_empty()
}

/// Tests whether every slot of a row equals the empty state.
pub fn row_all_empty(row: &Vec<ArchiveEntryPerReplica>) -> (r: bool)
    ensures
        r == spec_row_all_empty(row@),
{
    let mut i: usize = 0;
    while i < row.len()
        invariant
            i <= row@.len(),
            forall|j: int| 0 <= j < i ==> row@[j].spec_is_empty(),
        decreases row@.len() - i,
    {
        if !row[i].is_empty() {
            return false;
        }
        i = i + 1;
    }
    true
}

} // verus!
