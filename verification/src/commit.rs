//! The apply engine: walks the selected files in tree order and stops,
//! fail-closed, at the first step whose copy could not be verified or
//! performed. The caller does the copying, byte comparison and deletion on
//! disk and reports each step's outcome; this engine decides what happens
//! next and what the batch's final report is.
use vstd::prelude::*;
use crate::types::{FileEntry, EntryModel, entries_view};

verus! {

/// What the caller observed for one apply step: the file was copied, read
/// back byte-identical and deleted from the overlay; or the read-back
/// differed from the source; or a filesystem operation failed outright.
#[derive(Clone, Copy, Debug, PartialEq, Eq, Structural)]
pub enum StepOutcome {
    Committed,
    Mismatch,
    OpFailed,
}

/// Why an apply batch stopped early.
#[derive(Clone, Copy, Debug, PartialEq, Eq, Structural)]
pub enum ApplyFailureKind {
    /// The destination's bytes did not match the source after the copy.
    Verification,
    /// A filesystem operation failed.
    Operation,
}

/// The failure that stopped an apply batch, naming the offending entry by
/// its position in the batch.
#[derive(Clone, Copy, Debug, PartialEq, Eq, Structural)]
pub struct ApplyFailure {
    pub index: usize,
    pub kind: ApplyFailureKind,
}

/// The apply batch's state: the selected files in tree order, how many of
/// them are committed, and the failure that stopped the batch, if one did.
///
/// The committed entries are exactly `entries[0 .. next]`; once `failure`
/// is set, `next_index` never offers another step, so entries after the
/// failing one stay untouched in the overlay.
pub struct ApplyEngine {
    entries: Vec<FileEntry>,
    next: usize,
    failure: Option<ApplyFailure>,
}

impl ApplyEngine {
    /// The batch invariant: the step counter stays inside the batch, and a
    /// recorded failure names the entry the counter stopped on.
    pub closed spec fn wf(&self) -> bool {
        &&& self.next <= self.entries@.len()
        &&& match self.failure {
            Some(f) => f.index == self.next && self.next < self.entries@.len(),
            None => true,
        }
    }

    /// The models of the batch entries.
    pub closed spec fn batch(&self) -> Seq<EntryModel> {
        entries_view(self.entries@)
    }

    /// How many leading entries are committed.
    pub closed spec fn committed(&self) -> int {
        self.next as int
    }

    /// The failure recorded so far.
    pub closed spec fn spec_failure(&self) -> Option<ApplyFailure> {
        self.failure
    }

    /// A fresh batch over the given entries, nothing committed yet.
    pub fn new(entries: Vec<FileEntry>) -> (r: ApplyEngine)
        ensures
            r.wf(),
            r.batch() == entries_view(entries@),
            r.committed() == 0,
            r.spec_failure() is None,
    {
        ApplyEngine { entries, next: 0, failure: None }
    }

    /// The entry to process next: the first uncommitted one, as long as no
    /// failure has stopped the batch.
    pub fn next_entry(&self) -> (r: Option<&FileEntry>)
        requires
            self.wf(),
        ensures
            match r {
                Some(e) => self.spec_failure() is None && self.committed() < self.batch().len()
                    && e@ == self.batch()[self.committed()],
                None => self.spec_failure() is Some || self.committed() == self.batch().len(),
            },
    {
        match self.failure {
            Some(_) => None,
            None => {
                if self.next < self.entries.len() {
                    assert(self.batch()[self.next as int] == self.entries@[self.next as int]@);
                    Some(&self.entries[self.next])
                } else {
                    None
                }
            },
        }
    }

    /// Records the outcome the caller observed for the entry `next_entry`
    /// handed out: success commits it and moves on; a verification mismatch
    /// or a failed operation stops the batch at this entry for good.
    pub fn record_outcome(&mut self, outcome: StepOutcome)
        requires
            old(self).wf(),
            old(self).spec_failure() is None,
            old(self).committed() < old(self).batch().len(),
        ensures
            final(self).wf(),
            final(self).batch() == old(self).batch(),
            match outcome {
                StepOutcome::Committed => final(self).committed() == old(self).committed() + 1
                    && final(self).spec_failure() is None,
                StepOutcome::Mismatch => final(self).committed() == old(self).committed()
                    && final(self).spec_failure() == Some(
                    ApplyFailure {
                        index: old(self).committed() as usize,
                        kind: ApplyFailureKind::Verification,
                    },
                ),
                StepOutcome::OpFailed => final(self).committed() == old(self).committed()
                    && final(self).spec_failure() == Some(
                    ApplyFailure {
                        index: old(self).committed() as usize,
                        kind: ApplyFailureKind::Operation,
                    },
                ),
            },
    {
        match outcome {
            StepOutcome::Committed => {
                let n = self.entries.len();
                assert(self.next < n);
                self.next = self.next + 1;
            },
            StepOutcome::Mismatch => {
                self.failure = Some(
                    ApplyFailure { index: self.next, kind: ApplyFailureKind::Verification },
                );
            },
            StepOutcome::OpFailed => {
                self.failure = Some(
                    ApplyFailure { index: self.next, kind: ApplyFailureKind::Operation },
                );
            },
        }
    }

    /// How many entries of the batch are committed.
    pub fn applied_count(&self) -> (r: usize)
        ensures
            r == self.committed(),
    {
        self.next
    }

    /// The failure that stopped the batch, if any: its kind and the batch
    /// position of the offending entry.
    pub fn failure(&self) -> (r: Option<ApplyFailure>)
        ensures
            r == self.spec_failure(),
    {
        self.failure
    }

    /// The entry a recorded failure names, for reporting its path.
    pub fn failed_entry(&self) -> (r: Option<&FileEntry>)
        requires
            self.wf(),
        ensures
            match self.spec_failure() {
                Some(f) => r matches Some(e) && e@ == self.batch()[f.index as int],
                None => r is None,
            },
    {
        match self.failure {
            Some(f) => {
                assert(self.batch()[f.index as int] == self.entries@[f.index as int]@);
                Some(&self.entries[f.index])
            },
            None => None,
        }
    }
}

} // verus!
