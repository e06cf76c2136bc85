//! Reports of sync, mirror refresh and mirror worker passes.

use crate::models::LibraryKind;
use vstd::prelude::*;

verus! {

/// What one library's sync did.
#[derive(Debug, Clone)]
pub struct LibrarySyncReport {
    pub library_kind: LibraryKind,
    pub zotero_library_id: String,
    pub display_name: String,
    pub upserted: usize,
    pub deleted: usize,
    pub mirror_jobs: usize,
    pub skipped_unchanged: usize,
    pub from_version: u64,
    pub to_version: u64,
    pub full: bool,
}

/// What a whole sync pass did.
#[derive(Debug, Clone, Default)]
pub struct SyncReport {
    pub server_id: String,
    pub libraries: Vec<LibrarySyncReport>,
    pub zotero_offline: bool,
}

/// Upserts plus deletions over the first `n` library reports.
pub open spec fn changes(libs: Seq<LibrarySyncReport>, n: int) -> int
    decreases n,
{
    if n <= 0 {
        0
    } else {
        changes(libs, n - 1) + libs[n - 1].upserted + libs[n - 1].deleted
    }
}

proof fn lemma_changes_monotone(libs: Seq<LibrarySyncReport>, a: int, b: int)
    requires
        0 <= a <= b,
    ensures
        changes(libs, a) <= changes(libs, b),
    decreases b - a,
{
    if a < b {
        lemma_changes_monotone(libs, a, b - 1);
    }
}

impl SyncReport {
    /// Upserted plus deleted items over every library.
    pub fn total_changes(&self) -> (res: usize)
        requires
            changes(self.libraries@, self.libraries@.len() as int) <= usize::MAX,
        ensures
            res == changes(self.libraries@, self.libraries@.len() as int),
    {
        let mut total: usize = 0;
        let mut i: usize = 0;
        while i < self.libraries.len()
            invariant
                i <= self.libraries.len(),
                total == changes(self.libraries@, i as int),
                changes(self.libraries@, self.libraries@.len() as int) <= usize::MAX,
            decreases self.libraries.len() - i,
        {
            proof {
                lemma_changes_monotone(self.libraries@, i + 1, self.libraries@.len() as int);
            }
            total = total + self.libraries[i].upserted + self.libraries[i].deleted;
            i += 1;
        }
        total
    }
}

/// Outcome of a mirror refresh pass.
#[derive(Debug, Clone, Default)]
pub struct MirrorRefreshReport {
    pub renamed: usize,
    pub rewritten: usize,
    pub unchanged: usize,
}

/// Outcome of one mirror worker pass.
#[derive(Debug, Clone, Default)]
pub struct WorkerReport {
    pub completed: usize,
    pub retried: usize,
    pub failed: usize,
}

} // verus!
