//! A state sync provider over any state.

use vstd::prelude::*;

use crate::statesync::deletion_tracker::{DeletionLog, FinalizedDeletions};
use crate::statesync::server::{answers_request, handle_sync_request};
use crate::statesync::types::StateSyncRequest;
use crate::statesync::{
    StateSyncError, StateSyncProvider, StateSyncResult, StateSyncTraversable,
};

verus! {

/// A state sync provider over any state, with deletions of its own.
pub struct MockStateSyncProvider<T: StateSyncTraversable> {
    db: T,
    deletions: FinalizedDeletions,
}

impl<T: StateSyncTraversable> MockStateSyncProvider<T> {
    pub closed spec fn spec_db(&self) -> T {
        self.db
    }

    pub closed spec fn spec_deletions(&self) -> FinalizedDeletions {
        self.deletions
    }

    /// A provider with no deletions.
    pub fn new(db: T) -> (r: Self)
        ensures
            r.wf(),
            r.spec_db() == db,
            r.spec_deletions().log() == DeletionLog::empty(),
    {
        MockStateSyncProvider { db, deletions: FinalizedDeletions::new() }
    }

    /// The deletions, to be changed in place.
    pub fn deletions_mut(&mut self) -> (r: &mut FinalizedDeletions)
        ensures
            *r == old(self).spec_deletions(),
            final(self).spec_deletions() == *final(r),
            final(self).spec_db() == old(self).spec_db(),
    {
        &mut self.deletions
    }
}

impl<T: StateSyncTraversable> StateSyncProvider for MockStateSyncProvider<T> {
    open spec fn wf(&self) -> bool {
        self.spec_deletions().wf()
    }

    fn handle_sync_request(&self, request: &StateSyncRequest) -> (r: Result<
        StateSyncResult,
        StateSyncError,
    >)
        ensures
            answers_request(r, *request, &self.spec_db(), self.spec_deletions().log()),
    {
        handle_sync_request(request, &self.db, &self.deletions)
    }
}

} // verus!
