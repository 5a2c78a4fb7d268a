//! The shared store of the current index generation.
//!
//! Readers acquire a snapshot and answer queries against it; a rebuild
//! publishes a whole new generation with one atomic swap and never
//! invalidates a snapshot a reader already holds. The lock's invariant is
//! that only a well-formed index is ever published, so no reader can
//! observe a half-built one.

use vstd::prelude::*;
use vstd::rwlock::RwLock;
use vstd::rwlock::RwLockPredicate;

use crate::errors::IndexError;
use crate::index::IndexModel;
use crate::index::IndexedData;
use crate::search::SearchData;
use crate::search::SearchResult;
use crate::search::result_matches;
use crate::tokenize::string_views;

verus! {

/// The content of the store's lock: the published index and whether a
/// rebuild is currently running.
pub struct StoreState {
    pub index: IndexedData,
    pub building: bool,
}

/// The lock's invariant: whatever is published is well formed.
pub struct StorePred {}

impl RwLockPredicate<StoreState> for StorePred {
    open spec fn inv(self, s: StoreState) -> bool {
        s.index.wf()
    }
}

/// Holds exactly one current index generation behind a reader/writer lock:
/// readers never block each other, and a publish is one atomic swap.
pub struct IndexStore {
    lock: RwLock<StoreState, StorePred>,
}

impl IndexStore {
    pub fn new(initial: IndexedData) -> (s: IndexStore)
        requires
            initial.wf(),
    {
        IndexStore {
            lock: RwLock::new(StoreState { index: initial, building: false }, Ghost(StorePred {  })),
        }
    }

    /// A private copy of the currently published generation. The copy's
    /// model is the published one's, so every query answers the same on it,
    /// and a later publish cannot affect it.
    pub fn snapshot(&self) -> (idx: IndexedData)
        ensures
            idx.wf(),
    {
        let handle = self.lock.acquire_read();
        let idx = handle.borrow().index.duplicate();
        handle.release_read();
        idx
    }

    /// Atomically replaces the published generation. A query that already
    /// acquired the previous generation is unaffected; any later one sees
    /// the new generation. A running rebuild is considered finished.
    pub fn publish(&self, new_index: IndexedData)
        requires
            new_index.wf(),
    {
        let (st, wh) = self.lock.acquire_write();
        let _ = st;
        wh.release_write(StoreState { index: new_index, building: false });
    }

    /// Claims the single rebuild slot: fails with
    /// `ConcurrentRebuildRejected` if a rebuild is already running, so that
    /// two rebuilds can never interleave into one generation.
    pub fn try_begin_rebuild(&self) -> (r: Result<(), IndexError>)
        ensures
            match r {
                Ok(_) => true,
                Err(e) => e == IndexError::ConcurrentRebuildRejected,
            },
    {
        let (st, wh) = self.lock.acquire_write();
        if st.building {
            wh.release_write(st);
            Err(IndexError::ConcurrentRebuildRejected)
        } else {
            wh.release_write(StoreState { index: st.index, building: true });
            Ok(())
        }
    }

    /// Releases the rebuild slot without publishing, after a failed build:
    /// the previously published generation keeps serving queries unchanged.
    pub fn abort_rebuild(&self) {
        let (st, wh) = self.lock.acquire_write();
        wh.release_write(StoreState { index: st.index, building: false });
    }

    /// Answers one query against the currently published generation. The
    /// result is the search contract's unique answer for some well-formed
    /// generation: which one depends on concurrent publishes, but the
    /// snapshot cannot change mid-query.
    pub fn search_current(&self, query: &SearchData) -> (r: Result<SearchResult, IndexError>)
        ensures
            match r {
                Ok(res) => query.wf() && exists|m: IndexModel|
                    #[trigger] result_matches(
                        m,
                        string_views(query.terms@),
                        query.min_score,
                        query.max_length,
                        res,
                    ) && m.wf(),
                Err(e) => e == IndexError::QueryError && !query.wf(),
            },
    {
        let handle = self.lock.acquire_read();
        let state = handle.borrow();
        let res = crate::search::search(&state.index, query);
        proof {
            if res is Ok {
                let snap = state.index.model();
                assert(result_matches(
                    snap,
                    string_views(query.terms@),
                    query.min_score,
                    query.max_length,
                    res->Ok_0,
                ) && snap.wf());
            }
        }
        handle.release_read();
        res
    }
}

} // verus!
