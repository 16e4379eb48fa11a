use std::sync::Arc;
use vstd::prelude::*;
use vstd::rwlock::{ReadHandle, RwLock, RwLockPredicate};

use crate::collection::Collection;
use crate::geometry::Geometry;
use crate::snapshot::pair_view;
use crate::storage::held_pairs;

verus! {

/// What the lock of a shared collection keeps: the collection is well formed.
pub struct WellFormed;

impl RwLockPredicate<Collection> for WellFormed {
    open spec fn inv(self, v: Collection) -> bool {
        v.wf()
    }
}

/// A collection behind its own reader-writer lock. Handles to it are shared
/// between the registry and the callers that looked it up; writers (`add`,
/// `remove`) take the lock exclusively, readers share it.
pub struct SharedCollection {
    lock: RwLock<Collection, WellFormed>,
}

/// Shared read access to a collection; give it back with `release`.
pub struct Reader<'a> {
    handle: ReadHandle<'a, Collection, WellFormed>,
}

impl<'a> Reader<'a> {
    #[verifier::type_invariant]
    spec fn inv(self) -> bool {
        self.handle.view().wf()
    }

    /// The collection, as it stands while the read lock is held.
    pub fn collection(&self) -> (r: &Collection)
        ensures
            r.wf(),
    {
        proof {
            use_type_invariant(self);
        }
        self.handle.borrow()
    }

    /// Releases the read lock.
    pub fn release(self) {
        let Reader { handle } = self;
        handle.release_read();
    }
}

impl SharedCollection {
    #[verifier::type_invariant]
    spec fn inv(self) -> bool {
        self.lock.pred() == WellFormed
    }

    /// Puts a collection behind a fresh lock.
    pub fn new(c: Collection) -> (r: Arc<SharedCollection>)
        requires
            c.wf(),
    {
        Arc::new(SharedCollection { lock: RwLock::new(c, Ghost(WellFormed)) })
    }

    /// Takes the read lock.
    pub fn reader(&self) -> (r: Reader<'_>) {
        proof {
            use_type_invariant(self);
        }
        let handle = self.lock.acquire_read();
        Reader { handle }
    }

    /// `Collection::add` under the write lock.
    pub fn add(&self, id: String, doc: &Vec<Geometry>, text: String) -> (r: bool)
        ensures
            r,
    {
        proof {
            use_type_invariant(self);
        }
        let (mut c, h) = self.lock.acquire_write();
        c.add(id, doc, text);
        h.release_write(c);
        true
    }

    /// `Collection::remove` under the write lock.
    pub fn remove(&self, id: String) {
        proof {
            use_type_invariant(self);
        }
        let (mut c, h) = self.lock.acquire_write();
        c.remove(id);
        h.release_write(c);
    }

    /// `Collection::get` under the read lock.
    pub fn get(&self, key: &str) -> (r: Option<String>) {
        let reader = self.reader();
        let r = reader.collection().get(key);
        reader.release();
        r
    }

    /// `Collection::objects` under the read lock: the stored pairs of the
    /// well-formed collection that the lock held when it was read, each
    /// identifier once.
    pub fn objects(&self) -> (r: Vec<(String, String)>)
        ensures
            forall|i: int, j: int| 0 <= i < j < r@.len() ==> (#[trigger] r@[i]).0@ != (#[trigger] r@[j]).0@,
            held_pairs(r@.map_values(|p: (String, String)| pair_view(p))),
    {
        let reader = self.reader();
        let col = reader.collection();
        let r = col.objects();
        proof {
            let c = *col;
            assert(r@.map_values(|p: (String, String)| pair_view(p)) =~= c.pairs());
            assert(c.wf());
        }
        reader.release();
        r
    }
}

/// Another handle to the same shared collection.
pub fn share(h: &Arc<SharedCollection>) -> (r: Arc<SharedCollection>)
    ensures
        r == *h,
{
    h.clone()
}

} // verus!
