use vstd::prelude::*;

use crate::codec::ids::Cid;

verus! {

/// Why a block store operation failed.
#[derive(Debug)]
pub enum DataStoreError {
    /// A failure particular to the store's implementation.
    Implementation(String),
    /// The block is not available in the store or any of its sources.
    LookupFailure,
    /// No storage host is registered.
    NoActiveStorageHost,
    /// The store knew the block but could not retrieve it.
    RetrievalFailure,
    /// The store's session was rejected.
    SessionRejected,
    /// The store received the block but could not keep it.
    StoreFailure,
}

pub enum DataStoreErrorView {
    Implementation(Seq<char>),
    LookupFailure,
    NoActiveStorageHost,
    RetrievalFailure,
    SessionRejected,
    StoreFailure,
}

impl View for DataStoreError {
    type V = DataStoreErrorView;

    open spec fn view(&self) -> DataStoreErrorView {
        match self {
            DataStoreError::Implementation(s) => DataStoreErrorView::Implementation(s@),
            DataStoreError::LookupFailure => DataStoreErrorView::LookupFailure,
            DataStoreError::NoActiveStorageHost => DataStoreErrorView::NoActiveStorageHost,
            DataStoreError::RetrievalFailure => DataStoreErrorView::RetrievalFailure,
            DataStoreError::SessionRejected => DataStoreErrorView::SessionRejected,
            DataStoreError::StoreFailure => DataStoreErrorView::StoreFailure,
        }
    }
}

/// A store of data blocks addressed by CID, for the encrypted blocks that hold file data.
/// Implementors decide where blocks live. What every implementation owes is stated over the
/// blocks it can hand back, by CID: a block is available once it was stored, is handed back as
/// it is held, is no longer available once it was removed, and removing never makes a block
/// available; when a call fails nothing is assumed.
pub trait DataStore {
    /// The blocks the store can retrieve, by CID.
    spec fn spec_blocks(&self) -> Map<Seq<u8>, Seq<u8>>;

    /// Whether the store can retrieve the block with this CID.
    fn contains_cid(&self, cid: Cid) -> (r: Result<bool, DataStoreError>)
        ensures
            r matches Ok(b) ==> b == self.spec_blocks().contains_key(cid@),
    ;

    /// Asks the store to drop a block; afterwards it is not available. With `recursive` the
    /// store may drop blocks that depend on it too.
    fn remove(&mut self, cid: Cid, recursive: bool) -> (r: Result<(), DataStoreError>)
        ensures
            r is Ok ==> !final(self).spec_blocks().contains_key(cid@) && final(self).spec_blocks().dom().subset_of(
                old(self).spec_blocks().dom(),
            ),
    ;

    /// The complete block with this CID.
    fn retrieve(&self, cid: Cid) -> (r: Result<Vec<u8>, DataStoreError>)
        ensures
            r matches Ok(data) ==> self.spec_blocks().contains_key(cid@) && data@ == self.spec_blocks()[cid@],
    ;

    /// Stores a complete block under its CID; `immediate` asks for it to be persisted at once.
    /// Once this succeeds the block is available; a block already held under the CID is kept,
    /// and the other blocks stay as they were.
    fn store(&mut self, cid: Cid, data: Vec<u8>, immediate: bool) -> (r: Result<(), DataStoreError>)
        ensures
            r is Ok ==> final(self).spec_blocks().contains_key(cid@),
            r is Ok ==> final(self).spec_blocks()[cid@] == (if old(self).spec_blocks().contains_key(cid@) {
                old(self).spec_blocks()[cid@]
            } else {
                data@
            }),
            r is Ok ==> final(self).spec_blocks().dom() == old(self).spec_blocks().dom().insert(cid@),
            r is Ok ==> forall|k: Seq<u8>|
                #[trigger] old(self).spec_blocks().contains_key(k) ==> final(self).spec_blocks().contains_key(k)
                    && final(self).spec_blocks()[k] == old(self).spec_blocks()[k],
    ;
}

/// Tracks which blocks still have to be persisted elsewhere and which may be dropped there.
/// Implementors decide how; nothing is assumed of what they return.
pub trait SyncTracker {
    /// Forgets every block marked for deletion.
    fn clear_deleted(&mut self) -> Result<(), DataStoreError>;

    /// Marks a block as no longer needed.
    fn delete(&mut self, cid: Cid) -> Result<(), DataStoreError>;

    /// The blocks marked for deletion.
    fn deleted_cids(&self) -> Result<Vec<Cid>, DataStoreError>;

    /// Records that a block of `size` bytes still has to be persisted.
    fn track(&mut self, cid: Cid, size: u64) -> Result<(), DataStoreError>;

    /// The blocks that still have to be persisted.
    fn tracked_cids(&self) -> Result<Vec<Cid>, DataStoreError>;

    /// The total size of the blocks that still have to be persisted.
    fn tracked_size(&self) -> Result<u64, DataStoreError>;

    /// Records that a block no longer has to be persisted.
    fn untrack(&mut self, cid: Cid) -> Result<(), DataStoreError>;
}

} // verus!
