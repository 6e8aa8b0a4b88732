use banyanfs::codec::ids::Cid;
use banyanfs::stores::memory_data_store::MemoryDataStore;
use banyanfs::stores::memory_sync_tracker::MemorySyncTracker;
use banyanfs::stores::traits::{DataStore, DataStoreError, SyncTracker};

#[test]
fn memory_store_keeps_the_first_block_for_a_cid() {
    let mut store = MemoryDataStore::new();
    let cid = Cid([3u8; 32]);
    assert_eq!(store.contains_cid(cid).unwrap(), false);
    assert!(matches!(store.retrieve(cid), Err(DataStoreError::LookupFailure)));

    store.store(cid, vec![1, 2, 3], false).unwrap();
    assert_eq!(store.contains_cid(cid).unwrap(), true);
    assert_eq!(store.retrieve(cid).unwrap(), vec![1, 2, 3]);

    store.store(cid, vec![9, 9], true).unwrap();
    assert_eq!(store.retrieve(cid).unwrap(), vec![1, 2, 3]);
}

#[test]
fn memory_store_forgets_removed_blocks_only() {
    let mut store = MemoryDataStore::new();
    let a = Cid([1u8; 32]);
    let b = Cid([2u8; 32]);
    store.store(a, vec![10], false).unwrap();
    store.store(b, vec![20], false).unwrap();
    store.remove(a, true).unwrap();
    assert_eq!(store.contains_cid(a).unwrap(), false);
    assert!(matches!(store.retrieve(a), Err(DataStoreError::LookupFailure)));
    assert_eq!(store.retrieve(b).unwrap(), vec![20]);
    // Removing a block that is not there is no error.
    store.remove(a, false).unwrap();
}

#[test]
fn sync_tracker_records_each_block_once() {
    let mut tracker = MemorySyncTracker::new();
    let a = Cid([1u8; 32]);
    let b = Cid([2u8; 32]);
    SyncTracker::track(&mut tracker, a, 100).unwrap();
    SyncTracker::track(&mut tracker, b, 20).unwrap();
    SyncTracker::track(&mut tracker, a, 5).unwrap();
    assert_eq!(SyncTracker::tracked_size(&tracker).unwrap(), 120);
    let cids = SyncTracker::tracked_cids(&tracker).unwrap();
    assert_eq!(cids.len(), 2);
    assert!(cids[0] == a && cids[1] == b);

    SyncTracker::untrack(&mut tracker, a).unwrap();
    assert_eq!(SyncTracker::tracked_size(&tracker).unwrap(), 20);
    assert_eq!(SyncTracker::tracked_cids(&tracker).unwrap().len(), 1);
}

#[test]
fn sync_tracker_deletions_are_a_set() {
    let mut tracker = MemorySyncTracker::new();
    let a = Cid([4u8; 32]);
    SyncTracker::delete(&mut tracker, a).unwrap();
    SyncTracker::delete(&mut tracker, a).unwrap();
    assert_eq!(SyncTracker::deleted_cids(&tracker).unwrap().len(), 1);
    SyncTracker::clear_deleted(&mut tracker).unwrap();
    assert!(SyncTracker::deleted_cids(&tracker).unwrap().is_empty());
}

#[test]
fn sync_tracker_reports_an_overflowing_total() {
    let mut tracker = MemorySyncTracker::new();
    SyncTracker::track(&mut tracker, Cid([1u8; 32]), u64::MAX).unwrap();
    SyncTracker::track(&mut tracker, Cid([2u8; 32]), 1).unwrap();
    assert!(matches!(SyncTracker::tracked_size(&tracker), Err(DataStoreError::Implementation(_))));
}

#[test]
fn untracking_a_freshly_tracked_block_leaves_the_others_as_they_were() {
    let mut tracker = MemorySyncTracker::new();
    let a = Cid([1u8; 32]);
    let b = Cid([2u8; 32]);
    SyncTracker::track(&mut tracker, b, 7).unwrap();
    SyncTracker::track(&mut tracker, a, 30).unwrap();
    SyncTracker::untrack(&mut tracker, a).unwrap();
    let cids = SyncTracker::tracked_cids(&tracker).unwrap();
    assert_eq!(cids.len(), 1);
    assert!(cids[0] == b);
    assert_eq!(SyncTracker::tracked_size(&tracker).unwrap(), 7);
}
