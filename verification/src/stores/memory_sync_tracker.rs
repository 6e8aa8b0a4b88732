use vstd::prelude::*;

use crate::codec::ids::Cid;
use crate::stores::traits::{DataStoreError, SyncTracker};

verus! {

broadcast use vstd::seq::group_seq_axioms, vstd::set::group_set_axioms;

/// The CIDs of a list, as byte sequences.
pub open spec fn spec_cid_views(v: Seq<Cid>) -> Seq<Seq<u8>> {
    v.map_values(|c: Cid| c@)
}

/// The total of the sizes in a list of blocks still to be persisted.
pub open spec fn spec_total(s: Seq<(Seq<u8>, u64)>) -> nat
    decreases s.len(),
{
    if s.len() == 0 {
        0
    } else {
        spec_total(s.drop_last()) + s.last().1 as nat
    }
}

/// No CID occurs twice among the blocks still to be persisted.
pub open spec fn spec_keys_unique(s: Seq<(Seq<u8>, u64)>) -> bool {
    forall|i: int, j: int| 0 <= i < s.len() && 0 <= j < s.len() && i != j ==> s[i].0 != s[j].0
}

/// The blocks still to be persisted after recording `cid` with `size`: a block already
/// recorded keeps its first size, a new one is appended.
pub open spec fn spec_tracked_after(s: Seq<(Seq<u8>, u64)>, cid: Seq<u8>, size: u64) -> Seq<(Seq<u8>, u64)> {
    if exists|i: int| 0 <= i < s.len() && s[i].0 == cid {
        s
    } else {
        s.push((cid, size))
    }
}

/// Untracking a block right after tracking it leaves the same records as untracking it
/// without having tracked it: nothing of the block remains, and the other blocks keep their
/// sizes and order.
pub proof fn lemma_untrack_undoes_track(s: Seq<(Seq<u8>, u64)>, cid: Seq<u8>, size: u64)
    ensures
        spec_tracked_after(s, cid, size).filter(|p: (Seq<u8>, u64)| p.0 != cid) == s.filter(
            |p: (Seq<u8>, u64)| p.0 != cid,
        ),
{
    let f = |p: (Seq<u8>, u64)| p.0 != cid;
    if !(exists|i: int| 0 <= i < s.len() && s[i].0 == cid) {
        reveal(Seq::filter);
        let t = s.push((cid, size));
        assert(t.drop_last() =~= s);
        assert(!f(t.last()));
        assert(t.filter(f) == t.drop_last().filter(f));
    }
}

/// What a tracker knows: the blocks marked for deletion, and the blocks still to be persisted
/// with their sizes, in the order they were first recorded.
pub struct MemorySyncTrackerView {
    pub deleted: Set<Seq<u8>>,
    pub unsynced: Seq<(Seq<u8>, u64)>,
}

/// A sync tracker that keeps its records in memory.
pub struct MemorySyncTracker {
    pending_deletion: Vec<Cid>,
    unsynced: Vec<(Cid, u64)>,
}

impl View for MemorySyncTracker {
    type V = MemorySyncTrackerView;

    closed spec fn view(&self) -> MemorySyncTrackerView {
        MemorySyncTrackerView {
            deleted: spec_cid_views(self.pending_deletion@).to_set(),
            unsynced: self.unsynced@.map_values(|p: (Cid, u64)| (p.0@, p.1)),
        }
    }
}

impl MemorySyncTracker {
    /// The records are consistent: each block is marked for deletion at most once and recorded
    /// at most once.
    #[verifier::type_invariant]
    closed spec fn wf(&self) -> bool {
        &&& spec_cid_views(self.pending_deletion@).no_duplicates()
        &&& spec_keys_unique(self@.unsynced)
    }

    /// A tracker with no records.
    pub fn new() -> (r: MemorySyncTracker)
        ensures
            r@.deleted == Set::<Seq<u8>>::empty(),
            r@.unsynced == Seq::<(Seq<u8>, u64)>::empty(),
    {
        let r = MemorySyncTracker { pending_deletion: Vec::new(), unsynced: Vec::new() };
        assert(spec_cid_views(r.pending_deletion@) =~= Seq::<Seq<u8>>::empty());
        assert(r@.unsynced =~= Seq::<(Seq<u8>, u64)>::empty());
        assert(r@.deleted =~= Set::<Seq<u8>>::empty());
        r
    }

    fn tracked_position(&self, cid: &Cid) -> (r: Option<usize>)
        ensures
            match r {
                Some(j) => j < self@.unsynced.len() && self@.unsynced[j as int].0 == cid@,
                None => forall|i: int| 0 <= i < self@.unsynced.len() ==> self@.unsynced[i].0 != cid@,
            },
    {
        let mut k: usize = 0;
        while k < self.unsynced.len()
            invariant
                k <= self.unsynced@.len(),
                forall|i: int| 0 <= i < k ==> self.unsynced@[i].0@ != cid@,
            decreases self.unsynced@.len() - k,
        {
            if self.unsynced[k].0.equals(cid) {
                return Some(k);
            }
            k = k + 1;
        }
        None
    }

    fn deleted_position(&self, cid: &Cid) -> (r: Option<usize>)
        ensures
            r is Some == self@.deleted.contains(cid@),
    {
        let mut k: usize = 0;
        while k < self.pending_deletion.len()
            invariant
                k <= self.pending_deletion@.len(),
                forall|i: int| 0 <= i < k ==> self.pending_deletion@[i]@ != cid@,
            decreases self.pending_deletion@.len() - k,
        {
            if self.pending_deletion[k].equals(cid) {
                assert(spec_cid_views(self.pending_deletion@)[k as int] == cid@);
                return Some(k);
            }
            k = k + 1;
        }
        None
    }

    /// Forgets every block marked for deletion; this never fails.
    pub fn clear_deleted(&mut self) -> (r: Result<(), DataStoreError>)
        ensures
            r is Ok,
            final(self)@.deleted == Set::<Seq<u8>>::empty(),
            final(self)@.unsynced == old(self)@.unsynced,
    {
        proof {
            use_type_invariant(&*self);
        }
        let v: Vec<Cid> = Vec::new();
        assert(spec_cid_views(v@) =~= Seq::<Seq<u8>>::empty());
        self.pending_deletion = v;
        assert(self@.deleted =~= Set::<Seq<u8>>::empty());
        Ok(())
    }

    /// Marks a block for deletion; marking it twice changes nothing. This never fails.
    pub fn delete(&mut self, cid: Cid) -> (r: Result<(), DataStoreError>)
        ensures
            r is Ok,
            final(self)@.deleted == old(self)@.deleted.insert(cid@),
            final(self)@.unsynced == old(self)@.unsynced,
    {
        proof {
            use_type_invariant(&*self);
        }
        if self.deleted_position(&cid).is_none() {
            let ghost before = spec_cid_views(self.pending_deletion@);
            assert(!before.contains(cid@));
            let mut v: Vec<Cid> = Vec::new();
            std::mem::swap(&mut v, &mut self.pending_deletion);
            v.push(cid);
            assert(spec_cid_views(v@) =~= before.push(cid@));
            self.pending_deletion = v;
            proof {
                let after = before.push(cid@);
                assert forall|x: Seq<u8>| after.contains(x) <==> (before.contains(x) || x == cid@) by {
                    if after.contains(x) {
                        let q = choose|q: int| 0 <= q < after.len() && after[q] == x;
                        if q < before.len() {
                            assert(before[q] == x);
                        }
                    }
                    if before.contains(x) {
                        let q = choose|q: int| 0 <= q < before.len() && before[q] == x;
                        assert(after[q] == x);
                    }
                    if x == cid@ {
                        assert(after[before.len() as int] == x);
                    }
                }
            }
            assert(self@.deleted =~= old(self)@.deleted.insert(cid@));
        } else {
            assert(self@.deleted =~= old(self)@.deleted.insert(cid@));
        }
        Ok(())
    }

    /// The blocks marked for deletion, each once.
    pub fn deleted_cids(&self) -> (r: Result<Vec<Cid>, DataStoreError>)
        ensures
            r matches Ok(v) && spec_cid_views(v@).to_set() == self@.deleted && spec_cid_views(v@).no_duplicates(),
    {
        proof {
            use_type_invariant(self);
        }
        let v = self.pending_deletion.clone();
        assert(v@ =~= self.pending_deletion@);
        Ok(v)
    }

    /// Records that a block of `size` bytes still has to be persisted; a block already recorded
    /// keeps the size it was first recorded with. This never fails.
    pub fn track(&mut self, cid: Cid, size: u64) -> (r: Result<(), DataStoreError>)
        ensures
            r is Ok,
            final(self)@.deleted == old(self)@.deleted,
            final(self)@.unsynced == spec_tracked_after(old(self)@.unsynced, cid@, size),
    {
        proof {
            use_type_invariant(&*self);
        }
        match self.tracked_position(&cid) {
            Some(j) => {},
            None => {
                let ghost before = self@.unsynced;
                let mut v: Vec<(Cid, u64)> = Vec::new();
                std::mem::swap(&mut v, &mut self.unsynced);
                v.push((cid, size));
                assert(v@.map_values(|p: (Cid, u64)| (p.0@, p.1)) =~= before.push((cid@, size)));
                self.unsynced = v;
                assert(self@.unsynced =~= before.push((cid@, size)));
            },
        }
        Ok(())
    }

    /// The blocks that still have to be persisted, in the order they were first recorded.
    pub fn tracked_cids(&self) -> (r: Result<Vec<Cid>, DataStoreError>)
        ensures
            r matches Ok(v) && spec_cid_views(v@) == self@.unsynced.map_values(|p: (Seq<u8>, u64)| p.0),
    {
        let mut v: Vec<Cid> = Vec::new();
        let mut k: usize = 0;
        while k < self.unsynced.len()
            invariant
                k <= self.unsynced@.len(),
                spec_cid_views(v@) == self@.unsynced.take(k as int).map_values(|p: (Seq<u8>, u64)| p.0),
            decreases self.unsynced@.len() - k,
        {
            let ghost before = spec_cid_views(v@);
            v.push(self.unsynced[k].0);
            assert(spec_cid_views(v@) =~= before.push(self.unsynced@[k as int].0@));
            assert(self@.unsynced.take(k + 1).map_values(|p: (Seq<u8>, u64)| p.0) =~= self@.unsynced.take(k as int).map_values(
                |p: (Seq<u8>, u64)| p.0,
            ).push(self@.unsynced[k as int].0));
            k = k + 1;
        }
        assert(self@.unsynced.take(k as int) =~= self@.unsynced);
        Ok(v)
    }

    /// The total size of the blocks that still have to be persisted. A total beyond `u64`
    /// is reported as an implementation error.
    pub fn tracked_size(&self) -> (r: Result<u64, DataStoreError>)
        ensures
            spec_total(self@.unsynced) <= u64::MAX ==> r == Ok::<u64, DataStoreError>(spec_total(self@.unsynced) as u64),
            spec_total(self@.unsynced) > u64::MAX ==> r matches Err(DataStoreError::Implementation(_)),
    {
        let mut total: u64 = 0;
        let mut k: usize = 0;
        let ghost t = self@.unsynced;
        while k < self.unsynced.len()
            invariant
                t == self@.unsynced,
                k <= t.len(),
                total == spec_total(t.take(k as int)),
            decreases t.len() - k,
        {
            proof {
                assert(t.take(k + 1).drop_last() =~= t.take(k as int));
                lemma_total_prefix(t, k + 1);
            }
            total = match total.checked_add(self.unsynced[k].1) {
                Some(x) => x,
                None => {
                    proof {
                        lemma_total_prefix(t, k + 1);
                    }
                    return Err(DataStoreError::Implementation("total size of unsynced blocks exceeds u64".to_string()));
                },
            };
            k = k + 1;
        }
        assert(t.take(k as int) =~= t);
        Ok(total)
    }

    /// Records that a block no longer has to be persisted. This never fails.
    pub fn untrack(&mut self, cid: Cid) -> (r: Result<(), DataStoreError>)
        ensures
            r is Ok,
            final(self)@.deleted == old(self)@.deleted,
            final(self)@.unsynced == old(self)@.unsynced.filter(|p: (Seq<u8>, u64)| p.0 != cid@),
    {
        proof {
            use_type_invariant(&*self);
        }
        let ghost all = self@.unsynced;
        let ghost f = |p: (Seq<u8>, u64)| p.0 != cid@;
        let mut kept: Vec<(Cid, u64)> = Vec::new();
        let mut i: usize = 0;
        proof {
            reveal(Seq::filter);
            assert(all.take(0).filter(f) =~= Seq::<(Seq<u8>, u64)>::empty());
            assert(kept@.map_values(|p: (Cid, u64)| (p.0@, p.1)) =~= Seq::<(Seq<u8>, u64)>::empty());
        }
        while i < self.unsynced.len()
            invariant
                i <= all.len(),
                all == self@.unsynced,
                f == (|p: (Seq<u8>, u64)| p.0 != cid@),
                kept@.map_values(|p: (Cid, u64)| (p.0@, p.1)) == all.take(i as int).filter(f),
            decreases all.len() - i,
        {
            let ghost before = kept@.map_values(|p: (Cid, u64)| (p.0@, p.1));
            assert(all.take(i + 1) =~= all.take(i as int).push(all[i as int]));
            proof {
                all.take(i as int).lemma_filter_push(all[i as int], f);
            }
            if !self.unsynced[i].0.equals(&cid) {
                kept.push(self.unsynced[i]);
                assert(kept@.map_values(|p: (Cid, u64)| (p.0@, p.1)) =~= before.push(all[i as int]));
            }
            i = i + 1;
        }
        assert(all.take(i as int) =~= all);
        proof {
            lemma_filter_keeps_unique(all, f);
        }
        self.unsynced = kept;
        Ok(())
    }
}

proof fn lemma_total_prefix(t: Seq<(Seq<u8>, u64)>, k: int)
    requires
        0 <= k <= t.len(),
    ensures
        spec_total(t.take(k)) <= spec_total(t),
    decreases t.len(),
{
    if k < t.len() {
        assert(t.drop_last().take(k) =~= t.take(k));
        lemma_total_prefix(t.drop_last(), k);
    } else {
        assert(t.take(k) =~= t);
    }
}

proof fn lemma_filter_keeps_unique(s: Seq<(Seq<u8>, u64)>, f: spec_fn((Seq<u8>, u64)) -> bool)
    requires
        spec_keys_unique(s),
    ensures
        spec_keys_unique(s.filter(f)),
    decreases s.len(),
{
    reveal(Seq::filter);
    if s.len() > 0 {
        let dl = s.drop_last();
        assert forall|i: int, j: int| 0 <= i < dl.len() && 0 <= j < dl.len() && i != j implies dl[i].0 != dl[j].0 by {
            assert(dl[i] == s[i] && dl[j] == s[j]);
        }
        lemma_filter_keeps_unique(dl, f);
        if f(s.last()) {
            let r = dl.filter(f);
            assert forall|i: int| 0 <= i < r.len() implies r[i].0 != s.last().0 by {
                assert(r.contains(r[i]));
                dl.lemma_filter_contains_rev(f, r[i]);
                let j = choose|j: int| 0 <= j < dl.len() && dl[j] == r[i];
                assert(s[j] == dl[j]);
            }
            assert(s.filter(f) == r.push(s.last()));
        }
    }
}

impl SyncTracker for MemorySyncTracker {
    fn clear_deleted(&mut self) -> (r: Result<(), DataStoreError>)
        ensures
            r is Ok,
            final(self)@.deleted == Set::<Seq<u8>>::empty(),
            final(self)@.unsynced == old(self)@.unsynced,
    {
        MemorySyncTracker::clear_deleted(self)
    }

    fn delete(&mut self, cid: Cid) -> (r: Result<(), DataStoreError>)
        ensures
            r is Ok,
            final(self)@.deleted == old(self)@.deleted.insert(cid@),
            final(self)@.unsynced == old(self)@.unsynced,
    {
        MemorySyncTracker::delete(self, cid)
    }

    fn deleted_cids(&self) -> (r: Result<Vec<Cid>, DataStoreError>)
        ensures
            r matches Ok(v) && spec_cid_views(v@).to_set() == self@.deleted && spec_cid_views(v@).no_duplicates(),
    {
        MemorySyncTracker::deleted_cids(self)
    }

    fn track(&mut self, cid: Cid, size: u64) -> (r: Result<(), DataStoreError>)
        ensures
            r is Ok,
            final(self)@.deleted == old(self)@.deleted,
            final(self)@.unsynced == spec_tracked_after(old(self)@.unsynced, cid@, size),
    {
        MemorySyncTracker::track(self, cid, size)
    }

    fn tracked_cids(&self) -> (r: Result<Vec<Cid>, DataStoreError>)
        ensures
            r matches Ok(v) && spec_cid_views(v@) == self@.unsynced.map_values(|p: (Seq<u8>, u64)| p.0),
    {
        MemorySyncTracker::tracked_cids(self)
    }

    fn tracked_size(&self) -> (r: Result<u64, DataStoreError>)
        ensures
            spec_total(self@.unsynced) <= u64::MAX ==> r == Ok::<u64, DataStoreError>(spec_total(self@.unsynced) as u64),
            spec_total(self@.unsynced) > u64::MAX ==> r matches Err(DataStoreError::Implementation(_)),
    {
        MemorySyncTracker::tracked_size(self)
    }

    fn untrack(&mut self, cid: Cid) -> (r: Result<(), DataStoreError>)
        ensures
            r is Ok,
            final(self)@.deleted == old(self)@.deleted,
            final(self)@.unsynced == old(self)@.unsynced.filter(|p: (Seq<u8>, u64)| p.0 != cid@),
    {
        MemorySyncTracker::untrack(self, cid)
    }
}

} // verus!
