use vstd::prelude::*;

use crate::codec::ids::Cid;
use crate::stores::traits::{DataStore, DataStoreError};

verus! {

broadcast use vstd::seq::group_seq_axioms, vstd::map::group_map_axioms;

/// The map that a list of entries describes: each key maps to the value of its last entry.
pub open spec fn spec_entries_map<V>(s: Seq<(Seq<u8>, V)>) -> Map<Seq<u8>, V>
    decreases s.len(),
{
    if s.len() == 0 {
        Map::empty()
    } else {
        spec_entries_map(s.drop_last()).insert(s.last().0, s.last().1)
    }
}

/// A key is in the map of a list of entries exactly when some entry has it, and then it maps
/// to the value of the last such entry.
pub proof fn lemma_entries_map_lookup<V>(s: Seq<(Seq<u8>, V)>, k: Seq<u8>, j: int)
    requires
        -1 <= j < s.len(),
        forall|i: int| j < i < s.len() ==> s[i].0 != k,
        j >= 0 ==> s[j].0 == k,
    ensures
        j >= 0 ==> spec_entries_map(s).contains_key(k) && spec_entries_map(s)[k] == s[j].1,
        j < 0 ==> !spec_entries_map(s).contains_key(k),
    decreases s.len(),
{
    if s.len() > 0 && j < s.len() - 1 {
        lemma_entries_map_lookup(s.drop_last(), k, j);
    }
}

/// Dropping every entry with key `k` removes `k` from the map.
pub proof fn lemma_entries_map_without<V>(s: Seq<(Seq<u8>, V)>, k: Seq<u8>, f: spec_fn((Seq<u8>, V)) -> bool)
    requires
        forall|p: (Seq<u8>, V)| #[trigger] f(p) == (p.0 != k),
    ensures
        spec_entries_map(s.filter(f)) == spec_entries_map(s).remove(k),
    decreases s.len(),
{
    reveal(Seq::filter);
    if s.len() > 0 {
        let dl = s.drop_last();
        let x = s.last();
        lemma_entries_map_without(dl, k, f);
        assert(dl.push(x) =~= s);
        dl.lemma_filter_push(x, f);
        if x.0 != k {
            assert(s.filter(f) == dl.filter(f).push(x));
            assert(s.filter(f).drop_last() =~= dl.filter(f));
            assert(spec_entries_map(s.filter(f)) =~= spec_entries_map(dl).remove(k).insert(x.0, x.1));
        } else {
            assert(s.filter(f) == dl.filter(f));
        }
        assert(spec_entries_map(s.filter(f)) =~= spec_entries_map(s).remove(k));
    } else {
        assert(s.filter(f) =~= s);
        assert(spec_entries_map(s.filter(f)) =~= spec_entries_map(s).remove(k));
    }
}

/// A block store that keeps every block in memory, addressed by CID.
pub struct MemoryDataStore {
    blocks: Vec<(Cid, Vec<u8>)>,
}

impl View for MemoryDataStore {
    type V = Map<Seq<u8>, Seq<u8>>;

    closed spec fn view(&self) -> Map<Seq<u8>, Seq<u8>> {
        spec_entries_map(self.blocks@.map_values(|p: (Cid, Vec<u8>)| (p.0@, p.1@)))
    }
}

impl MemoryDataStore {
    /// A store without blocks.
    pub fn new() -> (r: MemoryDataStore)
        ensures
            r@ == Map::<Seq<u8>, Seq<u8>>::empty(),
    {
        let r = MemoryDataStore { blocks: Vec::new() };
        assert(r.blocks@.map_values(|p: (Cid, Vec<u8>)| (p.0@, p.1@)) =~= Seq::<(Seq<u8>, Seq<u8>)>::empty());
        r
    }

    /// The position of the last entry for `cid`, if there is one.
    fn last_position(&self, cid: &Cid) -> (r: Option<usize>)
        ensures
            match r {
                Some(j) => j < self.blocks@.len() && self.blocks@[j as int].0@ == cid@ && forall|i: int|
                    j < i < self.blocks@.len() ==> self.blocks@[i].0@ != cid@,
                None => forall|i: int| 0 <= i < self.blocks@.len() ==> self.blocks@[i].0@ != cid@,
            },
    {
        let mut k: usize = self.blocks.len();
        while k > 0
            invariant
                k <= self.blocks@.len(),
                forall|i: int| k <= i < self.blocks@.len() ==> self.blocks@[i].0@ != cid@,
            decreases k,
        {
            k = k - 1;
            if self.blocks[k].0.equals(cid) {
                return Some(k);
            }
        }
        None
    }
}

impl DataStore for MemoryDataStore {
    open spec fn spec_blocks(&self) -> Map<Seq<u8>, Seq<u8>> {
        self@
    }

    /// Whether a block is stored under `cid`.
    fn contains_cid(&self, cid: Cid) -> (r: Result<bool, DataStoreError>)
        ensures
            r == Ok::<bool, DataStoreError>(self@.contains_key(cid@)),
    {
        let pos = self.last_position(&cid);
        let ghost s = self.blocks@.map_values(|p: (Cid, Vec<u8>)| (p.0@, p.1@));
        proof {
            match pos {
                Some(j) => lemma_entries_map_lookup(s, cid@, j as int),
                None => lemma_entries_map_lookup(s, cid@, -1),
            }
        }
        Ok(pos.is_some())
    }

    /// Drops the block stored under `cid`, if any; this never fails.
    fn remove(&mut self, cid: Cid, recursive: bool) -> (r: Result<(), DataStoreError>)
        ensures
            r is Ok,
            final(self)@ == old(self)@.remove(cid@),
    {
        let ghost s = self.blocks@.map_values(|p: (Cid, Vec<u8>)| (p.0@, p.1@));
        let ghost f = |p: (Seq<u8>, Seq<u8>)| p.0 != cid@;
        let mut kept: Vec<(Cid, Vec<u8>)> = Vec::new();
        let mut old_blocks: Vec<(Cid, Vec<u8>)> = Vec::new();
        std::mem::swap(&mut old_blocks, &mut self.blocks);
        let mut i: usize = 0;
        proof {
            reveal(Seq::filter);
            assert(s.take(0).filter(f) =~= Seq::<(Seq<u8>, Seq<u8>)>::empty());
            assert(kept@.map_values(|p: (Cid, Vec<u8>)| (p.0@, p.1@)) =~= Seq::<(Seq<u8>, Seq<u8>)>::empty());
        }
        while i < old_blocks.len()
            invariant
                i <= old_blocks@.len(),
                s == old_blocks@.map_values(|p: (Cid, Vec<u8>)| (p.0@, p.1@)),
                f == (|p: (Seq<u8>, Seq<u8>)| p.0 != cid@),
                kept@.map_values(|p: (Cid, Vec<u8>)| (p.0@, p.1@)) == s.take(i as int).filter(f),
            decreases old_blocks@.len() - i,
        {
            let ghost before = kept@.map_values(|p: (Cid, Vec<u8>)| (p.0@, p.1@));
            assert(s.take(i + 1) =~= s.take(i as int).push(s[i as int]));
            proof {
                s.take(i as int).lemma_filter_push(s[i as int], f);
            }
            if !old_blocks[i].0.equals(&cid) {
                let entry = (old_blocks[i].0, old_blocks[i].1.clone());
                assert(entry.1@ =~= old_blocks@[i as int].1@);
                kept.push(entry);
                assert(kept@.map_values(|p: (Cid, Vec<u8>)| (p.0@, p.1@)) =~= before.push(s[i as int]));
            }
            i = i + 1;
        }
        assert(s.take(i as int) =~= s);
        assert(kept@.map_values(|p: (Cid, Vec<u8>)| (p.0@, p.1@)) == s.filter(f));
        self.blocks = kept;
        proof {
            lemma_entries_map_without(s, cid@, f);
            assert(s == old(self).blocks@.map_values(|p: (Cid, Vec<u8>)| (p.0@, p.1@)));
            assert(spec_entries_map(s.filter(f)) == spec_entries_map(s).remove(cid@));
        }
        Ok(())
    }

    /// The block stored under `cid`; a CID without a block is a lookup failure.
    fn retrieve(&self, cid: Cid) -> (r: Result<Vec<u8>, DataStoreError>)
        ensures
            match r {
                Ok(data) => self@.contains_key(cid@) && data@ == self@[cid@],
                Err(e) => !self@.contains_key(cid@) && e == DataStoreError::LookupFailure,
            },
    {
        let ghost s = self.blocks@.map_values(|p: (Cid, Vec<u8>)| (p.0@, p.1@));
        match self.last_position(&cid) {
            Some(j) => {
                proof {
                    lemma_entries_map_lookup(s, cid@, j as int);
                }
                let data = self.blocks[j].1.clone();
                assert(data@ =~= self.blocks@[j as int].1@);
                Ok(data)
            },
            None => {
                proof {
                    lemma_entries_map_lookup(s, cid@, -1);
                }
                Err(DataStoreError::LookupFailure)
            },
        }
    }

    /// Stores `data` under `cid`, unless a block is already stored there: CIDs name their
    /// content, so the stored block is kept. This never fails.
    fn store(&mut self, cid: Cid, data: Vec<u8>, immediate: bool) -> (r: Result<(), DataStoreError>)
        ensures
            r is Ok,
            final(self)@ == (if old(self)@.contains_key(cid@) {
                old(self)@
            } else {
                old(self)@.insert(cid@, data@)
            }),
    {
        let ghost s = self.blocks@.map_values(|p: (Cid, Vec<u8>)| (p.0@, p.1@));
        match self.last_position(&cid) {
            Some(j) => {
                proof {
                    lemma_entries_map_lookup(s, cid@, j as int);
                }
            },
            None => {
                proof {
                    lemma_entries_map_lookup(s, cid@, -1);
                }
                self.blocks.push((cid, data));
                proof {
                    let s2 = self.blocks@.map_values(|p: (Cid, Vec<u8>)| (p.0@, p.1@));
                    assert(s2.drop_last() =~= s);
                }
            },
        }
        Ok(())
    }
}

/// What a store holds after storing `data` under `cid`: the block already stored there is
/// kept, otherwise the new one is added.
pub open spec fn spec_stored(m: Map<Seq<u8>, Seq<u8>>, cid: Seq<u8>, data: Seq<u8>) -> Map<Seq<u8>, Seq<u8>> {
    if m.contains_key(cid) {
        m
    } else {
        m.insert(cid, data)
    }
}

/// A block stored under a CID that was free is retrieved as stored, and storing again under
/// the same CID keeps the first block.
pub proof fn lemma_store_then_retrieve(m: Map<Seq<u8>, Seq<u8>>, cid: Seq<u8>, data: Seq<u8>, other: Seq<u8>)
    requires
        !m.contains_key(cid),
    ensures
        spec_stored(m, cid, data).contains_key(cid),
        spec_stored(m, cid, data)[cid] == data,
        spec_stored(spec_stored(m, cid, data), cid, other) == spec_stored(m, cid, data),
{
}

/// Removing a block leaves no block under its CID and leaves every other block as it was.
pub proof fn lemma_remove_forgets(m: Map<Seq<u8>, Seq<u8>>, cid: Seq<u8>, k: Seq<u8>)
    ensures
        !m.remove(cid).contains_key(cid),
        k != cid ==> (m.remove(cid).contains_key(k) == m.contains_key(k) && (m.contains_key(k) ==> m.remove(cid)[k] == m[k])),
{
}

} // verus!
