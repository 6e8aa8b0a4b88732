use vstd::bytes::*;
use vstd::prelude::*;

use crate::codec::ids::{Cid, PermanentId, CID_LENGTH, PERMANENT_ID_LENGTH};
use crate::codec::order::{lemma_seq_lt_asymmetric, lemma_seq_lt_irreflexive, lemma_seq_lt_total, lemma_seq_lt_transitive, seq_lt};
use crate::codec::parser::{
    le_u16, le_u64, lemma_concat_push, lemma_le_roundtrips, lemma_prefix_outcome_empty, lemma_repeat_fail,
    lemma_repeat_roundtrip, lemma_repeat_step, parse_agrees, prefix_outcome, put_bytes, put_u16, put_u64,
    spec_concat_encodings, spec_le_u16, spec_repeat, EncodingError, ParseError, Parsed,
};
use crate::filesystem::nodes::node_name::{
    lemma_name_roundtrip, spec_encode_name, spec_name_encodable, spec_parse_name, NodeName, NodeNameView,
};

verus! {

broadcast use vstd::seq::group_seq_axioms, vstd::slice::group_slice_axioms, vstd::array::group_array_axioms;

/// What a parent records of one child: its permanent ID, the CID of its encoding and its size.
#[derive(Debug, Clone, Copy)]
pub struct ChildMapEntry {
    pub permanent_id: PermanentId,
    pub cid: Cid,
    pub size: u64,
}

pub struct ChildMapEntryView {
    pub permanent_id: Seq<u8>,
    pub cid: Seq<u8>,
    pub size: u64,
}

impl View for ChildMapEntry {
    type V = ChildMapEntryView;

    open spec fn view(&self) -> ChildMapEntryView {
        ChildMapEntryView { permanent_id: self.permanent_id@, cid: self.cid@, size: self.size }
    }
}

/// The encoded size of a child entry: permanent ID, CID and 64 bit size.
pub const CHILD_MAP_ENTRY_SIZE: usize = 56;

pub open spec fn spec_entry_wf(e: ChildMapEntryView) -> bool {
    e.permanent_id.len() == PERMANENT_ID_LENGTH && e.cid.len() == CID_LENGTH
}

pub open spec fn spec_encode_entry(e: ChildMapEntryView) -> Seq<u8> {
    e.permanent_id + e.cid + spec_u64_to_le_bytes(e.size)
}

pub open spec fn spec_parse_entry(s: Seq<u8>) -> Parsed<ChildMapEntryView> {
    if s.len() < 56 {
        Parsed::Incomplete
    } else {
        Parsed::Done(
            56,
            ChildMapEntryView {
                permanent_id: s.take(16),
                cid: s.subrange(16, 48),
                size: spec_u64_from_le_bytes(s.subrange(48, 56)),
            },
        )
    }
}

impl ChildMapEntry {
    pub fn new(permanent_id: PermanentId, cid: Cid, size: u64) -> (r: ChildMapEntry)
        ensures
            r@ == (ChildMapEntryView { permanent_id: permanent_id@, cid: cid@, size }),
    {
        ChildMapEntry { permanent_id, cid, size }
    }

    pub fn permanent_id(&self) -> (r: &PermanentId)
        ensures
            r@ == self@.permanent_id,
    {
        &self.permanent_id
    }

    pub fn cid(&self) -> (r: &Cid)
        ensures
            r@ == self@.cid,
    {
        &self.cid
    }

    pub fn size(&self) -> (r: u64)
        ensures
            r == self@.size,
    {
        self.size
    }

    pub fn set_cid(&mut self, cid: Cid)
        ensures
            final(self)@ == (ChildMapEntryView { cid: cid@, ..old(self)@ }),
    {
        self.cid = cid;
    }

    pub fn set_size(&mut self, size: u64)
        ensures
            final(self)@ == (ChildMapEntryView { size, ..old(self)@ }),
    {
        self.size = size;
    }

    /// Appends the 56 byte encoding of the entry and returns its length.
    pub fn encode(&self, out: &mut Vec<u8>) -> (r: usize)
        ensures
            final(out)@ == old(out)@ + spec_encode_entry(self@),
            r == spec_encode_entry(self@).len(),
            r == CHILD_MAP_ENTRY_SIZE,
    {
        let ghost start = out@;
        self.permanent_id.encode(out);
        self.cid.encode(out);
        put_u64(out, self.size);
        proof {
            lemma_le_roundtrips();
        }
        assert(out@ =~= start + spec_encode_entry(self@));
        CHILD_MAP_ENTRY_SIZE
    }

    pub fn parse(input: &[u8]) -> (res: Result<(&[u8], ChildMapEntry), ParseError>)
        ensures
            parse_agrees(input@, res, spec_parse_entry(input@), |e: ChildMapEntry| e@),
    {
        if input.len() < CHILD_MAP_ENTRY_SIZE {
            return Err(ParseError::Incomplete);
        }
        let (rest1, permanent_id) = PermanentId::parse(input)?;
        assert(rest1@ =~= input@.skip(16));
        let (rest2, cid) = Cid::parse(rest1)?;
        assert(rest2@ =~= input@.skip(48));
        let (rest3, size) = le_u64(rest2)?;
        assert(permanent_id@ =~= input@.take(16));
        assert(cid@ =~= input@.subrange(16, 48));
        assert(input@.skip(48).take(8) =~= input@.subrange(48, 56));
        assert(rest3@ =~= input@.skip(56));
        Ok((rest3, ChildMapEntry { permanent_id, cid, size }))
    }
}

/// Reading back an encoded entry gives the same entry and consumes its 56 bytes.
pub proof fn lemma_entry_roundtrip(e: ChildMapEntryView, rest: Seq<u8>)
    requires
        spec_entry_wf(e),
    ensures
        spec_parse_entry(spec_encode_entry(e) + rest) == Parsed::Done(spec_encode_entry(e).len(), e),
        spec_encode_entry(e).len() == 56,
{
    lemma_le_roundtrips();
    let s = spec_encode_entry(e) + rest;
    assert(s.take(16) =~= e.permanent_id);
    assert(s.subrange(16, 48) =~= e.cid);
    assert(s.subrange(48, 56) =~= spec_u64_to_le_bytes(e.size));
}

/// A child of a node as a name and its entry.
pub type ChildPair = (NodeNameView, ChildMapEntryView);

/// The children of a directory (or the associated data of a file), keyed by name. The entries
/// are kept ordered by permanent ID, which is the order they are encoded in.
pub struct ChildMap {
    pub entries: Vec<(NodeName, ChildMapEntry)>,
}

impl View for ChildMap {
    type V = Seq<ChildPair>;

    open spec fn view(&self) -> Seq<ChildPair> {
        self.entries@.map_values(|p: (NodeName, ChildMapEntry)| (p.0@, p.1@))
    }
}

/// Permanent IDs never decrease along the map.
pub open spec fn spec_pid_sorted(m: Seq<ChildPair>) -> bool {
    forall|i: int, j: int| 0 <= i < j < m.len() ==> !seq_lt(#[trigger] m[j].1.permanent_id, #[trigger] m[i].1.permanent_id)
}

/// No name occurs twice.
pub open spec fn spec_names_unique(m: Seq<ChildPair>) -> bool {
    forall|i: int, j: int| 0 <= i < j < m.len() ==> #[trigger] m[i].0 != #[trigger] m[j].0
}

/// A well-formed child map: unique names, ordered by permanent ID, well-formed entries.
pub open spec fn spec_child_map_wf(m: Seq<ChildPair>) -> bool {
    &&& spec_names_unique(m)
    &&& spec_pid_sorted(m)
    &&& forall|i: int| 0 <= i < m.len() ==> #[trigger] spec_entry_wf(m[i].1)
}

/// The position of the first child from `i` on that is called `n`.
pub open spec fn spec_find_name_from(m: Seq<ChildPair>, n: NodeNameView, i: int) -> Option<int>
    decreases m.len() - i,
{
    if i < 0 || i >= m.len() {
        None
    } else if m[i].0 == n {
        Some(i)
    } else {
        spec_find_name_from(m, n, i + 1)
    }
}

pub open spec fn spec_find_name(m: Seq<ChildPair>, n: NodeNameView) -> Option<int> {
    spec_find_name_from(m, n, 0)
}

/// The position of the first child from `i` on whose permanent ID is `pid`.
pub open spec fn spec_find_pid_from(m: Seq<ChildPair>, pid: Seq<u8>, i: int) -> Option<int>
    decreases m.len() - i,
{
    if i < 0 || i >= m.len() {
        None
    } else if m[i].1.permanent_id == pid {
        Some(i)
    } else {
        spec_find_pid_from(m, pid, i + 1)
    }
}

pub open spec fn spec_find_pid(m: Seq<ChildPair>, pid: Seq<u8>) -> Option<int> {
    spec_find_pid_from(m, pid, 0)
}

/// The first position from `i` on holding a permanent ID greater than `pid`: where an entry
/// with `pid` goes, after every entry with an equal or smaller ID.
pub open spec fn spec_upper_bound_from(m: Seq<ChildPair>, pid: Seq<u8>, i: int) -> int
    decreases m.len() - i,
{
    if i < 0 || i >= m.len() {
        m.len() as int
    } else if seq_lt(pid, m[i].1.permanent_id) {
        i
    } else {
        spec_upper_bound_from(m, pid, i + 1)
    }
}

pub open spec fn spec_upper_bound(m: Seq<ChildPair>, pid: Seq<u8>) -> int {
    spec_upper_bound_from(m, pid, 0)
}

/// The map without the child called `n`.
pub open spec fn spec_remove_name(m: Seq<ChildPair>, n: NodeNameView) -> Seq<ChildPair> {
    match spec_find_name(m, n) {
        Some(i) => m.remove(i),
        None => m,
    }
}

/// The map with `e` stored under `n`: any child of that name is dropped, and the new child goes
/// after every child with an equal or smaller permanent ID.
pub open spec fn spec_insert_child(m: Seq<ChildPair>, n: NodeNameView, e: ChildMapEntryView) -> Seq<ChildPair> {
    let rest = spec_remove_name(m, n);
    rest.insert(spec_upper_bound(rest, e.permanent_id), (n, e))
}

/// The permanent IDs of the children, in map order.
pub open spec fn spec_child_pids(m: Seq<ChildPair>) -> Seq<Seq<u8>> {
    m.map_values(|p: ChildPair| p.1.permanent_id)
}

pub proof fn lemma_find_name_from(m: Seq<ChildPair>, n: NodeNameView, i: int)
    requires
        0 <= i <= m.len(),
    ensures
        match spec_find_name_from(m, n, i) {
            Some(k) => i <= k < m.len() && m[k].0 == n && forall|j: int| i <= j < k ==> m[j].0 != n,
            None => forall|j: int| i <= j < m.len() ==> m[j].0 != n,
        },
    decreases m.len() - i,
{
    if i < m.len() && m[i].0 != n {
        lemma_find_name_from(m, n, i + 1);
    }
}

pub proof fn lemma_find_pid_from(m: Seq<ChildPair>, pid: Seq<u8>, i: int)
    requires
        0 <= i <= m.len(),
    ensures
        match spec_find_pid_from(m, pid, i) {
            Some(k) => i <= k < m.len() && m[k].1.permanent_id == pid && forall|j: int| i <= j < k ==> m[j].1.permanent_id != pid,
            None => forall|j: int| i <= j < m.len() ==> m[j].1.permanent_id != pid,
        },
    decreases m.len() - i,
{
    if i < m.len() && m[i].1.permanent_id != pid {
        lemma_find_pid_from(m, pid, i + 1);
    }
}

pub proof fn lemma_upper_bound_from(m: Seq<ChildPair>, pid: Seq<u8>, i: int)
    requires
        0 <= i <= m.len(),
    ensures
        i <= spec_upper_bound_from(m, pid, i) <= m.len(),
        forall|j: int| i <= j < spec_upper_bound_from(m, pid, i) ==> !seq_lt(pid, #[trigger] m[j].1.permanent_id),
        spec_upper_bound_from(m, pid, i) < m.len() ==> seq_lt(pid, m[spec_upper_bound_from(m, pid, i)].1.permanent_id),
    decreases m.len() - i,
{
    if i < m.len() && !seq_lt(pid, m[i].1.permanent_id) {
        lemma_upper_bound_from(m, pid, i + 1);
    }
}

/// In a map ordered by permanent ID, everything before the insertion point has an ID no greater
/// than `pid` and everything from it on a greater one.
pub proof fn lemma_upper_bound_sorted(m: Seq<ChildPair>, pid: Seq<u8>)
    requires
        spec_pid_sorted(m),
    ensures
        0 <= spec_upper_bound(m, pid) <= m.len(),
        forall|j: int| 0 <= j < spec_upper_bound(m, pid) ==> !seq_lt(pid, #[trigger] m[j].1.permanent_id),
        forall|j: int| spec_upper_bound(m, pid) <= j < m.len() ==> seq_lt(pid, #[trigger] m[j].1.permanent_id),
{
    lemma_upper_bound_from(m, pid, 0);
    let p = spec_upper_bound(m, pid);
    assert forall|j: int| p <= j < m.len() implies seq_lt(pid, #[trigger] m[j].1.permanent_id) by {
        if j > p {
            let a = m[p].1.permanent_id;
            let b = m[j].1.permanent_id;
            assert(!seq_lt(b, a));
            lemma_seq_lt_total(a, b);
            if a != b {
                lemma_seq_lt_transitive(pid, a, b);
            }
        }
    }
}

/// Removing one child keeps a map well-formed.
pub proof fn lemma_remove_keeps_wf(m: Seq<ChildPair>, i: int)
    requires
        spec_child_map_wf(m),
        0 <= i < m.len(),
    ensures
        spec_child_map_wf(m.remove(i)),
{
    let r = m.remove(i);
    assert forall|a: int, b: int| 0 <= a < b < r.len() implies #[trigger] r[a].0 != #[trigger] r[b].0 by {
        let a0 = if a < i { a } else { a + 1 };
        let b0 = if b < i { b } else { b + 1 };
        assert(r[a] == m[a0] && r[b] == m[b0]);
    }
    assert forall|a: int, b: int| 0 <= a < b < r.len() implies !seq_lt(
        #[trigger] r[b].1.permanent_id,
        #[trigger] r[a].1.permanent_id,
    ) by {
        let a0 = if a < i { a } else { a + 1 };
        let b0 = if b < i { b } else { b + 1 };
        assert(r[a] == m[a0] && r[b] == m[b0]);
    }
    assert forall|a: int| 0 <= a < r.len() implies #[trigger] spec_entry_wf(r[a].1) by {
        let a0 = if a < i { a } else { a + 1 };
        assert(r[a] == m[a0]);
    }
}

/// Placing a child whose name is absent at its insertion point keeps a map well-formed.
proof fn lemma_insert_fresh_keeps_wf(rest: Seq<ChildPair>, n: NodeNameView, e: ChildMapEntryView)
    requires
        spec_child_map_wf(rest),
        spec_entry_wf(e),
        forall|j: int| 0 <= j < rest.len() ==> rest[j].0 != n,
    ensures
        spec_child_map_wf(rest.insert(spec_upper_bound(rest, e.permanent_id), (n, e))),
{
    let p = spec_upper_bound(rest, e.permanent_id);
    lemma_upper_bound_sorted(rest, e.permanent_id);
    let r = rest.insert(p, (n, e));
    assert(r.len() == rest.len() + 1);
    assert(forall|a: int| 0 <= a < p ==> r[a] == rest[a]);
    assert(forall|a: int| p < a < r.len() ==> r[a] == rest[a - 1]);
    assert(r[p] == (n, e));
    assert forall|a: int, b: int| 0 <= a < b < r.len() implies #[trigger] r[a].0 != #[trigger] r[b].0 by {
        if b < p {
        } else if b == p {
        } else if a < p {
        } else if a == p {
        } else {
        }
    }
    assert forall|a: int, b: int| 0 <= a < b < r.len() implies !seq_lt(
        #[trigger] r[b].1.permanent_id,
        #[trigger] r[a].1.permanent_id,
    ) by {
        if b < p {
        } else if b == p {
            lemma_seq_lt_total(e.permanent_id, rest[a].1.permanent_id);
            lemma_seq_lt_irreflexive(e.permanent_id);
        } else if a < p {
        } else if a == p {
            lemma_seq_lt_asymmetric(e.permanent_id, rest[b - 1].1.permanent_id);
        } else {
        }
    }
    assert forall|a: int| 0 <= a < r.len() implies #[trigger] spec_entry_wf(r[a].1) by {
        if a < p {
        } else if a > p {
        }
    }
}

/// Storing a child keeps a map well-formed, and the child can be found under its name.
pub proof fn lemma_insert_keeps_wf(m: Seq<ChildPair>, n: NodeNameView, e: ChildMapEntryView)
    requires
        spec_child_map_wf(m),
        spec_entry_wf(e),
    ensures
        spec_child_map_wf(spec_insert_child(m, n, e)),
        spec_find_name(spec_insert_child(m, n, e), n) is Some,
{
    let rest = spec_remove_name(m, n);
    lemma_find_name_from(m, n, 0);
    match spec_find_name(m, n) {
        Some(i) => {
            lemma_remove_keeps_wf(m, i);
            assert forall|j: int| 0 <= j < rest.len() implies rest[j].0 != n by {
                let j0 = if j < i { j } else { j + 1 };
                assert(rest[j] == m[j0]);
            }
        },
        None => {},
    }
    lemma_insert_fresh_keeps_wf(rest, n, e);
    let p = spec_upper_bound(rest, e.permanent_id);
    lemma_upper_bound_from(rest, e.permanent_id, 0);
    let r = rest.insert(p, (n, e));
    lemma_find_name_from(r, n, 0);
    assert(r[p].0 == n);
}

/// Whether two names are the same.
pub fn names_equal(a: &NodeName, b: &NodeName) -> (r: bool)
    ensures
        r == (a@ == b@),
{
    match a {
        NodeName::Root => match b {
            NodeName::Root => true,
            NodeName::Named(_) => false,
        },
        NodeName::Named(x) => match b {
            NodeName::Root => false,
            NodeName::Named(y) => x.eq(y),
        },
    }
}

impl ChildMap {
    pub fn new() -> (r: ChildMap)
        ensures
            r@ == Seq::<ChildPair>::empty(),
    {
        ChildMap { entries: Vec::new() }
    }

    pub fn len(&self) -> (r: usize)
        ensures
            r == self@.len(),
    {
        self.entries.len()
    }

    /// The position of the child called `name`.
    pub fn find_name(&self, name: &NodeName) -> (r: Option<usize>)
        ensures
            r matches Some(i) ==> i < self@.len() && self@[i as int].0 == name@,
            r matches Some(i) ==> spec_find_name(self@, name@) == Some(i as int),
            r is None ==> spec_find_name(self@, name@) is None,
    {
        let mut i: usize = 0;
        while i < self.entries.len()
            invariant
                i <= self@.len(),
                self@.len() == self.entries@.len(),
                spec_find_name(self@, name@) == spec_find_name_from(self@, name@, i as int),
            decreases self@.len() - i,
        {
            if names_equal(&self.entries[i].0, name) {
                assert(self@[i as int].0 == self.entries@[i as int].0@);
                return Some(i);
            }
            i = i + 1;
        }
        None
    }

    /// The position of the first child with permanent ID `pid`.
    pub fn find_permanent_id(&self, pid: &PermanentId) -> (r: Option<usize>)
        ensures
            r matches Some(i) ==> i < self@.len() && self@[i as int].1.permanent_id == pid@,
            r matches Some(i) ==> spec_find_pid(self@, pid@) == Some(i as int),
            r is None ==> spec_find_pid(self@, pid@) is None,
    {
        let mut i: usize = 0;
        while i < self.entries.len()
            invariant
                i <= self@.len(),
                self@.len() == self.entries@.len(),
                spec_find_pid(self@, pid@) == spec_find_pid_from(self@, pid@, i as int),
            decreases self@.len() - i,
        {
            if self.entries[i].1.permanent_id.equals(pid) {
                assert(self@[i as int].1 == self.entries@[i as int].1@);
                return Some(i);
            }
            i = i + 1;
        }
        None
    }

    /// The entry of the child called `name`.
    pub fn get(&self, name: &NodeName) -> (r: Option<&ChildMapEntry>)
        ensures
            match spec_find_name(self@, name@) {
                Some(i) => r matches Some(e) && e@ == self@[i].1,
                None => r is None,
            },
    {
        match self.find_name(name) {
            Some(i) => {
                assert(self@[i as int].1 == self.entries@[i as int].1@);
                Some(&self.entries[i].1)
            },
            None => None,
        }
    }

    fn upper_bound(&self, pid: &PermanentId) -> (r: usize)
        ensures
            r == spec_upper_bound(self@, pid@),
            r <= self@.len(),
    {
        proof {
            lemma_upper_bound_from(self@, pid@, 0);
        }
        let mut i: usize = 0;
        while i < self.entries.len()
            invariant
                i <= self@.len(),
                self@.len() == self.entries@.len(),
                spec_upper_bound(self@, pid@) == spec_upper_bound_from(self@, pid@, i as int),
            decreases self@.len() - i,
        {
            assert(self@[i as int].1 == self.entries@[i as int].1@);
            if pid.less_than(&self.entries[i].1.permanent_id) {
                return i;
            }
            i = i + 1;
        }
        i
    }

    /// Removes the child called `name` and returns its entry.
    pub fn remove(&mut self, name: &NodeName) -> (r: Option<ChildMapEntry>)
        ensures
            final(self)@ == spec_remove_name(old(self)@, name@),
            match spec_find_name(old(self)@, name@) {
                Some(i) => r matches Some(e) && e@ == old(self)@[i].1,
                None => r is None,
            },
    {
        match self.find_name(name) {
            Some(i) => {
                let ghost before = self.entries@;
                let (_, entry) = self.entries.remove(i);
                assert(self@ =~= old(self)@.remove(i as int));
                assert(entry@ == old(self)@[i as int].1);
                Some(entry)
            },
            None => None,
        }
    }

    /// Stores `entry` under `name`, replacing any child of that name.
    pub fn insert(&mut self, name: NodeName, entry: ChildMapEntry)
        ensures
            final(self)@ == spec_insert_child(old(self)@, name@, entry@),
    {
        let ghost name_view = name@;
        let _ = self.remove(&name);
        let p = self.upper_bound(&entry.permanent_id);
        let ghost mid = self@;
        self.entries.insert(p, (name, entry));
        assert(self@ =~= mid.insert(p as int, (name_view, entry@)));
    }

    /// Sets the CID and size of the first child with permanent ID `pid`; false when there is
    /// none.
    pub fn update_permanent_id(&mut self, pid: &PermanentId, cid: Cid, size: u64) -> (r: bool)
        ensures
            match spec_find_pid(old(self)@, pid@) {
                Some(i) => r && final(self)@ == old(self)@.update(
                    i,
                    (old(self)@[i].0, ChildMapEntryView { cid: cid@, size, ..old(self)@[i].1 }),
                ),
                None => !r && final(self)@ == old(self)@,
            },
    {
        match self.find_permanent_id(pid) {
            Some(i) => {
                let (name, mut entry) = self.entries.remove(i);
                entry.set_cid(cid);
                entry.set_size(size);
                self.entries.insert(i, (name, entry));
                assert(self@ =~= old(self)@.update(
                    i as int,
                    (old(self)@[i as int].0, ChildMapEntryView { cid: cid@, size, ..old(self)@[i as int].1 }),
                ));
                true
            },
            None => false,
        }
    }

    /// Drops every child whose permanent ID is `pid`.
    pub fn retain_other_permanent_ids(&mut self, pid: &PermanentId)
        ensures
            final(self)@ == old(self)@.filter(|p: ChildPair| p.1.permanent_id != pid@),
    {
        let mut kept: Vec<(NodeName, ChildMapEntry)> = Vec::new();
        let ghost all = old(self)@;
        let ghost f = |p: ChildPair| p.1.permanent_id != pid@;
        let mut i: usize = 0;
        proof {
            reveal(Seq::filter);
            assert(all.take(0).filter(f) =~= Seq::<ChildPair>::empty());
            assert(kept@.map_values(|p: (NodeName, ChildMapEntry)| (p.0@, p.1@)) =~= Seq::<ChildPair>::empty());
        }
        while i < self.entries.len()
            invariant
                i <= self@.len(),
                self@ == all,
                f == (|p: ChildPair| p.1.permanent_id != pid@),
                self@.len() == self.entries@.len(),
                kept@.map_values(|p: (NodeName, ChildMapEntry)| (p.0@, p.1@)) == all.take(i as int).filter(f),
            decreases self@.len() - i,
        {
            let ghost before = kept@;
            assert(all.take(i + 1) =~= all.take(i as int).push(all[i as int]));
            assert(all[i as int] == (self.entries@[i as int].0@, self.entries@[i as int].1@));
            proof {
                all.take(i as int).lemma_filter_push(all[i as int], f);
            }
            if !self.entries[i].1.permanent_id.equals(pid) {
                let item = (self.entries[i].0.clone(), self.entries[i].1);
                kept.push(item);
                assert(kept@.map_values(|p: (NodeName, ChildMapEntry)| (p.0@, p.1@)) =~= before.map_values(
                    |p: (NodeName, ChildMapEntry)| (p.0@, p.1@),
                ).push(all[i as int]));
            } else {
                assert(kept@ =~= before);
            }
            i = i + 1;
        }
        assert(all.take(i as int) =~= all);
        self.entries = kept;
    }

    /// The permanent IDs of the children in map order, which is ascending order.
    pub fn ordered_pids(&self) -> (r: Vec<PermanentId>)
        ensures
            r@.map_values(|p: PermanentId| p@) == spec_child_pids(self@),
    {
        let mut out: Vec<PermanentId> = Vec::new();
        let mut i: usize = 0;
        while i < self.entries.len()
            invariant
                i <= self@.len(),
                self@.len() == self.entries@.len(),
                out@.map_values(|p: PermanentId| p@) == spec_child_pids(self@).take(i as int),
            decreases self@.len() - i,
        {
            let ghost before = out@;
            assert(self@[i as int].1 == self.entries@[i as int].1@);
            out.push(self.entries[i].1.permanent_id);
            assert(out@.map_values(|p: PermanentId| p@) =~= before.map_values(|p: PermanentId| p@).push(
                self@[i as int].1.permanent_id,
            ));
            assert(spec_child_pids(self@).take(i + 1) =~= spec_child_pids(self@).take(i as int).push(
                self@[i as int].1.permanent_id,
            ));
            i = i + 1;
        }
        assert(spec_child_pids(self@).take(i as int) =~= spec_child_pids(self@));
        out
    }
}


/// The encoding of one child: its name, then its entry.
pub open spec fn spec_encode_pair(p: ChildPair) -> Seq<u8> {
    spec_encode_name(p.0) + spec_encode_entry(p.1)
}

pub open spec fn pair_encoder() -> spec_fn(ChildPair) -> Seq<u8> {
    |p: ChildPair| spec_encode_pair(p)
}

pub open spec fn spec_parse_pair(s: Seq<u8>) -> Parsed<ChildPair> {
    match spec_parse_name(s) {
        Parsed::Done(n, name) => match spec_parse_entry(s.skip(n as int)) {
            Parsed::Done(k, e) => Parsed::Done(n + k, (name, e)),
            Parsed::Incomplete => Parsed::Incomplete,
            Parsed::Invalid => Parsed::Invalid,
        },
        Parsed::Incomplete => Parsed::Incomplete,
        Parsed::Invalid => Parsed::Invalid,
    }
}

pub open spec fn pair_parser() -> spec_fn(Seq<u8>) -> Parsed<ChildPair> {
    |s: Seq<u8>| spec_parse_pair(s)
}

pub open spec fn spec_pair_wf(p: ChildPair) -> bool {
    spec_name_encodable(p.0) && spec_entry_wf(p.1)
}

pub open spec fn pair_wf() -> spec_fn(ChildPair) -> bool {
    |p: ChildPair| spec_pair_wf(p)
}

/// The encoding of a child map: a 16 bit count, then every child in map order.
pub open spec fn spec_encode_children(m: Seq<ChildPair>) -> Seq<u8> {
    spec_u16_to_le_bytes(m.len() as u16) + spec_concat_encodings(m, pair_encoder())
}

/// The length of the first name from position `i` on that is too long to encode.
pub open spec fn spec_first_long_name_from(m: Seq<ChildPair>, i: int) -> Option<usize>
    decreases m.len() - i,
{
    if i < 0 || i >= m.len() {
        None
    } else if !spec_name_encodable(m[i].0) {
        match m[i].0 {
            NodeNameView::Named(c) => Some(vstd::utf8::encode_utf8(c).len() as usize),
            NodeNameView::Root => None,
        }
    } else {
        spec_first_long_name_from(m, i + 1)
    }
}

/// Why a child map can not be encoded: more than 65535 children, or (the first) name longer
/// than 255 bytes.
pub open spec fn spec_children_encode_error(m: Seq<ChildPair>) -> Option<EncodingError> {
    if m.len() > u16::MAX {
        Some(EncodingError::TooManyChildren)
    } else {
        match spec_first_long_name_from(m, 0) {
            Some(len) => Some(EncodingError::NameTooLong(len)),
            None => None,
        }
    }
}

/// The map built by storing the parsed children one after another, a later child replacing an
/// earlier one of the same name.
pub open spec fn spec_build_children(ps: Seq<ChildPair>) -> Seq<ChildPair>
    decreases ps.len(),
{
    if ps.len() == 0 {
        Seq::empty()
    } else {
        spec_insert_child(spec_build_children(ps.drop_last()), ps.last().0, ps.last().1)
    }
}

pub open spec fn spec_parse_children(s: Seq<u8>) -> Parsed<Seq<ChildPair>> {
    match spec_le_u16(s) {
        Parsed::Done(_, count) => match spec_repeat(s.skip(2), count as nat, pair_parser()) {
            Parsed::Done(n, ps) => Parsed::Done(2 + n, spec_build_children(ps)),
            Parsed::Incomplete => Parsed::Incomplete,
            Parsed::Invalid => Parsed::Invalid,
        },
        Parsed::Incomplete => Parsed::Incomplete,
        Parsed::Invalid => Parsed::Invalid,
    }
}

pub proof fn lemma_pair_roundtrip(p: ChildPair, rest: Seq<u8>)
    requires
        spec_pair_wf(p),
    ensures
        spec_parse_pair(spec_encode_pair(p) + rest) == Parsed::Done(spec_encode_pair(p).len(), p),
{
    let s = spec_encode_pair(p) + rest;
    let en = spec_encode_name(p.0);
    assert(s =~= en + (spec_encode_entry(p.1) + rest));
    lemma_name_roundtrip(p.0, spec_encode_entry(p.1) + rest);
    assert(s.skip(en.len() as int) =~= spec_encode_entry(p.1) + rest);
    lemma_entry_roundtrip(p.1, rest);
}

proof fn lemma_pairs_roundtrip_all()
    ensures
        forall|p: ChildPair, r: Seq<u8>| #[trigger] pair_wf()(p) ==> #[trigger] pair_parser()(pair_encoder()(p) + r)
            == Parsed::Done(pair_encoder()(p).len(), p),
{
    assert forall|p: ChildPair, r: Seq<u8>| #[trigger] pair_wf()(p) implies #[trigger] pair_parser()(pair_encoder()(p) + r)
        == Parsed::Done(pair_encoder()(p).len(), p) by {
        lemma_pair_roundtrip(p, r);
    }
}

/// Storing the children of a well-formed map one after another rebuilds the same map.
pub proof fn lemma_build_children_sorted(m: Seq<ChildPair>)
    requires
        spec_child_map_wf(m),
    ensures
        spec_build_children(m) == m,
    decreases m.len(),
{
    if m.len() > 0 {
        let init = m.drop_last();
        assert(spec_child_map_wf(init));
        lemma_build_children_sorted(init);
        let (n, e) = m.last();
        lemma_find_name_from(init, n, 0);
        assert(forall|j: int| 0 <= j < init.len() ==> init[j] == m[j]);
        assert(spec_remove_name(init, n) == init);
        lemma_upper_bound_from(init, e.permanent_id, 0);
        assert forall|j: int| 0 <= j < init.len() implies !seq_lt(e.permanent_id, #[trigger] init[j].1.permanent_id) by {
            assert(m[m.len() - 1].1.permanent_id == e.permanent_id);
        }
        assert(spec_upper_bound(init, e.permanent_id) == init.len()) by {
            if spec_upper_bound(init, e.permanent_id) < init.len() {
                let k = spec_upper_bound(init, e.permanent_id);
                assert(seq_lt(e.permanent_id, init[k].1.permanent_id));
            }
        }
        assert(init.insert(init.len() as int, (n, e)) =~= m);
    } else {
        assert(m =~= Seq::<ChildPair>::empty());
    }
}

/// A well-formed child map whose names fit and whose size fits the count reads back unchanged.
pub proof fn lemma_children_roundtrip(m: Seq<ChildPair>, rest: Seq<u8>)
    requires
        spec_child_map_wf(m),
        spec_children_encode_error(m) is None,
    ensures
        spec_parse_children(spec_encode_children(m) + rest) == Parsed::Done(spec_encode_children(m).len(), m),
{
    lemma_le_roundtrips();
    lemma_auto_spec_u16_to_from_le_bytes();
    let s = spec_encode_children(m) + rest;
    let body = spec_concat_encodings(m, pair_encoder());
    assert(m.len() <= u16::MAX);
    assert forall|i: int| 0 <= i < m.len() implies #[trigger] pair_wf()(m[i]) by {
        lemma_first_long_name_none(m, 0);
    }
    lemma_pairs_roundtrip_all();
    lemma_repeat_roundtrip(m, rest, pair_encoder(), pair_parser(), pair_wf());
    assert(s.take(2) =~= spec_u16_to_le_bytes(m.len() as u16));
    assert(s.skip(2) =~= body + rest);
    lemma_build_children_sorted(m);
}

proof fn lemma_first_long_name_none(m: Seq<ChildPair>, i: int)
    requires
        0 <= i <= m.len(),
        spec_first_long_name_from(m, i) is None,
    ensures
        forall|j: int| i <= j < m.len() ==> spec_name_encodable(#[trigger] m[j].0),
    decreases m.len() - i,
{
    if i < m.len() {
        if !spec_name_encodable(m[i].0) {
            assert(m[i].0 is Named);
        } else {
            lemma_first_long_name_none(m, i + 1);
        }
    }
}

impl ChildMap {
    /// Appends the encoding of the map. On an error the output is left as it was.
    pub fn encode(&self, out: &mut Vec<u8>) -> (r: Result<usize, EncodingError>)
        ensures
            match spec_children_encode_error(self@) {
                Some(e) => r == Err::<usize, EncodingError>(e) && final(out)@ == old(out)@,
                None => r == Ok::<usize, EncodingError>(spec_encode_children(self@).len() as usize)
                    && final(out)@ == old(out)@ + spec_encode_children(self@),
            },
    {
        let count = self.entries.len();
        if count > 65535 {
            return Err(EncodingError::TooManyChildren);
        }
        let mut buf: Vec<u8> = Vec::new();
        put_u16(&mut buf, count as u16);
        let mut i: usize = 0;
        proof {
            lemma_auto_spec_u16_to_from_le_bytes();
            assert(self@.take(0) =~= Seq::<ChildPair>::empty());
        }
        while i < count
            invariant
                count == self@.len() == self.entries@.len(),
                count <= u16::MAX,
                i <= count,
                spec_first_long_name_from(self@, 0) == spec_first_long_name_from(self@, i as int),
                buf@ == spec_u16_to_le_bytes(count as u16) + spec_concat_encodings(self@.take(i as int), pair_encoder()),
            decreases count - i,
        {
            assert(self@[i as int] == (self.entries@[i as int].0@, self.entries@[i as int].1@));
            let ghost before = buf@;
            match self.entries[i].0.encode(&mut buf) {
                Ok(_) => {},
                Err(_) => {
                    let len = match &self.entries[i].0 {
                        NodeName::Named(n) => crate::codec::text::str_byte_len(n.as_str()),
                        NodeName::Root => 0,
                    };
                    return Err(EncodingError::NameTooLong(len));
                },
            }
            self.entries[i].1.encode(&mut buf);
            proof {
                assert(self@.take(i + 1) =~= self@.take(i as int).push(self@[i as int]));
                lemma_concat_push(self@.take(i as int), self@[i as int], pair_encoder());
                assert(buf@ =~= spec_u16_to_le_bytes(count as u16) + spec_concat_encodings(self@.take(i + 1), pair_encoder()));
            }
            i = i + 1;
        }
        assert(self@.take(i as int) =~= self@);
        let written = buf.len();
        put_bytes(out, buf.as_slice());
        Ok(written)
    }

    /// Parses a 16 bit count and that many children, storing each in turn.
    pub fn parse(input: &[u8]) -> (res: Result<(&[u8], ChildMap), ParseError>)
        ensures
            parse_agrees(input@, res, spec_parse_children(input@), |m: ChildMap| m@),
    {
        let (rest0, count) = le_u16(input)?;
        assert(rest0@ =~= input@.skip(2));
        let ghost body = input@.skip(2);
        let mut map = ChildMap::new();
        let mut rest = rest0;
        let mut i: u16 = 0;
        let ghost mut m: nat = 0;
        let ghost mut ps: Seq<ChildPair> = Seq::empty();
        proof {
            lemma_prefix_outcome_empty(spec_repeat(body, count as nat, pair_parser()));
            assert(body.skip(0) =~= body);
        }
        while i < count
            invariant
                i <= count,
                m <= body.len(),
                body == input@.skip(2),
                spec_le_u16(input@) == Parsed::Done(2, count),
                rest@ == body.skip(m as int),
                map@ == spec_build_children(ps),
                spec_repeat(body, count as nat, pair_parser()) == prefix_outcome(
                    m,
                    ps,
                    spec_repeat(body.skip(m as int), (count - i) as nat, pair_parser()),
                ),
            decreases count - i,
        {
            let r1 = NodeName::parse(rest);
            match r1 {
                Ok((after_name, name)) => {
                    let ghost n1 = (rest@.len() - after_name@.len()) as nat;
                    match ChildMapEntry::parse(after_name) {
                        Ok((after_entry, entry)) => {
                            let ghost k = (rest@.len() - after_entry@.len()) as nat;
                            proof {
                                assert(after_name@ =~= rest@.skip(n1 as int));
                                assert(pair_parser()(body.skip(m as int)) == spec_parse_pair(rest@));
                                assert(spec_parse_pair(rest@) == Parsed::Done(k, (name@, entry@)));
                                lemma_repeat_step(body, m, ps, (count - i) as nat, pair_parser(), k, (name@, entry@));
                            }
                            let ghost name_view = name@;
                            map.insert(name, entry);
                            proof {
                                let old_ps = ps;
                                ps = ps.push((name_view, entry@));
                                assert(ps.drop_last() =~= old_ps);
                                m = m + k;
                                assert(after_entry@ =~= body.skip(m as int));
                            }
                            rest = after_entry;
                            i = i + 1;
                        },
                        Err(e) => {
                            proof {
                                assert(after_name@ =~= rest@.skip(n1 as int));
                                assert(pair_parser()(body.skip(m as int)) == spec_parse_pair(rest@));
                                lemma_repeat_fail(body.skip(m as int), (count - i) as nat, pair_parser());
                                assert(spec_le_u16(input@) == Parsed::Done(2, count));
                                assert(spec_parse_entry(after_name@) is Incomplete);
                                assert(spec_parse_pair(rest@) is Incomplete);
                            }
                            return Err(e);
                        },
                    }
                },
                Err(e) => {
                    proof {
                        assert(pair_parser()(body.skip(m as int)) == spec_parse_pair(rest@));
                        lemma_repeat_fail(body.skip(m as int), (count - i) as nat, pair_parser());
                        assert(spec_le_u16(input@) == Parsed::Done(2, count));
                        assert(spec_parse_name(rest@) is Incomplete ==> spec_parse_pair(rest@) is Incomplete);
                        assert(spec_parse_name(rest@) is Invalid ==> spec_parse_pair(rest@) is Invalid);
                    }
                    return Err(e);
                },
            }
        }
        proof {
            assert(ps + Seq::<ChildPair>::empty() =~= ps);
            assert(rest@ =~= input@.skip(2 + m as int));
        }
        Ok((rest, map))
    }
}

} // verus!
