use vstd::bytes::*;
use vstd::prelude::*;
use vstd::string::*;
use vstd::utf8::*;

use crate::codec::ids::{ActorId, Cid, PermanentId};
use crate::codec::node_kind::NodeKind;
use crate::codec::parser::{
    le_i64, le_u32, le_u8, lemma_le_roundtrips, parse_agrees, put_bytes, put_i64, put_u32, spec_i64_to_le_bytes,
    spec_le_i64, spec_le_u64, EncodingError, ErrorKind, ParseError, Parsed,
};
use crate::codec::vector_clock::VectorClock;
use crate::filesystem::nodes::attributes::{
    lemma_attributes_roundtrip, lemma_attributes_size_bound, lemma_attributes_size_nonneg, lemma_set_attribute_keeps_wf, spec_attribute, spec_attributes_encode_error,
    spec_attributes_size, spec_attributes_wf, spec_encode_attributes, spec_parse_attributes, spec_set_attribute,
    AttributePair, Attributes,
};
use crate::filesystem::nodes::node_data::child_map::{
    spec_find_name, spec_find_pid, spec_insert_child, ChildMapEntryView, ChildPair,
};
use crate::filesystem::nodes::node_data::{
    lemma_node_data_roundtrip, spec_children, spec_encode_node_data, spec_node_data_encode_error,
    spec_node_data_kind, spec_node_data_size, spec_node_data_wf, spec_ordered_child_pids, spec_parse_node_data,
    spec_with_children, NodeData, NodeDataError, NodeDataView,
};
use crate::filesystem::nodes::node_name::{
    lemma_name_roundtrip, spec_encode_name, spec_name_encodable, spec_name_size, spec_parse_name, NodeName,
    NodeNameError, NodeNameView,
};
use crate::utils::{blake3_hash, calculate_cid, current_time_ms};

verus! {

broadcast use vstd::seq::group_seq_axioms, vstd::slice::group_slice_axioms, vstd::array::group_array_axioms;

/// The position of a node in the drive's node table.
pub type NodeId = usize;

/// An entry of the filesystem: a directory or a file with its identity, ownership, timestamps,
/// name, attributes and data.
pub struct Node {
    pub id: NodeId,
    pub parent_id: Option<PermanentId>,
    pub permanent_id: PermanentId,
    pub owner_id: ActorId,
    pub vector_clock: VectorClock,
    pub created_at: i64,
    pub modified_at: i64,
    pub name: NodeName,
    pub metadata: Attributes,
    pub inner: NodeData,
}

pub struct NodeView {
    pub id: NodeId,
    pub parent_id: Option<Seq<u8>>,
    pub permanent_id: Seq<u8>,
    pub owner_id: Seq<u8>,
    pub vector_clock: u64,
    pub created_at: i64,
    pub modified_at: i64,
    pub name: NodeNameView,
    pub metadata: Seq<AttributePair>,
    pub data: NodeDataView,
}

impl View for Node {
    type V = NodeView;

    open spec fn view(&self) -> NodeView {
        NodeView {
            id: self.id,
            parent_id: match self.parent_id {
                Some(p) => Some(p@),
                None => None,
            },
            permanent_id: self.permanent_id@,
            owner_id: self.owner_id@,
            vector_clock: self.vector_clock.counter,
            created_at: self.created_at,
            modified_at: self.modified_at,
            name: self.name@,
            metadata: self.metadata@,
            data: self.inner@,
        }
    }
}

/// The parent field of an encoded node: a zero byte for the root, a one byte and the parent's
/// permanent ID otherwise.
pub open spec fn spec_encode_parent(p: Option<Seq<u8>>) -> Seq<u8> {
    match p {
        Some(pid) => seq![1u8] + pid,
        None => seq![0u8],
    }
}

/// The encoded body of a node, everything after its CID and length.
pub open spec fn spec_node_body(n: NodeView) -> Seq<u8> {
    n.permanent_id + spec_u64_to_le_bytes(n.vector_clock) + spec_encode_parent(n.parent_id) + n.owner_id
        + spec_i64_to_le_bytes(n.created_at) + spec_i64_to_le_bytes(n.modified_at) + spec_encode_name(n.name)
        + spec_encode_attributes(n.metadata) + spec_encode_node_data(n.data)
}

/// A framed node: the CID of its body, the body's length and the body.
pub open spec fn spec_frame_node(cid: Seq<u8>, body: Seq<u8>) -> Seq<u8> {
    cid + spec_u32_to_le_bytes(body.len() as u32) + body
}

/// The complete encoding of a node, framed by the BLAKE3 digest of its body.
pub open spec fn spec_node_encoding(n: NodeView) -> Seq<u8> {
    spec_frame_node(blake3_hash(spec_node_body(n)), spec_node_body(n))
}

/// Why a node can not be encoded, checked in encoding order.
pub open spec fn spec_node_encode_error(n: NodeView) -> Option<EncodingError> {
    if !spec_name_encodable(n.name) {
        match n.name {
            NodeNameView::Named(c) => Some(EncodingError::NameTooLong(encode_utf8(c).len() as usize)),
            NodeNameView::Root => None,
        }
    } else if spec_attributes_encode_error(n.metadata) is Some {
        spec_attributes_encode_error(n.metadata)
    } else if spec_node_data_encode_error(n.data) is Some {
        spec_node_data_encode_error(n.data)
    } else if spec_node_body(n).len() > u32::MAX {
        Some(EncodingError::TooLarge)
    } else {
        None
    }
}

/// A node's identifiers have their fixed lengths and its parts are well-formed.
pub open spec fn spec_node_wf(n: NodeView) -> bool {
    &&& n.permanent_id.len() == 16
    &&& n.owner_id.len() == 32
    &&& (n.parent_id matches Some(p) ==> p.len() == 16)
    &&& spec_attributes_wf(n.metadata)
    &&& forall|i: int| 0 <= i < n.metadata.len() ==> valid_utf8(#[trigger] n.metadata[i].0)
    &&& spec_node_data_wf(n.data)
    &&& !(n.data is AssociatedData)
}

/// Parsing the fixed-size head of a node body up to and including the timestamps: the offset
/// after it and the fields read.
pub open spec fn spec_parse_node_head(s: Seq<u8>) -> Parsed<(Seq<u8>, u64, Option<Seq<u8>>, Seq<u8>, i64, i64)> {
    if s.len() < 25 {
        Parsed::Incomplete
    } else if s[24] != 0 && s[24] != 1 {
        Parsed::Invalid
    } else {
        let off: int = if s[24] == 1 { 41 } else { 25 };
        if s.len() < off + 48 {
            Parsed::Incomplete
        } else {
            Parsed::Done(
                (off + 48) as nat,
                (
                    s.take(16),
                    spec_u64_from_le_bytes(s.subrange(16, 24)),
                    if s[24] == 1 { Some(s.subrange(25, 41)) } else { None },
                    s.subrange(off, off + 32),
                    spec_u64_from_le_bytes(s.subrange(off + 32, off + 40)) as i64,
                    spec_u64_from_le_bytes(s.subrange(off + 40, off + 48)) as i64,
                ),
            )
        }
    }
}

/// Parsing a node body; the parsed node gets the table position `id`.
pub open spec fn spec_parse_node_body(s: Seq<u8>, id: NodeId) -> Parsed<NodeView> {
    match spec_parse_node_head(s) {
        Parsed::Done(h, (permanent_id, vector_clock, parent_id, owner_id, created_at, modified_at)) => match spec_parse_name(
            s.skip(h as int),
        ) {
            Parsed::Done(n1, name) => match spec_parse_attributes(s.skip((h + n1) as int)) {
                Parsed::Done(n2, metadata) => match spec_parse_node_data(s.skip((h + n1 + n2) as int)) {
                    Parsed::Done(n3, data) => Parsed::Done(
                        h + n1 + n2 + n3,
                        NodeView {
                            id,
                            parent_id,
                            permanent_id,
                            owner_id,
                            vector_clock,
                            created_at,
                            modified_at,
                            name,
                            metadata,
                            data,
                        },
                    ),
                    Parsed::Incomplete => Parsed::Incomplete,
                    Parsed::Invalid => Parsed::Invalid,
                },
                Parsed::Incomplete => Parsed::Incomplete,
                Parsed::Invalid => Parsed::Invalid,
            },
            Parsed::Incomplete => Parsed::Incomplete,
            Parsed::Invalid => Parsed::Invalid,
        },
        Parsed::Incomplete => Parsed::Incomplete,
        Parsed::Invalid => Parsed::Invalid,
    }
}

/// Parsing a framed node: the CID is skipped, and a body whose parsed length differs from the
/// recorded one is rejected.
pub open spec fn spec_parse_node(s: Seq<u8>, id: NodeId) -> Parsed<NodeView> {
    if s.len() < 36 {
        Parsed::Incomplete
    } else {
        match spec_parse_node_body(s.skip(36), id) {
            Parsed::Done(n, node) => if n == spec_u32_from_le_bytes(s.subrange(32, 36)) {
                Parsed::Done(36 + n, node)
            } else {
                Parsed::Invalid
            },
            Parsed::Incomplete => Parsed::Incomplete,
            Parsed::Invalid => Parsed::Invalid,
        }
    }
}

/// The size estimate of a node's own fields, without its data.
pub open spec fn spec_outer_size(n: NodeView) -> int {
    32 + 4 + 16 + (if n.parent_id is Some { 17int } else { 1int }) + 32 + 16 + spec_name_size(n.name) + 1
        + spec_attributes_size(n.metadata)
}

pub open spec fn spec_node_size(n: NodeView) -> int {
    spec_outer_size(n) + spec_node_data_size(n.data)
}

/// `b` is `a` with only the data replaced and the modification time refreshed.
pub open spec fn spec_changed_data(a: NodeView, b: NodeView, data: NodeDataView) -> bool {
    b == NodeView { data, modified_at: b.modified_at, ..a }
}

impl Node {
    pub fn id(&self) -> (r: NodeId)
        ensures
            r == self@.id,
    {
        self.id
    }

    pub fn created_at(&self) -> (r: i64)
        ensures
            r == self@.created_at,
    {
        self.created_at
    }

    pub fn modified_at(&self) -> (r: i64)
        ensures
            r == self@.modified_at,
    {
        self.modified_at
    }

    pub fn data(&self) -> (r: &NodeData)
        ensures
            r@ == self@.data,
    {
        &self.inner
    }

    pub fn kind(&self) -> (r: NodeKind)
        ensures
            r == spec_node_data_kind(self@.data),
    {
        self.inner.kind()
    }

    pub fn metadata(&self) -> (r: &Attributes)
        ensures
            r@ == self@.metadata,
    {
        &self.metadata
    }

    pub fn name(&self) -> (r: NodeName)
        ensures
            r@ == self@.name,
    {
        self.name.clone()
    }

    pub fn owner_id(&self) -> (r: ActorId)
        ensures
            r@ == self@.owner_id,
    {
        self.owner_id
    }

    pub fn parent_id(&self) -> (r: Option<PermanentId>)
        ensures
            match self@.parent_id {
                Some(p) => r matches Some(q) && q@ == p,
                None => r is None,
            },
    {
        self.parent_id
    }

    pub fn permanent_id(&self) -> (r: PermanentId)
        ensures
            r@ == self@.permanent_id,
    {
        self.permanent_id
    }

    /// Whether the node can hold children: directories and files (their associated data) can.
    pub fn supports_children(&self) -> (r: bool)
        ensures
            r == (self@.data is Directory || self@.data is File),
    {
        match self.inner.kind() {
            NodeKind::Directory => true,
            NodeKind::File => true,
            NodeKind::AssociatedData => false,
        }
    }

    pub fn ordered_child_pids(&self) -> (r: Vec<PermanentId>)
        ensures
            r@.map_values(|p: PermanentId| p@) == spec_ordered_child_pids(self@.data),
    {
        self.inner.ordered_child_pids()
    }

    pub fn data_cids(&self) -> (r: Option<Vec<Cid>>)
        ensures
            match self@.data {
                NodeDataView::File { content, .. } | NodeDataView::AssociatedData { content } => match content {
                    crate::filesystem::file_content::FileContentView::Encrypted { content, .. }
                    | crate::filesystem::file_content::FileContentView::Public { content, .. } => r matches Some(v)
                        && v@.len() == content.len() && forall|i: int| 0 <= i < content.len() ==> #[trigger] v@[i]@
                        == content[i].cid,
                    _ => r is None,
                },
                NodeDataView::Directory { .. } => r is None,
            },
    {
        self.inner.data_cids()
    }

    /// Records a change: the modification time becomes the current time.
    pub fn notify_of_change(&mut self)
        ensures
            final(self)@ == (NodeView { modified_at: final(self)@.modified_at, ..old(self)@ }),
    {
        self.modified_at = current_time_ms();
    }

    /// Adds a child below this node (see [`NodeData::add_child`]) and records the change.
    pub fn add_child(&mut self, name: NodeName, child_id: PermanentId, cid: Cid, size: u64) -> (r: Result<(), NodeDataError>)
        ensures
            match spec_children(old(self)@.data) {
                None => r == Err::<(), NodeDataError>(NodeDataError::NotAParent) && final(self)@ == old(self)@,
                Some(m) => if spec_find_name(m, name@) is Some {
                    r == Err::<(), NodeDataError>(NodeDataError::ChildNameExists) && final(self)@ == old(self)@
                } else {
                    r is Ok && spec_changed_data(
                        old(self)@,
                        final(self)@,
                        spec_with_children(
                            old(self)@.data,
                            spec_insert_child(m, name@, ChildMapEntryView { permanent_id: child_id@, cid: cid@, size }),
                        ),
                    )
                },
            },
    {
        self.inner.add_child(name, child_id, cid, size)?;
        self.notify_of_change();
        Ok(())
    }

    /// Removes the child called `child_name` and records the change.
    pub fn remove_child(&mut self, child_name: &NodeName) -> (r: Result<(), NodeDataError>)
        ensures
            match spec_children(old(self)@.data) {
                None => r == Err::<(), NodeDataError>(NodeDataError::NotAParent) && final(self)@ == old(self)@,
                Some(m) => match spec_find_name(m, child_name@) {
                    Some(i) => r is Ok && spec_changed_data(old(self)@, final(self)@, spec_with_children(old(self)@.data, m.remove(i))),
                    None => r == Err::<(), NodeDataError>(NodeDataError::ChildNameMissing) && final(self)@ == old(self)@,
                },
            },
    {
        self.inner.remove_child(child_name)?;
        self.notify_of_change();
        Ok(())
    }

    /// Removes every child with permanent ID `child_id` and records the change.
    pub fn remove_permanent_id(&mut self, child_id: &PermanentId) -> (r: Result<(), NodeDataError>)
        ensures
            match spec_children(old(self)@.data) {
                None => r == Err::<(), NodeDataError>(NodeDataError::NotAParent) && final(self)@ == old(self)@,
                Some(m) => r is Ok && spec_changed_data(
                    old(self)@,
                    final(self)@,
                    spec_with_children(old(self)@.data, m.filter(|p: ChildPair| p.1.permanent_id != child_id@)),
                ),
            },
    {
        self.inner.remove_permanent_id(child_id)?;
        self.notify_of_change();
        Ok(())
    }

    /// Records a new CID and size for a child (see [`NodeData::update_child`]) and the change.
    pub fn update_child(&mut self, child_id: &PermanentId, cid: Cid, size: u64) -> (r: Result<(), NodeDataError>)
        ensures
            match spec_children(old(self)@.data) {
                None => r is Ok && spec_changed_data(old(self)@, final(self)@, old(self)@.data),
                Some(m) => match spec_find_pid(m, child_id@) {
                    Some(i) => r is Ok && spec_changed_data(
                        old(self)@,
                        final(self)@,
                        spec_with_children(
                            old(self)@.data,
                            m.update(i, (m[i].0, ChildMapEntryView { cid: cid@, size, ..m[i].1 })),
                        ),
                    ),
                    None => r == Err::<(), NodeDataError>(NodeDataError::ChildIdMissing) && final(self)@ == old(self)@,
                },
            },
    {
        self.inner.update_child(child_id, cid, size)?;
        self.notify_of_change();
        Ok(())
    }

    /// Replaces the node's data and records the change.
    pub fn set_data(&mut self, data: NodeData)
        ensures
            spec_changed_data(old(self)@, final(self)@, data@),
    {
        self.inner = data;
        self.notify_of_change();
    }

    pub fn set_name(&mut self, new_name: NodeName)
        ensures
            final(self)@ == (NodeView { name: new_name@, modified_at: final(self)@.modified_at, ..old(self)@ }),
    {
        self.name = new_name;
        self.notify_of_change();
    }

    pub fn set_parent_id(&mut self, parent_id: PermanentId)
        ensures
            final(self)@ == (NodeView { parent_id: Some(parent_id@), modified_at: final(self)@.modified_at, ..old(self)@ }),
    {
        self.parent_id = Some(parent_id);
        self.notify_of_change();
    }

    /// Stores an attribute and returns the value it replaced.
    pub fn set_attribute(&mut self, key: String, value: Vec<u8>) -> (r: Option<Vec<u8>>)
        ensures
            final(self)@ == (NodeView {
                metadata: spec_set_attribute(old(self)@.metadata, encode_utf8(key@), value@),
                modified_at: final(self)@.modified_at,
                ..old(self)@
            }),
            match spec_attribute(old(self)@.metadata, encode_utf8(key@)) {
                Some(v) => r matches Some(x) && x@ == v,
                None => r is None,
            },
    {
        let old_value = self.metadata.insert(key, value);
        self.notify_of_change();
        old_value
    }

    /// The estimated encoded size of the node's own fields, without its data.
    pub fn outer_size_estimate(&self) -> (r: u64)
        requires
            spec_outer_size(self@) <= usize::MAX,
        ensures
            r == spec_outer_size(self@),
    {
        proof {
            lemma_attributes_size_nonneg(self@.metadata);
        }
        let mut encoded_size: usize = Cid::size();
        encoded_size = encoded_size + 4;
        encoded_size = encoded_size + PermanentId::size();
        encoded_size = encoded_size + match &self.parent_id {
            Some(_) => 1 + PermanentId::size(),
            None => 1,
        };
        encoded_size = encoded_size + ActorId::size();
        encoded_size = encoded_size + 16;
        encoded_size = encoded_size + self.name.size();
        encoded_size = encoded_size + 1;
        encoded_size = encoded_size + self.metadata.size();
        encoded_size as u64
    }

    /// The size of the node: its own fields and its data with the recorded child sizes.
    pub fn size(&self) -> (r: u64)
        requires
            spec_outer_size(self@) <= usize::MAX,
            spec_node_size(self@) <= u64::MAX,
            spec_node_data_size(self@.data) >= 0,
        ensures
            r == spec_node_size(self@),
    {
        self.outer_size_estimate() + self.inner.size()
    }

    /// The size of an encodable node, or `None` when it does not fit 64 bits.
    pub fn checked_size(&self) -> (r: Option<u64>)
        requires
            spec_node_encode_error(self@) is None,
        ensures
            spec_node_size(self@) <= u64::MAX ==> r == Some(spec_node_size(self@) as u64),
            spec_node_size(self@) > u64::MAX ==> r is None,
            spec_node_size(self@) >= 0,
    {
        proof {
            lemma_attributes_size_bound(self@.metadata);
        }
        let outer = self.outer_size_estimate();
        match self.inner.checked_size() {
            Some(inner) => if inner > u64::MAX - outer {
                None
            } else {
                Some(outer + inner)
            },
            None => None,
        }
    }

    /// The encoded body of the node, everything after its CID and length.
    fn encode_body(&self) -> (r: Result<Vec<u8>, EncodingError>)
        requires
            !(self@.data is AssociatedData),
        ensures
            match r {
                Ok(body) => spec_node_encode_error(self@) is None && body@ == spec_node_body(self@),
                Err(e) => spec_node_encode_error(self@) == Some(e),
            },
    {
        proof {
            lemma_le_roundtrips();
        }
        let mut body: Vec<u8> = Vec::new();
        self.permanent_id.encode(&mut body);
        self.vector_clock.encode(&mut body);
        match &self.parent_id {
            Some(pid) => {
                body.push(1u8);
                pid.encode(&mut body);
            },
            None => {
                body.push(0u8);
            },
        }
        self.owner_id.encode(&mut body);
        put_i64(&mut body, self.created_at);
        put_i64(&mut body, self.modified_at);
        let ghost head = body@;
        match self.name.encode(&mut body) {
            Ok(_) => {},
            Err(NodeNameError::TooLong(len)) => return Err(EncodingError::NameTooLong(len)),
            Err(_) => return Err(EncodingError::NameTooLong(0)),
        }
        self.metadata.encode(&mut body)?;
        self.inner.encode(&mut body)?;
        assert(head =~= self@.permanent_id + spec_u64_to_le_bytes(self@.vector_clock) + spec_encode_parent(self@.parent_id)
            + self@.owner_id + spec_i64_to_le_bytes(self@.created_at) + spec_i64_to_le_bytes(self@.modified_at));
        assert(body@ =~= spec_node_body(self@));
        if body.len() > 4294967295 {
            return Err(EncodingError::TooLarge);
        }
        Ok(body)
    }

    /// The complete encoding of the node: the CID of its body, the body's length, the body.
    pub fn compute_encoding(&self) -> (r: Result<Vec<u8>, EncodingError>)
        requires
            !(self@.data is AssociatedData),
        ensures
            match spec_node_encode_error(self@) {
                Some(e) => r == Err::<Vec<u8>, EncodingError>(e),
                None => r matches Ok(v) && v@ == spec_node_encoding(self@) && blake3_hash(spec_node_body(self@)).len() == 32,
            },
    {
        let body = self.encode_body()?;
        let cid = calculate_cid(body.as_slice());
        let mut out: Vec<u8> = Vec::new();
        cid.encode(&mut out);
        put_u32(&mut out, body.len() as u32);
        put_bytes(&mut out, body.as_slice());
        Ok(out)
    }

    /// Appends the encoding of the node and returns its length.
    pub fn encode(&self, out: &mut Vec<u8>) -> (r: Result<usize, EncodingError>)
        requires
            !(self@.data is AssociatedData),
        ensures
            match spec_node_encode_error(self@) {
                Some(e) => r == Err::<usize, EncodingError>(e) && final(out)@ == old(out)@,
                None => r == Ok::<usize, EncodingError>(spec_node_encoding(self@).len() as usize) && final(out)@
                    == old(out)@ + spec_node_encoding(self@),
            },
    {
        let encoded = self.compute_encoding()?;
        put_bytes(out, encoded.as_slice());
        Ok(encoded.len())
    }

    /// The CID of the node: the BLAKE3 digest of its encoded body.
    pub fn cid(&self) -> (r: Result<Cid, EncodingError>)
        requires
            !(self@.data is AssociatedData),
        ensures
            match spec_node_encode_error(self@) {
                Some(e) => r == Err::<Cid, EncodingError>(e),
                None => r matches Ok(c) && c@ == blake3_hash(spec_node_body(self@)),
            },
    {
        let body = self.encode_body()?;
        Ok(calculate_cid(body.as_slice()))
    }

    /// Parses a framed node from the front of `input`, giving it the table position
    /// `allocated_id`.
    pub fn parse(input: &[u8], allocated_id: NodeId) -> (res: Result<(&[u8], Node), ParseError>)
        ensures
            parse_agrees(input@, res, spec_parse_node(input@, allocated_id), |n: Node| n@),
    {
        proof {
            lemma_le_roundtrips();
        }
        let (r0, _cid) = Cid::parse(input)?;
        let (r1, node_data_len) = le_u32(r0)?;
        assert(r1@ =~= input@.skip(36));
        assert(r0@.take(4) =~= input@.subrange(32, 36));
        let ghost body = r1@;
        let body_start_len = r1.len();
        let (r8, (permanent_id, vector_clock, parent_id, owner_id, created_at, modified_at)) = parse_node_head(r1)?;
        let ghost h = body.len() - r8@.len();
        assert(r8@ =~= body.skip(h));
        let (r9, name) = NodeName::parse(r8)?;
        let ghost n1 = r8@.len() - r9@.len();
        assert(r9@ =~= body.skip(h + n1));
        let (r10, metadata) = Attributes::parse(r9)?;
        let ghost n2 = r9@.len() - r10@.len();
        assert(r10@ =~= body.skip(h + n1 + n2));
        let (r11, inner) = NodeData::parse(r10)?;
        let consumed = body_start_len - r11.len();
        assert(r11@ =~= input@.skip(36 + consumed as int));
        if consumed != node_data_len as usize {
            return Err(ParseError::Invalid(ErrorKind::Verify));
        }
        let node = Node {
            id: allocated_id,
            parent_id,
            permanent_id,
            owner_id,
            vector_clock,
            created_at,
            modified_at,
            name,
            metadata,
            inner,
        };
        Ok((r11, node))
    }
}

/// Parses the fixed-size head of a node body.
fn parse_node_head(body: &[u8]) -> (res: Result<(&[u8], (PermanentId, VectorClock, Option<PermanentId>, ActorId, i64, i64)), ParseError>)
    ensures
        parse_agrees(
            body@,
            res,
            spec_parse_node_head(body@),
            |t: (PermanentId, VectorClock, Option<PermanentId>, ActorId, i64, i64)|
                (
                    t.0@,
                    t.1.counter,
                    match t.2 {
                        Some(p) => Some(p@),
                        None => None,
                    },
                    t.3@,
                    t.4,
                    t.5,
                ),
        ),
{
    proof {
        lemma_le_roundtrips();
    }
    if body.len() < 25 {
        return Err(ParseError::Incomplete);
    }
    let (r2, permanent_id) = PermanentId::parse(body)?;
    let (r3, vector_clock) = VectorClock::parse(r2)?;
    assert(r3@ =~= body@.skip(24));
    let (r4, parent_present) = le_u8(r3)?;
    let (r5, parent_id) = if parent_present == 0 {
        (r4, None)
    } else if parent_present == 1 {
        let (r, pid) = PermanentId::parse(r4)?;
        (r, Some(pid))
    } else {
        return Err(ParseError::Invalid(ErrorKind::Token));
    };
    let ghost off: int = if parent_present == 1 { 41 } else { 25 };
    assert(r5@ =~= body@.skip(off));
    let (r6, owner_id) = ActorId::parse(r5)?;
    let (r7, created_at) = le_i64(r6)?;
    let (r8, modified_at) = le_i64(r7)?;
    assert(r8@ =~= body@.skip(off + 48));
    assert(permanent_id@ =~= body@.take(16));
    assert(r2@.take(8) =~= body@.subrange(16, 24));
    assert(parent_id matches Some(p) ==> p@ =~= body@.subrange(25, 41));
    assert(owner_id@ =~= body@.subrange(off, off + 32));
    assert(r6@.take(8) =~= body@.subrange(off + 32, off + 40));
    assert(r7@.take(8) =~= body@.subrange(off + 40, off + 48));
    Ok((r8, (permanent_id, vector_clock, parent_id, owner_id, created_at, modified_at)))
}

proof fn lemma_node_head_roundtrip(n: NodeView, tail: Seq<u8>)
    requires
        spec_node_wf(n),
    ensures
        ({
            let head = n.permanent_id + spec_u64_to_le_bytes(n.vector_clock) + spec_encode_parent(n.parent_id)
                + n.owner_id + spec_i64_to_le_bytes(n.created_at) + spec_i64_to_le_bytes(n.modified_at);
            spec_parse_node_head(head + tail) == Parsed::Done(
                head.len(),
                (n.permanent_id, n.vector_clock, n.parent_id, n.owner_id, n.created_at, n.modified_at),
            )
        }),
{
    lemma_le_roundtrips();
    let head = n.permanent_id + spec_u64_to_le_bytes(n.vector_clock) + spec_encode_parent(n.parent_id) + n.owner_id
        + spec_i64_to_le_bytes(n.created_at) + spec_i64_to_le_bytes(n.modified_at);
    let s = head + tail;
    let off: int = if n.parent_id is Some { 41 } else { 25 };
    assert(s.take(16) =~= n.permanent_id);
    assert(s.subrange(16, 24) =~= spec_u64_to_le_bytes(n.vector_clock));
    match n.parent_id {
        Some(p) => {
            assert(s[24] == 1);
            assert(s.subrange(25, 41) =~= p);
        },
        None => {
            assert(s[24] == 0);
        },
    }
    assert(s.subrange(off, off + 32) =~= n.owner_id);
    assert(s.subrange(off + 32, off + 40) =~= spec_i64_to_le_bytes(n.created_at));
    assert(s.subrange(off + 40, off + 48) =~= spec_i64_to_le_bytes(n.modified_at));
    assert(head.len() == off + 48);
}

#[verifier::spinoff_prover]
#[verifier::rlimit(60)]
proof fn lemma_node_body_roundtrip(n: NodeView, id: NodeId, rest: Seq<u8>)
    requires
        spec_node_wf(n),
        spec_node_encode_error(n) is None,
    ensures
        spec_parse_node_body(spec_node_body(n) + rest, id) == Parsed::Done(spec_node_body(n).len(), (NodeView { id, ..n })),
{
    let head = n.permanent_id + spec_u64_to_le_bytes(n.vector_clock) + spec_encode_parent(n.parent_id) + n.owner_id
        + spec_i64_to_le_bytes(n.created_at) + spec_i64_to_le_bytes(n.modified_at);
    let en = spec_encode_name(n.name);
    let ea = spec_encode_attributes(n.metadata);
    let ed = spec_encode_node_data(n.data);
    let b = spec_node_body(n) + rest;
    assert(spec_node_body(n) =~= head + en + ea + ed);
    assert(b =~= head + (en + (ea + (ed + rest))));
    lemma_node_head_roundtrip(n, en + (ea + (ed + rest)));
    assert(b.skip(head.len() as int) =~= en + (ea + (ed + rest)));
    lemma_name_roundtrip(n.name, ea + (ed + rest));
    assert(b.skip((head.len() + en.len()) as int) =~= ea + (ed + rest));
    lemma_attributes_roundtrip(n.metadata, ed + rest);
    assert(b.skip((head.len() + en.len() + ea.len()) as int) =~= ed + rest);
    lemma_node_data_roundtrip(n.data, rest);
}

/// A well-formed node that can be encoded reads back as the same node at the position it is
/// given, whatever CID stands in front of its body and whatever follows it.
pub proof fn lemma_node_roundtrip(n: NodeView, cid: Seq<u8>, id: NodeId, rest: Seq<u8>)
    requires
        spec_node_wf(n),
        spec_node_encode_error(n) is None,
        cid.len() == 32,
    ensures
        spec_parse_node(spec_frame_node(cid, spec_node_body(n)) + rest, id) == Parsed::Done(
            spec_frame_node(cid, spec_node_body(n)).len(),
            (NodeView { id, ..n }),
        ),
{
    lemma_le_roundtrips();
    let body = spec_node_body(n);
    let s = spec_frame_node(cid, body) + rest;
    assert(s.skip(36) =~= body + rest);
    assert(s.subrange(32, 36) =~= spec_u32_to_le_bytes(body.len() as u32));
    lemma_node_body_roundtrip(n, id, rest);
}

} // verus!
