//! The content of a node: a directory's children, or a file's content and associated data.

pub mod child_map;

use vstd::prelude::*;

use crate::codec::ids::{Cid, PermanentId};
use crate::codec::node_kind::{
    lemma_node_kind_roundtrip, spec_node_kind_byte, spec_parse_node_kind, NodeKind, NODE_KIND_DIRECTORY,
    NODE_KIND_FILE,
};
use crate::codec::parser::{parse_agrees, EncodingError, ErrorKind, ParseError, Parsed};
use crate::filesystem::file_content::{
    lemma_file_content_roundtrip, spec_encode_file_content, spec_file_content_encode_error,
    spec_file_content_size, spec_file_content_wf, spec_parse_file_content, FileContent, FileContentView,
};
use crate::filesystem::nodes::node_name::{spec_name_size, NodeName, NodeNameView};
use crate::filesystem::permissions::{
    lemma_permissions_roundtrip, spec_parse_permissions, spec_permissions_byte, DirectoryPermissions,
    FilePermissions, Permissions,
};
use child_map::{
    lemma_children_roundtrip, lemma_insert_keeps_wf, lemma_remove_keeps_wf, spec_child_map_wf,
    spec_child_pids, spec_children_encode_error, spec_encode_children, spec_find_name, spec_find_pid,
    spec_insert_child, spec_parse_children, spec_remove_name, ChildMap, ChildMapEntry, ChildMapEntryView,
    ChildPair, CHILD_MAP_ENTRY_SIZE,
};

verus! {

broadcast use vstd::seq::group_seq_axioms, vstd::slice::group_slice_axioms;

/// What a node holds.
pub enum NodeData {
    File { permissions: FilePermissions, associated_data: ChildMap, content: FileContent },
    AssociatedData { content: FileContent },
    Directory { permissions: DirectoryPermissions, children: ChildMap },
}

pub enum NodeDataView {
    File { permissions: Permissions, associated_data: Seq<ChildPair>, content: FileContentView },
    AssociatedData { content: FileContentView },
    Directory { permissions: Permissions, children: Seq<ChildPair> },
}

impl View for NodeData {
    type V = NodeDataView;

    open spec fn view(&self) -> NodeDataView {
        match self {
            NodeData::File { permissions, associated_data, content } => NodeDataView::File {
                permissions: *permissions,
                associated_data: associated_data@,
                content: content@,
            },
            NodeData::AssociatedData { content } => NodeDataView::AssociatedData { content: content@ },
            NodeData::Directory { permissions, children } => NodeDataView::Directory {
                permissions: *permissions,
                children: children@,
            },
        }
    }
}

/// Why an operation on the children of a node was refused.
#[derive(Debug, Clone, Copy, PartialEq, Eq, Structural)]
pub enum NodeDataError {
    /// A child of that name is already present.
    ChildNameExists,
    /// No child of that name is present.
    ChildNameMissing,
    /// The node can not have children.
    NotAParent,
    /// No child has that permanent ID.
    ChildIdMissing,
}

/// The children of a node: those of a directory, the associated data of a file.
pub open spec fn spec_children(d: NodeDataView) -> Option<Seq<ChildPair>> {
    match d {
        NodeDataView::File { associated_data, .. } => Some(associated_data),
        NodeDataView::Directory { children, .. } => Some(children),
        NodeDataView::AssociatedData { .. } => None,
    }
}

/// The node data with its children replaced by `m`.
pub open spec fn spec_with_children(d: NodeDataView, m: Seq<ChildPair>) -> NodeDataView {
    match d {
        NodeDataView::File { permissions, content, .. } => NodeDataView::File {
            permissions,
            associated_data: m,
            content,
        },
        NodeDataView::Directory { permissions, .. } => NodeDataView::Directory { permissions, children: m },
        NodeDataView::AssociatedData { content } => NodeDataView::AssociatedData { content },
    }
}

pub open spec fn spec_node_data_kind(d: NodeDataView) -> NodeKind {
    match d {
        NodeDataView::File { .. } => NodeKind::File,
        NodeDataView::AssociatedData { .. } => NodeKind::AssociatedData,
        NodeDataView::Directory { .. } => NodeKind::Directory,
    }
}

pub open spec fn spec_default_permissions() -> Permissions {
    Permissions { creator_write_only: false, executable: false, immutable: false }
}

/// The permanent IDs of the children in ascending order; none for nodes without children.
pub open spec fn spec_ordered_child_pids(d: NodeDataView) -> Seq<Seq<u8>> {
    match spec_children(d) {
        Some(m) => spec_child_pids(m),
        None => Seq::empty(),
    }
}

/// What the children of a map add to the size of their parent: each child's encoded name, its
/// entry and its recorded size.
pub open spec fn spec_children_size(m: Seq<ChildPair>) -> int
    decreases m.len(),
{
    if m.len() == 0 {
        0
    } else {
        spec_children_size(m.drop_last()) + spec_name_size(m.last().0) + CHILD_MAP_ENTRY_SIZE + m.last().1.size
    }
}

/// The size of node data: the permissions byte, for a directory eight bytes more, for a file
/// its content size, plus the size of the children.
pub open spec fn spec_node_data_size(d: NodeDataView) -> int {
    match d {
        NodeDataView::AssociatedData { content } => spec_file_content_size(content) as int,
        NodeDataView::Directory { children, .. } => 1 + 8 + spec_children_size(children),
        NodeDataView::File { associated_data, content, .. } => 1 + spec_file_content_size(content)
            + spec_children_size(associated_data),
    }
}

pub open spec fn spec_node_data_wf(d: NodeDataView) -> bool {
    match d {
        NodeDataView::File { associated_data, content, .. } => spec_child_map_wf(associated_data)
            && spec_file_content_wf(content),
        NodeDataView::Directory { children, .. } => spec_child_map_wf(children),
        NodeDataView::AssociatedData { content } => spec_file_content_wf(content),
    }
}

/// The encoding of node data: the kind, the permissions, the children, and for a file its
/// content.
pub open spec fn spec_encode_node_data(d: NodeDataView) -> Seq<u8> {
    match d {
        NodeDataView::Directory { permissions, children } => seq![
            NODE_KIND_DIRECTORY,
            spec_permissions_byte(permissions),
        ] + spec_encode_children(children),
        NodeDataView::File { permissions, associated_data, content } => seq![
            NODE_KIND_FILE,
            spec_permissions_byte(permissions),
        ] + spec_encode_children(associated_data) + spec_encode_file_content(content),
        NodeDataView::AssociatedData { .. } => Seq::empty(),
    }
}

/// Why node data can not be encoded.
pub open spec fn spec_node_data_encode_error(d: NodeDataView) -> Option<EncodingError> {
    match d {
        NodeDataView::Directory { children, .. } => spec_children_encode_error(children),
        NodeDataView::File { associated_data, content, .. } => match spec_children_encode_error(associated_data) {
            Some(e) => Some(e),
            None => spec_file_content_encode_error(content),
        },
        NodeDataView::AssociatedData { .. } => None,
    }
}

/// Parsing node data. Standalone associated data has no encoding and is rejected.
pub open spec fn spec_parse_node_data(s: Seq<u8>) -> Parsed<NodeDataView> {
    match spec_parse_node_kind(s) {
        Parsed::Done(_, NodeKind::File) => match spec_parse_permissions(s.skip(1)) {
            Parsed::Done(_, permissions) => match spec_parse_children(s.skip(2)) {
                Parsed::Done(n, associated_data) => match spec_parse_file_content(s.skip(2 + n as int)) {
                    Parsed::Done(k, content) => Parsed::Done(
                        2 + n + k,
                        NodeDataView::File { permissions, associated_data, content },
                    ),
                    Parsed::Incomplete => Parsed::Incomplete,
                    Parsed::Invalid => Parsed::Invalid,
                },
                Parsed::Incomplete => Parsed::Incomplete,
                Parsed::Invalid => Parsed::Invalid,
            },
            Parsed::Incomplete => Parsed::Incomplete,
            Parsed::Invalid => Parsed::Invalid,
        },
        Parsed::Done(_, NodeKind::Directory) => match spec_parse_permissions(s.skip(1)) {
            Parsed::Done(_, permissions) => match spec_parse_children(s.skip(2)) {
                Parsed::Done(n, children) => Parsed::Done(2 + n, NodeDataView::Directory { permissions, children }),
                Parsed::Incomplete => Parsed::Incomplete,
                Parsed::Invalid => Parsed::Invalid,
            },
            Parsed::Incomplete => Parsed::Incomplete,
            Parsed::Invalid => Parsed::Invalid,
        },
        Parsed::Done(_, NodeKind::AssociatedData) => Parsed::Invalid,
        Parsed::Incomplete => Parsed::Incomplete,
        Parsed::Invalid => Parsed::Invalid,
    }
}

proof fn lemma_children_size_step(m: Seq<ChildPair>, i: int)
    requires
        0 <= i < m.len(),
    ensures
        spec_children_size(m.take(i + 1)) == spec_children_size(m.take(i)) + spec_name_size(m[i].0)
            + CHILD_MAP_ENTRY_SIZE + m[i].1.size,
{
    assert(m.take(i + 1).drop_last() =~= m.take(i));
}

proof fn lemma_children_size_monotone(m: Seq<ChildPair>, i: int)
    requires
        0 <= i <= m.len(),
    ensures
        spec_children_size(m.take(i)) <= spec_children_size(m),
    decreases m.len() - i,
{
    if i < m.len() {
        lemma_children_size_monotone(m, i + 1);
        lemma_children_size_step(m, i);
    } else {
        assert(m.take(i) =~= m);
    }
}

impl NodeData {
    fn children_ref(&self) -> (r: Option<&ChildMap>)
        ensures
            match spec_children(self@) {
                Some(m) => r matches Some(c) && c@ == m,
                None => r is None,
            },
    {
        match self {
            NodeData::File { associated_data, .. } => Some(associated_data),
            NodeData::Directory { children, .. } => Some(children),
            NodeData::AssociatedData { .. } => None,
        }
    }

    /// Adds a child called `name`. Fails when the node can not have children or a child of
    /// that name exists; the node is then unchanged.
    pub fn add_child(&mut self, name: NodeName, id: PermanentId, cid: Cid, size: u64) -> (r: Result<(), NodeDataError>)
        ensures
            match spec_children(old(self)@) {
                None => r == Err::<(), NodeDataError>(NodeDataError::NotAParent) && final(self)@ == old(self)@,
                Some(m) => if spec_find_name(m, name@) is Some {
                    r == Err::<(), NodeDataError>(NodeDataError::ChildNameExists) && final(self)@ == old(self)@
                } else {
                    r is Ok && final(self)@ == spec_with_children(
                        old(self)@,
                        spec_insert_child(m, name@, ChildMapEntryView { permanent_id: id@, cid: cid@, size }),
                    )
                },
            },
    {
        match self {
            NodeData::File { associated_data: children, .. } => {
                if children.find_name(&name).is_some() {
                    return Err(NodeDataError::ChildNameExists);
                }
                children.insert(name, ChildMapEntry::new(id, cid, size));
                Ok(())
            },
            NodeData::Directory { children, .. } => {
                if children.find_name(&name).is_some() {
                    return Err(NodeDataError::ChildNameExists);
                }
                children.insert(name, ChildMapEntry::new(id, cid, size));
                Ok(())
            },
            NodeData::AssociatedData { .. } => Err(NodeDataError::NotAParent),
        }
    }

    /// Records a new CID and size for the child with permanent ID `pid`. Nodes without
    /// children accept any update and stay unchanged.
    pub fn update_child(&mut self, pid: &PermanentId, cid: Cid, size: u64) -> (r: Result<(), NodeDataError>)
        ensures
            match spec_children(old(self)@) {
                None => r is Ok && final(self)@ == old(self)@,
                Some(m) => match spec_find_pid(m, pid@) {
                    Some(i) => r is Ok && final(self)@ == spec_with_children(
                        old(self)@,
                        m.update(i, (m[i].0, ChildMapEntryView { cid: cid@, size, ..m[i].1 })),
                    ),
                    None => r == Err::<(), NodeDataError>(NodeDataError::ChildIdMissing) && final(self)@ == old(self)@,
                },
            },
    {
        match self {
            NodeData::File { associated_data: children, .. } => {
                if children.update_permanent_id(pid, cid, size) {
                    Ok(())
                } else {
                    Err(NodeDataError::ChildIdMissing)
                }
            },
            NodeData::Directory { children, .. } => {
                if children.update_permanent_id(pid, cid, size) {
                    Ok(())
                } else {
                    Err(NodeDataError::ChildIdMissing)
                }
            },
            NodeData::AssociatedData { .. } => Ok(()),
        }
    }

    /// Removes the child called `name` and returns its permanent ID.
    pub fn remove_child(&mut self, name: &NodeName) -> (r: Result<PermanentId, NodeDataError>)
        ensures
            match spec_children(old(self)@) {
                None => r == Err::<PermanentId, NodeDataError>(NodeDataError::NotAParent) && final(self)@ == old(self)@,
                Some(m) => match spec_find_name(m, name@) {
                    Some(i) => r matches Ok(p) && p@ == m[i].1.permanent_id && final(self)@ == spec_with_children(
                        old(self)@,
                        m.remove(i),
                    ),
                    None => r == Err::<PermanentId, NodeDataError>(NodeDataError::ChildNameMissing) && final(self)@
                        == old(self)@,
                },
            },
    {
        match self {
            NodeData::File { associated_data: children, .. } => {
                match children.remove(name) {
                    Some(entry) => Ok(entry.permanent_id),
                    None => Err(NodeDataError::ChildNameMissing),
                }
            },
            NodeData::Directory { children, .. } => {
                match children.remove(name) {
                    Some(entry) => Ok(entry.permanent_id),
                    None => Err(NodeDataError::ChildNameMissing),
                }
            },
            NodeData::AssociatedData { .. } => Err(NodeDataError::NotAParent),
        }
    }

    /// Removes every child whose permanent ID is `pid`; finding none is not an error.
    pub fn remove_permanent_id(&mut self, pid: &PermanentId) -> (r: Result<(), NodeDataError>)
        ensures
            match spec_children(old(self)@) {
                None => r == Err::<(), NodeDataError>(NodeDataError::NotAParent) && final(self)@ == old(self)@,
                Some(m) => r is Ok && final(self)@ == spec_with_children(
                    old(self)@,
                    m.filter(|p: ChildPair| p.1.permanent_id != pid@),
                ),
            },
    {
        match self {
            NodeData::File { associated_data: children, .. } => {
                children.retain_other_permanent_ids(pid);
                Ok(())
            },
            NodeData::Directory { children, .. } => {
                children.retain_other_permanent_ids(pid);
                Ok(())
            },
            NodeData::AssociatedData { .. } => Err(NodeDataError::NotAParent),
        }
    }

    pub fn kind(&self) -> (r: NodeKind)
        ensures
            r == spec_node_data_kind(self@),
    {
        match self {
            NodeData::File { .. } => NodeKind::File,
            NodeData::AssociatedData { .. } => NodeKind::AssociatedData,
            NodeData::Directory { .. } => NodeKind::Directory,
        }
    }

    pub fn new_directory() -> (r: NodeData)
        ensures
            r@ == (NodeDataView::Directory { permissions: spec_default_permissions(), children: Seq::empty() }),
    {
        NodeData::Directory { permissions: Permissions::default(), children: ChildMap::new() }
    }

    pub fn empty_file() -> (r: NodeData)
        ensures
            r@ == (NodeDataView::File {
                permissions: spec_default_permissions(),
                associated_data: Seq::empty(),
                content: FileContentView::EmptyFile,
            }),
    {
        NodeData::File { permissions: Permissions::default(), associated_data: ChildMap::new(), content: FileContent::EmptyFile }
    }

    pub fn full_file(content: FileContent) -> (r: NodeData)
        ensures
            r@ == (NodeDataView::File {
                permissions: spec_default_permissions(),
                associated_data: Seq::empty(),
                content: content@,
            }),
    {
        NodeData::File { permissions: Permissions::default(), associated_data: ChildMap::new(), content }
    }

    pub fn stub_file(data_size: u64) -> (r: NodeData)
        ensures
            r@ == (NodeDataView::File {
                permissions: spec_default_permissions(),
                associated_data: Seq::empty(),
                content: FileContentView::Stub { data_size },
            }),
    {
        NodeData::File {
            permissions: Permissions::default(),
            associated_data: ChildMap::new(),
            content: FileContent::Stub { data_size },
        }
    }

    /// The children of the node, if it can have any.
    pub fn children(&self) -> (r: Option<&ChildMap>)
        ensures
            match spec_children(self@) {
                Some(m) => r matches Some(c) && c@ == m,
                None => r is None,
            },
    {
        self.children_ref()
    }

    /// The permanent IDs of the children in ascending order.
    pub fn ordered_child_pids(&self) -> (r: Vec<PermanentId>)
        ensures
            r@.map_values(|p: PermanentId| p@) == spec_ordered_child_pids(self@),
    {
        match self.children_ref() {
            Some(children) => children.ordered_pids(),
            None => {
                let v: Vec<PermanentId> = Vec::new();
                assert(v@.map_values(|p: PermanentId| p@) =~= Seq::<Seq<u8>>::empty());
                v
            },
        }
    }

    /// The CIDs of the data blocks of a file's content.
    pub fn data_cids(&self) -> (r: Option<Vec<Cid>>)
        ensures
            match self@ {
                NodeDataView::File { content, .. } | NodeDataView::AssociatedData { content } => match content {
                    FileContentView::Encrypted { content, .. } | FileContentView::Public { content, .. } => r matches Some(v)
                        && v@.len() == content.len() && forall|i: int| 0 <= i < content.len() ==> #[trigger] v@[i]@
                        == content[i].cid,
                    _ => r is None,
                },
                NodeDataView::Directory { .. } => r is None,
            },
    {
        match self {
            NodeData::File { content, .. } => content.data_cids(),
            NodeData::AssociatedData { content } => content.data_cids(),
            NodeData::Directory { .. } => None,
        }
    }

    /// What the children add to the size of the node.
    pub fn children_size(&self) -> (r: u64)
        requires
            match spec_children(self@) {
                Some(m) => spec_children_size(m) <= u64::MAX,
                None => true,
            },
        ensures
            r == match spec_children(self@) {
                Some(m) => spec_children_size(m),
                None => 0,
            },
    {
        let children = match self.children_ref() {
            None => return 0,
            Some(children) => children,
        };
        let ghost m = children@;
        let mut total: u64 = 0;
        let mut i: usize = 0;
        assert(m.take(0) =~= Seq::<ChildPair>::empty());
        while i < children.entries.len()
            invariant
                m == children@,
                i <= m.len(),
                m.len() == children.entries@.len(),
                spec_children_size(m) <= u64::MAX,
                total == spec_children_size(m.take(i as int)),
            decreases m.len() - i,
        {
            proof {
                lemma_children_size_step(m, i as int);
                lemma_children_size_monotone(m, i + 1);
            }
            assert(m[i as int] == (children.entries@[i as int].0@, children.entries@[i as int].1@));
            let name_size: u64 = match &children.entries[i].0 {
                NodeName::Root => 1,
                NodeName::Named(n) => 2 + crate::codec::text::str_byte_len(n.as_str()) as u64,
            };
            total = total + name_size + CHILD_MAP_ENTRY_SIZE as u64 + children.entries[i].1.size;
            i = i + 1;
        }
        assert(m.take(i as int) =~= m);
        total
    }

    /// The size of the node's own data and its children's recorded sizes.
    pub fn size(&self) -> (r: u64)
        requires
            spec_node_data_size(self@) <= u64::MAX,
        ensures
            r == spec_node_data_size(self@),
    {
        match self {
            NodeData::AssociatedData { content } => content.size(),
            NodeData::Directory { .. } => {
                let base_size = Permissions::size() + 8;
                base_size as u64 + self.children_size()
            },
            NodeData::File { content, associated_data, .. } => {
                proof {
                    lemma_children_size_monotone(associated_data@, 0);
                    assert(associated_data@.take(0) =~= Seq::<ChildPair>::empty());
                }
                let base_size = Permissions::size();
                base_size as u64 + content.size() + self.children_size()
            },
        }
    }

    /// The size of the node data, or `None` when it does not fit 64 bits.
    pub fn checked_size(&self) -> (r: Option<u64>)
        ensures
            spec_node_data_size(self@) <= u64::MAX ==> r == Some(spec_node_data_size(self@) as u64),
            spec_node_data_size(self@) > u64::MAX ==> r is None,
            spec_node_data_size(self@) >= 0,
    {
        let (base, children): (u64, Option<&ChildMap>) = match self {
            NodeData::AssociatedData { content } => (content.size(), None),
            NodeData::Directory { children, .. } => (9, Some(children)),
            NodeData::File { content, associated_data, .. } => {
                if content.size() > u64::MAX - 1 {
                    proof {
                        lemma_children_size_monotone(associated_data@, 0);
                        assert(associated_data@.take(0) =~= Seq::<ChildPair>::empty());
                    }
                    return None;
                }
                (1 + content.size(), Some(associated_data))
            },
        };
        let children = match children {
            None => return Some(base),
            Some(c) => c,
        };
        let ghost m = children@;
        proof {
            lemma_children_size_monotone(m, 0);
            assert(m.take(0) =~= Seq::<ChildPair>::empty());
        }
        let mut total: u64 = base;
        let mut i: usize = 0;
        while i < children.entries.len()
            invariant
                m == children@,
                i <= m.len(),
                m.len() == children.entries@.len(),
                total == base + spec_children_size(m.take(i as int)),
                spec_node_data_size(self@) == base + spec_children_size(m),
            decreases m.len() - i,
        {
            proof {
                lemma_children_size_step(m, i as int);
                lemma_children_size_monotone(m, i + 1);
            }
            assert(m[i as int] == (children.entries@[i as int].0@, children.entries@[i as int].1@));
            let name_size: u128 = match &children.entries[i].0 {
                NodeName::Root => 1,
                NodeName::Named(n) => 2 + crate::codec::text::str_byte_len(n.as_str()) as u128,
            };
            let step = name_size + CHILD_MAP_ENTRY_SIZE as u128 + children.entries[i].1.size as u128;
            if total as u128 + step > u64::MAX as u128 {
                return None;
            }
            total = (total as u128 + step) as u64;
            i = i + 1;
        }
        assert(m.take(i as int) =~= m);
        Some(total)
    }

    /// Appends the encoding of the node data. Standalone associated data has no encoding.
    pub fn encode(&self, out: &mut Vec<u8>) -> (r: Result<usize, EncodingError>)
        requires
            !(self@ is AssociatedData),
        ensures
            match spec_node_data_encode_error(self@) {
                Some(e) => r == Err::<usize, EncodingError>(e),
                None => r == Ok::<usize, EncodingError>(spec_encode_node_data(self@).len() as usize)
                    && final(out)@ == old(out)@ + spec_encode_node_data(self@),
            },
    {
        let ghost start = out@;
        let start_len = out.len();
        match self {
            NodeData::Directory { permissions, children } => {
                self.kind().encode(out);
                permissions.encode(out);
                children.encode(out)?;
                assert(out@ =~= start + spec_encode_node_data(self@));
            },
            NodeData::File { permissions, associated_data, content } => {
                self.kind().encode(out);
                permissions.encode(out);
                associated_data.encode(out)?;
                content.encode(out)?;
                assert(out@ =~= start + spec_encode_node_data(self@));
            },
            NodeData::AssociatedData { .. } => {},
        }
        Ok(out.len() - start_len)
    }

    /// Parses node data from the front of `input`.
    pub fn parse(input: &[u8]) -> (res: Result<(&[u8], NodeData), ParseError>)
        ensures
            parse_agrees(input@, res, spec_parse_node_data(input@), |d: NodeData| d@),
    {
        let (rest1, kind) = NodeKind::parse(input)?;
        assert(rest1@ =~= input@.skip(1));
        match kind {
            NodeKind::File => {
                let (rest2, permissions) = Permissions::parse(rest1)?;
                assert(rest2@ =~= input@.skip(2));
                let (rest3, associated_data) = ChildMap::parse(rest2)?;
                let ghost n = (rest2@.len() - rest3@.len()) as int;
                assert(rest3@ =~= input@.skip(2 + n));
                let (rest4, content) = FileContent::parse(rest3)?;
                let ghost k = (rest3@.len() - rest4@.len()) as int;
                assert(rest4@ =~= input@.skip(2 + n + k));
                Ok((rest4, NodeData::File { permissions, associated_data, content }))
            },
            NodeKind::Directory => {
                let (rest2, permissions) = Permissions::parse(rest1)?;
                assert(rest2@ =~= input@.skip(2));
                let (rest3, children) = ChildMap::parse(rest2)?;
                let ghost n = (rest2@.len() - rest3@.len()) as int;
                assert(rest3@ =~= input@.skip(2 + n));
                Ok((rest3, NodeData::Directory { permissions, children }))
            },
            NodeKind::AssociatedData => Err(ParseError::Invalid(ErrorKind::Tag)),
        }
    }
}

proof fn lemma_directory_roundtrip(permissions: Permissions, children: Seq<ChildPair>, rest: Seq<u8>)
    requires
        spec_child_map_wf(children),
        spec_children_encode_error(children) is None,
    ensures
        ({
            let d = NodeDataView::Directory { permissions, children };
            spec_parse_node_data(spec_encode_node_data(d) + rest) == Parsed::Done(spec_encode_node_data(d).len(), d)
        }),
{
    let d = NodeDataView::Directory { permissions, children };
    let s = spec_encode_node_data(d) + rest;
    let ec = spec_encode_children(children);
    lemma_node_kind_roundtrip(NodeKind::Directory, s.skip(1));
    assert(s =~= seq![NODE_KIND_DIRECTORY] + s.skip(1));
    lemma_permissions_roundtrip(permissions, s.skip(2));
    assert(s.skip(1) =~= seq![spec_permissions_byte(permissions)] + s.skip(2));
    assert(s.skip(2) =~= ec + rest);
    lemma_children_roundtrip(children, rest);
}

#[verifier::spinoff_prover]
#[verifier::rlimit(40)]
proof fn lemma_file_roundtrip(
    permissions: Permissions,
    associated_data: Seq<ChildPair>,
    content: FileContentView,
    rest: Seq<u8>,
)
    requires
        spec_child_map_wf(associated_data),
        spec_children_encode_error(associated_data) is None,
        spec_file_content_wf(content),
    ensures
        ({
            let d = NodeDataView::File { permissions, associated_data, content };
            spec_parse_node_data(spec_encode_node_data(d) + rest) == Parsed::Done(spec_encode_node_data(d).len(), d)
        }),
{
    let d = NodeDataView::File { permissions, associated_data, content };
    let s = spec_encode_node_data(d) + rest;
    let ec = spec_encode_children(associated_data);
    let efc = spec_encode_file_content(content);
    lemma_node_kind_roundtrip(NodeKind::File, s.skip(1));
    assert(s =~= seq![NODE_KIND_FILE] + s.skip(1));
    lemma_permissions_roundtrip(permissions, s.skip(2));
    assert(s.skip(1) =~= seq![spec_permissions_byte(permissions)] + s.skip(2));
    assert(s.skip(2) =~= ec + (efc + rest));
    lemma_children_roundtrip(associated_data, efc + rest);
    assert(s.skip(2 + ec.len() as int) =~= efc + rest);
    lemma_file_content_roundtrip(content, rest);
}

/// Encoded node data reads back unchanged, whatever follows it.
pub proof fn lemma_node_data_roundtrip(d: NodeDataView, rest: Seq<u8>)
    requires
        spec_node_data_wf(d),
        spec_node_data_encode_error(d) is None,
        !(d is AssociatedData),
    ensures
        spec_parse_node_data(spec_encode_node_data(d) + rest) == Parsed::Done(spec_encode_node_data(d).len(), d),
{
    match d {
        NodeDataView::Directory { permissions, children } => {
            lemma_directory_roundtrip(permissions, children, rest);
        },
        NodeDataView::File { permissions, associated_data, content } => {
            lemma_file_roundtrip(permissions, associated_data, content, rest);
        },
        NodeDataView::AssociatedData { .. } => {},
    }
}

} // verus!
