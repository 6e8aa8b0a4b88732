use vstd::prelude::*;

use crate::codec::ids::PermanentId;
use crate::codec::node_kind::NodeKind;
use crate::filesystem::drive::inner::{spec_by_perm_id, InnerDrive, InnerDriveView};
use crate::filesystem::drive::operations::{OperationError, OperationErrorView};
use crate::filesystem::file_content::spec_file_content_size;
use crate::filesystem::nodes::node::{Node, NodeView};
use crate::filesystem::nodes::node_data::child_map::ChildPair;
use crate::filesystem::nodes::node_data::{spec_node_data_kind, NodeData, NodeDataView};
use crate::filesystem::nodes::node_name::{NodeName, NodeNameView};
use crate::codec::parser::EncodingError;

verus! {

/// What a listing shows of one entry of a directory; its size is the entry's content size:
/// a file's data, or everything a directory holds below it.
#[derive(Debug)]
pub struct DirectoryEntry {
    pub permanent_id: PermanentId,
    pub created_at: i64,
    pub modified_at: i64,
    pub name: NodeName,
    pub kind: NodeKind,
    pub size: u64,
}

pub struct DirectoryEntryView {
    pub permanent_id: Seq<u8>,
    pub created_at: i64,
    pub modified_at: i64,
    pub name: NodeNameView,
    pub kind: NodeKind,
    pub size: u64,
}

impl View for DirectoryEntry {
    type V = DirectoryEntryView;

    open spec fn view(&self) -> DirectoryEntryView {
        DirectoryEntryView {
            permanent_id: self.permanent_id@,
            created_at: self.created_at,
            modified_at: self.modified_at,
            name: self.name@,
            kind: self.kind,
            size: self.size,
        }
    }
}

/// The content size of a node: for a file the size of its data, for a directory the sum of
/// the content sizes of the nodes below it, children in order. A chain of directories deeper
/// than `fuel` is reported as corruption, a missing child as its lookup error, and a sum that
/// passes 64 bits as too large.
pub open spec fn spec_content_size(d: InnerDriveView, n: NodeView, fuel: nat) -> Result<u64, OperationErrorView>
    decreases fuel, 0nat,
{
    match n.data {
        NodeDataView::File { content, .. } => Ok(spec_file_content_size(content)),
        NodeDataView::AssociatedData { content } => Ok(spec_file_content_size(content)),
        NodeDataView::Directory { children, .. } => if fuel == 0 {
            Err(OperationErrorView::InternalCorruption(n.id, "directory tree does not end"))
        } else {
            spec_children_content_size(d, children, (fuel - 1) as nat)
        },
    }
}

/// The sum of the content sizes of the children `cs`, added up in order.
pub open spec fn spec_children_content_size(d: InnerDriveView, cs: Seq<ChildPair>, fuel: nat) -> Result<u64, OperationErrorView>
    decreases fuel, cs.len() + 1,
{
    if cs.len() == 0 {
        Ok(0)
    } else {
        match spec_children_content_size(d, cs.drop_last(), fuel) {
            Err(e) => Err(e),
            Ok(a) => match spec_by_perm_id(d, cs.last().1.permanent_id) {
                Err(e) => Err(e),
                Ok(c) => match spec_content_size(d, c, fuel) {
                    Err(e) => Err(e),
                    Ok(b) => if a + b > u64::MAX {
                        Err(OperationErrorView::Encoding(EncodingError::TooLarge))
                    } else {
                        Ok((a + b) as u64)
                    },
                },
            },
        }
    }
}

/// Once the children before some position fail to add up, so do all the children.
proof fn lemma_children_content_prefix_err(d: InnerDriveView, cs: Seq<ChildPair>, k: int, fuel: nat)
    requires
        0 <= k <= cs.len(),
        spec_children_content_size(d, cs.take(k), fuel) is Err,
    ensures
        spec_children_content_size(d, cs, fuel) == spec_children_content_size(d, cs.take(k), fuel),
    decreases cs.len() - k,
{
    if k < cs.len() {
        assert(cs.drop_last().take(k) =~= cs.take(k));
        lemma_children_content_prefix_err(d, cs.drop_last(), k, fuel);
    } else {
        assert(cs.take(k) =~= cs);
    }
}

/// The listing entry of a node of drive `d`, whose size is the node's content size.
pub open spec fn spec_directory_entry(d: InnerDriveView, n: NodeView) -> Result<DirectoryEntryView, OperationErrorView> {
    match spec_content_size(d, n, d.nodes.dom().len()) {
        Err(e) => Err(e),
        Ok(size) => Ok(
            DirectoryEntryView {
                permanent_id: n.permanent_id,
                created_at: n.created_at,
                modified_at: n.modified_at,
                name: n.name,
                kind: spec_node_data_kind(n.data),
                size,
            },
        ),
    }
}

/// The listing entry of a node reports that node: its permanent ID, name, kind, creation time
/// and modification time.
pub proof fn lemma_entry_reports_node(d: InnerDriveView, n: NodeView)
    ensures
        spec_directory_entry(d, n) matches Ok(e) ==> e.permanent_id == n.permanent_id && e.name == n.name && e.created_at
            == n.created_at && e.modified_at == n.modified_at,
        spec_directory_entry(d, n) matches Ok(e) ==> (n.data is File <==> e.kind == NodeKind::File) && (n.data is Directory
            <==> e.kind == NodeKind::Directory),
{
}

/// The content size of `node` (see [`spec_content_size`]).
pub fn content_size(inner: &InnerDrive, node: &Node, fuel: usize) -> (r: Result<u64, OperationError>)
    ensures
        match spec_content_size(inner@, node@, fuel as nat) {
            Ok(v) => r == Ok::<u64, OperationError>(v),
            Err(e) => r matches Err(x) && x@ == e,
        },
    decreases fuel,
{
    match node.data() {
        NodeData::File { content, .. } => Ok(content.size()),
        NodeData::AssociatedData { content } => Ok(content.size()),
        NodeData::Directory { children, .. } => {
            if fuel == 0 {
                return Err(OperationError::InternalCorruption(node.id(), "directory tree does not end"));
            }
            let ghost m = children@;
            let ghost f = (fuel - 1) as nat;
            let mut total: u64 = 0;
            let mut i: usize = 0;
            assert(m.take(0) =~= Seq::<ChildPair>::empty());
            while i < children.entries.len()
                invariant
                    m == children@,
                    node@.data matches NodeDataView::Directory { children: cc, .. } && cc == m,
                    f == fuel - 1,
                    fuel > 0,
                    i <= m.len(),
                    m.len() == children.entries@.len(),
                    spec_children_content_size(inner@, m.take(i as int), f) == Ok::<u64, OperationErrorView>(total),
                decreases m.len() - i,
            {
                assert(m[i as int] == (children.entries@[i as int].0@, children.entries@[i as int].1@));
                assert(m.take(i + 1).drop_last() =~= m.take(i as int));
                assert(m.take(i + 1).last() == m[i as int]);
                let child = match inner.by_perm_id(&children.entries[i].1.permanent_id) {
                    Ok(c) => c,
                    Err(e) => {
                        proof {
                            assert(spec_by_perm_id(inner@, m.take(i + 1).last().1.permanent_id) == Err::<NodeView, OperationErrorView>(e@));
                            assert(spec_children_content_size(inner@, m.take(i + 1), f) == Err::<u64, OperationErrorView>(e@));
                            lemma_children_content_prefix_err(inner@, m, i + 1, f);
                        }
                        return Err(e);
                    },
                };
                assert(spec_by_perm_id(inner@, m.take(i + 1).last().1.permanent_id) == Ok::<NodeView, OperationErrorView>(child@));
                let size = match content_size(inner, child, fuel - 1) {
                    Ok(x) => x,
                    Err(e) => {
                        proof {
                            assert(spec_children_content_size(inner@, m.take(i + 1), f) == Err::<u64, OperationErrorView>(e@));
                            lemma_children_content_prefix_err(inner@, m, i + 1, f);
                        }
                        return Err(e);
                    },
                };
                total = match total.checked_add(size) {
                    Some(t) => t,
                    None => {
                        proof {
                            lemma_children_content_prefix_err(inner@, m, i + 1, f);
                        }
                        return Err(OperationError::Encoding(EncodingError::TooLarge));
                    },
                };
                i = i + 1;
            }
            assert(m.take(i as int) =~= m);
            Ok(total)
        },
    }
}

impl DirectoryEntry {
    /// The listing entry for a node of the drive.
    pub fn try_from(inner: &InnerDrive, node: &Node) -> (r: Result<DirectoryEntry, OperationError>)
        ensures
            match spec_directory_entry(inner@, node@) {
                Ok(e) => r matches Ok(x) && x@ == e,
                Err(e) => r matches Err(x) && x@ == e,
            },
    {
        let size = content_size(inner, node, inner.node_count())?;
        Ok(
            DirectoryEntry {
                permanent_id: node.permanent_id(),
                created_at: node.created_at(),
                modified_at: node.modified_at(),
                name: node.name(),
                kind: node.kind(),
                size,
            },
        )
    }

    pub fn created_at(&self) -> (r: i64)
        ensures
            r == self.created_at,
    {
        self.created_at
    }

    pub fn kind(&self) -> (r: NodeKind)
        ensures
            r == self.kind,
    {
        self.kind
    }

    pub fn modified_at(&self) -> (r: i64)
        ensures
            r == self.modified_at,
    {
        self.modified_at
    }

    pub fn name(&self) -> (r: NodeName)
        ensures
            r@ == self.name@,
    {
        self.name.clone()
    }

    pub fn permanent_id(&self) -> (r: PermanentId)
        ensures
            r == self.permanent_id,
    {
        self.permanent_id
    }

    pub fn size(&self) -> (r: u64)
        ensures
            r == self.size,
    {
        self.size
    }
}

} // verus!
