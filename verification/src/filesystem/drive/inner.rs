use rand_chacha::ChaCha20Rng;
use slab::Slab;
use std::collections::HashMap;
use vstd::bytes::*;
use vstd::prelude::*;

use crate::codec::ids::{ActorId, Cid, PermanentId};
use crate::codec::node_kind::NodeKind;
use crate::filesystem::drive::access::{spec_actors_unique, DriveAccess, DriveAccessView};
use crate::filesystem::drive::operations::{OperationError, OperationErrorView};
use crate::codec::parser::EncodingError;
use crate::filesystem::nodes::node::{spec_node_body, spec_node_encode_error, spec_node_size, Node, NodeId, NodeView};
use crate::filesystem::nodes::node_builder::{build_agrees, spec_build, NodeBuilder};
use crate::filesystem::nodes::node_data::child_map::{spec_find_name, spec_insert_child, ChildMapEntryView, ChildPair};
use crate::filesystem::nodes::node_data::{
    spec_children, spec_default_permissions, spec_ordered_child_pids, spec_with_children, NodeData, NodeDataError, NodeDataView,
};
use crate::filesystem::nodes::node_name::{NodeName, NodeNameView};
use crate::filesystem::file_content::{FileContent, FileContentView};
use crate::filesystem::content_reference::ContentReferenceView;
use crate::utils::{blake3_hash, current_time_ms};

verus! {

broadcast use vstd::seq::group_seq_axioms, vstd::map::group_map_axioms, vstd::std_specs::hash::group_hash_axioms,
    vstd::array::group_array_axioms;

#[verifier::external_type_specification]
#[verifier::external_body]
#[verifier::reject_recursive_types(T)]
pub struct ExSlab<T>(Slab<T>);

/// The table that holds the nodes of a drive.
pub type NodeSlab = Slab<Node>;

/// The nodes a slab holds, by key.
pub uninterp spec fn slab_nodes(s: Slab<Node>) -> Map<usize, NodeView>;

/// A table without nodes.
pub open spec fn spec_no_nodes() -> Map<usize, NodeView> {
    Map::empty()
}

/// The key the slab hands out on its next insertion.
pub uninterp spec fn slab_next_key(s: Slab<Node>) -> usize;

/// `Slab::with_capacity`: an empty slab.
#[verifier::external_body]
fn slab_with_capacity(capacity: usize) -> (r: NodeSlab)
    ensures
        slab_nodes(r) == spec_no_nodes(),
{
    Slab::with_capacity(capacity)
}

/// `Slab::new`: an empty slab.
#[verifier::external_body]
pub(crate) fn slab_new() -> (r: NodeSlab)
    ensures
        slab_nodes(r) == spec_no_nodes(),
{
    Slab::new()
}

/// `Slab::len`: the number of stored nodes.
#[verifier::external_body]
fn slab_len(s: &Slab<Node>) -> (r: usize)
    ensures
        r == slab_nodes(*s).dom().len(),
{
    s.len()
}

/// `Slab::capacity`: how many nodes fit without reallocating. It is the capacity of the
/// slab's entry vector, which holds every stored node, so it is at least the number of nodes;
/// beyond that it depends on the allocator and is not stated.
#[verifier::external_body]
fn slab_capacity(s: &Slab<Node>) -> (r: usize)
    ensures
        r >= slab_nodes(*s).dom().len(),
{
    s.capacity()
}

/// `Slab::get`: the node stored under `key`, if any.
#[verifier::external_body]
fn slab_get(s: &Slab<Node>, key: usize) -> (r: Option<&Node>)
    ensures
        match r {
            Some(n) => slab_nodes(*s).dom().contains(key) && n@ == slab_nodes(*s)[key],
            None => !slab_nodes(*s).dom().contains(key),
        },
{
    s.get(key)
}

/// `Slab`'s `IndexMut`: the node stored under `key`, to modify in place. The slab's other
/// nodes and its next key stay as they were.
#[verifier::external_body]
fn slab_get_mut(s: &mut Slab<Node>, key: usize) -> (r: &mut Node)
    requires
        slab_nodes(*old(s)).dom().contains(key),
    ensures
        r@ == slab_nodes(*old(s))[key],
        slab_nodes(*final(s)) == slab_nodes(*old(s)).insert(key, final(r)@),
        slab_next_key(*final(s)) == slab_next_key(*old(s)),
{
    &mut s[key]
}

/// `Slab::vacant_key`: the key of the next insertion, which holds no node.
#[verifier::external_body]
pub(crate) fn slab_vacant_key(s: &Slab<Node>) -> (r: usize)
    ensures
        r == slab_next_key(*s),
        !slab_nodes(*s).dom().contains(r),
{
    s.vacant_key()
}

/// `Slab::insert`: stores the node under the next key and returns that key.
#[verifier::external_body]
pub(crate) fn slab_insert(s: &mut Slab<Node>, node: Node) -> (r: usize)
    ensures
        r == slab_next_key(*old(s)),
        !slab_nodes(*old(s)).dom().contains(r),
        slab_nodes(*final(s)) == slab_nodes(*old(s)).insert(r, node@),
{
    s.insert(node)
}

/// `Slab::try_remove`: takes out the node stored under `key`, if any.
#[verifier::external_body]
fn slab_try_remove(s: &mut Slab<Node>, key: usize) -> (r: Option<Node>)
    ensures
        match r {
            Some(n) => slab_nodes(*old(s)).dom().contains(key) && n@ == slab_nodes(*old(s))[key] && slab_nodes(
                *final(s),
            ) == slab_nodes(*old(s)).remove(key),
            None => !slab_nodes(*old(s)).dom().contains(key) && slab_nodes(*final(s)) == slab_nodes(*old(s)),
        },
{
    s.try_remove(key)
}

/// The key under which a permanent ID is indexed: its sixteen bytes as a little-endian number.
pub open spec fn spec_pid_key(pid: Seq<u8>) -> u128 {
    spec_u128_from_le_bytes(pid)
}

pub fn pid_key(pid: &PermanentId) -> (r: u128)
    ensures
        r == spec_pid_key(pid@),
{
    u128_from_le_bytes(pid.0.as_slice())
}

/// Distinct permanent IDs have distinct keys.
pub proof fn lemma_pid_key_injective(a: Seq<u8>, b: Seq<u8>)
    requires
        a.len() == 16,
        b.len() == 16,
        spec_pid_key(a) == spec_pid_key(b),
    ensures
        a == b,
{
    lemma_auto_spec_u128_to_from_le_bytes();
    assert(spec_u128_to_le_bytes(spec_u128_from_le_bytes(a)) == a);
    assert(spec_u128_to_le_bytes(spec_u128_from_le_bytes(b)) == b);
}

/// The node tree of a drive: nodes by table position, an index from permanent IDs to positions,
/// the root's permanent ID, the nodes changed since the last clean-up, and who may access it.
pub struct InnerDrive {
    pub access: DriveAccess,
    pub root_pid: PermanentId,
    pub nodes: Slab<Node>,
    pub permanent_id_map: HashMap<u128, NodeId>,
    pub dirty_nodes: Vec<NodeId>,
}

pub struct InnerDriveView {
    pub access: DriveAccessView,
    pub root_pid: Seq<u8>,
    pub nodes: Map<NodeId, NodeView>,
    pub pids: Map<u128, NodeId>,
    pub dirty: Seq<NodeId>,
    pub next_key: NodeId,
}

impl View for InnerDrive {
    type V = InnerDriveView;

    open spec fn view(&self) -> InnerDriveView {
        InnerDriveView {
            access: self.access@,
            root_pid: self.root_pid@,
            nodes: slab_nodes(self.nodes),
            pids: self.permanent_id_map@,
            dirty: self.dirty_nodes@,
            next_key: slab_next_key(self.nodes),
        }
    }
}

/// The node table and the permanent ID index agree: every node sits at its own position and is
/// indexed under its permanent ID, and every index entry leads to the node with that ID.
pub open spec fn spec_inner_wf(d: InnerDriveView) -> bool {
    &&& d.root_pid.len() == 16
    &&& d.nodes.dom().finite()
    &&& spec_actors_unique(d.access.actors)
    &&& forall|id: NodeId| #[trigger] d.nodes.contains_key(id) ==> {
        &&& d.nodes[id].id == id
        &&& d.nodes[id].permanent_id.len() == 16
        &&& !(d.nodes[id].data is AssociatedData)
        &&& d.pids.contains_key(spec_pid_key(d.nodes[id].permanent_id))
        &&& d.pids[spec_pid_key(d.nodes[id].permanent_id)] == id
    }
    &&& forall|k: u128| #[trigger] d.pids.contains_key(k) ==> d.nodes.contains_key(d.pids[k]) && spec_pid_key(
        d.nodes[d.pids[k]].permanent_id,
    ) == k
}

/// The table position of the node with permanent ID `pid`.
pub open spec fn spec_lookup(d: InnerDriveView, pid: Seq<u8>) -> Option<NodeId> {
    if d.pids.contains_key(spec_pid_key(pid)) {
        Some(d.pids[spec_pid_key(pid)])
    } else {
        None
    }
}

pub open spec fn spec_lookup_result(d: InnerDriveView, pid: Seq<u8>) -> Result<NodeId, OperationErrorView> {
    match spec_lookup(d, pid) {
        Some(id) => Ok(id),
        None => Err(OperationErrorView::MissingPermanentId(pid)),
    }
}

pub open spec fn spec_by_id(d: InnerDriveView, id: NodeId) -> Result<NodeView, OperationErrorView> {
    if d.nodes.contains_key(id) {
        Ok(d.nodes[id])
    } else {
        Err(OperationErrorView::InternalCorruption(id, "missing expected node ID"))
    }
}

pub open spec fn spec_by_perm_id(d: InnerDriveView, pid: Seq<u8>) -> Result<NodeView, OperationErrorView> {
    match spec_lookup_result(d, pid) {
        Ok(id) => spec_by_id(d, id),
        Err(e) => Err(e),
    }
}

/// In a well-formed drive the node found for a permanent ID carries that ID.
pub proof fn lemma_lookup_finds_pid(d: InnerDriveView, pid: Seq<u8>)
    requires
        spec_inner_wf(d),
        pid.len() == 16,
        spec_lookup(d, pid) is Some,
    ensures
        d.nodes.contains_key(spec_lookup(d, pid).unwrap()),
        d.nodes[spec_lookup(d, pid).unwrap()].permanent_id == pid,
{
    let id = spec_lookup(d, pid).unwrap();
    assert(d.pids.contains_key(spec_pid_key(pid)));
    lemma_pid_key_injective(d.nodes[id].permanent_id, pid);
}

/// Two child maps have the same names and permanent IDs in the same order; the recorded CIDs
/// and sizes may differ.
pub open spec fn spec_children_same_structure(a: Seq<ChildPair>, b: Seq<ChildPair>) -> bool {
    &&& a.len() == b.len()
    &&& forall|i: int| #![trigger a[i]] #![trigger b[i]] 0 <= i < a.len() ==> a[i].0 == b[i].0 && a[i].1.permanent_id == b[i].1.permanent_id
}

pub open spec fn spec_data_same_structure(a: NodeDataView, b: NodeDataView) -> bool {
    match a {
        NodeDataView::File { permissions, associated_data, content } => b matches NodeDataView::File {
            permissions: p2,
            associated_data: ad2,
            content: c2,
        } && permissions == p2 && content == c2 && spec_children_same_structure(associated_data, ad2),
        NodeDataView::Directory { permissions, children } => b matches NodeDataView::Directory {
            permissions: p2,
            children: ch2,
        } && permissions == p2 && spec_children_same_structure(children, ch2),
        NodeDataView::AssociatedData { content } => b == NodeDataView::AssociatedData { content },
    }
}

/// Two nodes agree on everything but their modification time and the CIDs and sizes recorded
/// for their children.
pub open spec fn spec_node_same_structure(a: NodeView, b: NodeView) -> bool {
    &&& b == (NodeView { modified_at: b.modified_at, data: b.data, ..a })
    &&& spec_data_same_structure(a.data, b.data)
}

/// Two drives hold the same tree: the same access, root, index and nodes, up to modification
/// times and recorded child CIDs and sizes.
pub open spec fn spec_same_structure(a: InnerDriveView, b: InnerDriveView) -> bool {
    &&& a.access == b.access
    &&& a.root_pid == b.root_pid
    &&& a.pids == b.pids
    &&& a.nodes.dom() == b.nodes.dom()
    &&& forall|id: NodeId| #[trigger] a.nodes.contains_key(id) ==> spec_node_same_structure(a.nodes[id], b.nodes[id])
}

/// The nodes of `b` are those of `a`, with at most their modification times changed.
pub open spec fn spec_times_only(a: Map<NodeId, NodeView>, b: Map<NodeId, NodeView>) -> bool {
    &&& a.dom() == b.dom()
    &&& forall|id: NodeId| #[trigger] a.contains_key(id) ==> b[id] == (NodeView { modified_at: b[id].modified_at, ..a[id] })
}

/// The positions of the ancestors of node `id`, nearest first, as long as each parent can be
/// found; the walk gives up after `fuel` steps.
pub open spec fn spec_ancestors(d: InnerDriveView, id: NodeId, fuel: nat) -> Result<Seq<NodeId>, OperationErrorView>
    decreases fuel,
{
    if !d.nodes.contains_key(id) {
        Err(OperationErrorView::InternalCorruption(id, "missing expected node ID"))
    } else {
        match d.nodes[id].parent_id {
            None => Ok(Seq::empty()),
            Some(p) => match spec_lookup(d, p) {
                None => Err(OperationErrorView::MissingPermanentId(p)),
                Some(parent) => if fuel == 0 {
                    Err(OperationErrorView::InternalCorruption(id, "parent chain does not end"))
                } else {
                    match spec_ancestors(d, parent, (fuel - 1) as nat) {
                        Ok(s) => Ok(seq![parent] + s),
                        Err(e) => Err(e),
                    }
                },
            },
        }
    }
}

proof fn lemma_same_structure_refl(d: InnerDriveView)
    ensures
        spec_same_structure(d, d),
{
    assert forall|id: NodeId| #[trigger] d.nodes.contains_key(id) implies spec_node_same_structure(d.nodes[id], d.nodes[id]) by {
        match d.nodes[id].data {
            NodeDataView::File { .. } => {},
            NodeDataView::Directory { .. } => {},
            NodeDataView::AssociatedData { .. } => {},
        }
    }
}

proof fn lemma_same_structure_trans(a: InnerDriveView, b: InnerDriveView, c: InnerDriveView)
    requires
        spec_same_structure(a, b),
        spec_same_structure(b, c),
    ensures
        spec_same_structure(a, c),
{
    assert forall|id: NodeId| #[trigger] a.nodes.contains_key(id) implies spec_node_same_structure(a.nodes[id], c.nodes[id]) by {
        assert(spec_node_same_structure(a.nodes[id], b.nodes[id]));
        assert(b.nodes.contains_key(id));
        assert(spec_node_same_structure(b.nodes[id], c.nodes[id]));
        match a.nodes[id].data {
            NodeDataView::File { associated_data, .. } => {
                let bd = b.nodes[id].data;
                let cd = c.nodes[id].data;
                assert(bd is File && cd is File);
            },
            NodeDataView::Directory { .. } => {},
            NodeDataView::AssociatedData { .. } => {},
        }
    }
}

/// Drives with the same structure are well-formed alike and have the same ancestors.
proof fn lemma_same_structure_keeps(a: InnerDriveView, b: InnerDriveView, id: NodeId, fuel: nat)
    requires
        spec_same_structure(a, b),
    ensures
        spec_inner_wf(a) ==> spec_inner_wf(b),
        spec_ancestors(a, id, fuel) == spec_ancestors(b, id, fuel),
    decreases fuel,
{
    if spec_inner_wf(a) {
        assert forall|i: NodeId| #[trigger] b.nodes.contains_key(i) implies b.nodes[i].id == i && b.nodes[i].permanent_id.len()
            == 16 && !(b.nodes[i].data is AssociatedData) && b.pids.contains_key(spec_pid_key(b.nodes[i].permanent_id))
            && b.pids[spec_pid_key(b.nodes[i].permanent_id)] == i by {
            assert(a.nodes.contains_key(i));
            assert(spec_node_same_structure(a.nodes[i], b.nodes[i]));
        }
        assert forall|k: u128| #[trigger] b.pids.contains_key(k) implies b.nodes.contains_key(b.pids[k]) && spec_pid_key(
            b.nodes[b.pids[k]].permanent_id,
        ) == k by {
            assert(a.nodes.contains_key(a.pids[k]));
        }
    }
    if a.nodes.contains_key(id) {
        assert(b.nodes.contains_key(id));
        match a.nodes[id].parent_id {
            Some(p) => match spec_lookup(a, p) {
                Some(parent) => if fuel > 0 {
                    lemma_same_structure_keeps(a, b, parent, (fuel - 1) as nat);
                },
                None => {},
            },
            None => {},
        }
    }
}

/// What creating a node below the node with permanent ID `parent_pid` yields: the drive with
/// the new node stored at the next free position, indexed, and listed in its parent with its
/// CID and size, together with the new node's position; or the first reason it fails.
pub open spec fn spec_create(
    d: InnerDriveView,
    owner: ActorId,
    parent_pid: Seq<u8>,
    parent_id_exec: PermanentId,
    b: NodeBuilder,
    pid: Seq<u8>,
    now: i64,
) -> Result<(InnerDriveView, NodeId), OperationErrorView> {
    match spec_by_perm_id(d, parent_pid) {
        Err(e) => Err(e),
        Ok(parent) => if !(parent.data is Directory || parent.data is File) {
            Err(OperationErrorView::ParentMustBeDirectory)
        } else {
            let k = d.next_key;
            let parent_id = spec_lookup(d, parent_pid).unwrap();
            let b2 = NodeBuilder { parent_id: Some(parent_id_exec), id: Some(k), owner_id: Some(owner), ..b };
            match spec_build(b2, pid, now) {
                Err(e) => Err(OperationErrorView::CreationFailed(e)),
                Ok(n) => {
                    let m = spec_children(parent.data).unwrap();
                    if spec_find_name(m, n.name) is Some {
                        Err(OperationErrorView::NodeFailure(NodeDataError::ChildNameExists))
                    } else if spec_node_encode_error(n) is Some {
                        Err(OperationErrorView::Encoding(spec_node_encode_error(n).unwrap()))
                    } else if spec_node_size(n) > u64::MAX {
                        Err(OperationErrorView::Encoding(EncodingError::TooLarge))
                    } else {
                        let entry = ChildMapEntryView {
                            permanent_id: pid,
                            cid: blake3_hash(spec_node_body(n)),
                            size: spec_node_size(n) as u64,
                        };
                        let new_parent = NodeView {
                            data: spec_with_children(parent.data, spec_insert_child(m, n.name, entry)),
                            ..parent
                        };
                        Ok(
                            (
                                InnerDriveView {
                                    nodes: d.nodes.insert(k, n).insert(parent_id, new_parent),
                                    pids: d.pids.insert(spec_pid_key(pid), k),
                                    ..d
                                },
                                k,
                            ),
                        )
                    }
                },
            }
        },
    }
}

/// How a drive `new` and a result `r` follow from creating a node in `old` (see
/// [`spec_create`]): a refusal changes nothing; otherwise the drive holds the created tree (up
/// to modification times and recorded child CIDs and sizes) with the new node at a position
/// that was free, and the parent and its ancestors
/// are appended to the dirty list; a broken chain of ancestors is reported.
pub open spec fn spec_create_outcome(
    old: InnerDriveView,
    new: InnerDriveView,
    r: Result<PermanentId, OperationError>,
    owner: ActorId,
    parent: PermanentId,
    b: NodeBuilder,
    pid: Seq<u8>,
    now: i64,
) -> bool {
    match spec_create(old, owner, parent@, parent, b, pid, now) {
        Err(e) => r matches Err(x) && x@ == e && new == old,
        Ok((created, k)) => {
            &&& !old.nodes.contains_key(k)
            &&& spec_inner_wf(new)
            &&& spec_same_structure(created, new)
            &&& r matches Ok(p) ==> p@ == pid
            &&& match spec_ancestors(created, spec_lookup(old, parent@).unwrap(), created.nodes.dom().len()) {
                Ok(chain) => r is Ok && new.dirty == old.dirty.push(spec_lookup(old, parent@).unwrap()) + chain,
                Err(e) => r matches Err(x) && x@ == e,
            }
        },
    }
}

/// The CID and size a parent records for node `n`: the hash of its encoded body and the
/// length of its encoding.
pub open spec fn spec_node_entry(n: NodeView) -> Result<(Seq<u8>, u64), OperationErrorView> {
    match spec_node_encode_error(n) {
        Some(e) => Err(OperationErrorView::Encoding(e)),
        None => if spec_node_size(n) <= u64::MAX {
            Ok((blake3_hash(spec_node_body(n)), spec_node_size(n) as u64))
        } else {
            Err(OperationErrorView::Encoding(EncodingError::TooLarge))
        },
    }
}

/// The drive with node `n` stored at position `id`.
pub open spec fn spec_with_node(d: InnerDriveView, id: NodeId, n: NodeView) -> InnerDriveView {
    InnerDriveView { nodes: d.nodes.insert(id, n), ..d }
}

/// The drive with the children of node `id` replaced by `m`.
pub open spec fn spec_with_node_children(d: InnerDriveView, id: NodeId, m: Seq<ChildPair>) -> InnerDriveView {
    spec_with_node(d, id, NodeView { data: spec_with_children(d.nodes[id].data, m), ..d.nodes[id] })
}

/// Moving node `src_id` below node `dst_id` under the name `name`, step by step: the entry is
/// taken out of the old parent (which with its ancestors is recorded as changed), added to
/// the new parent (likewise), and the node itself records its new parent and name. Gives the
/// tree reached, and the error that stopped the move, if any; a step that fails leaves the
/// tree as the steps before it made it.
pub open spec fn spec_move(d: InnerDriveView, src_id: NodeId, dst_id: NodeId, name: NodeNameView) -> (InnerDriveView, Option<OperationErrorView>) {
    let fuel = d.nodes.dom().len();
    if !d.nodes.contains_key(src_id) {
        (d, Some(OperationErrorView::InternalCorruption(src_id, "missing expected node ID")))
    } else {
        let src = d.nodes[src_id];
        match spec_node_entry(src) {
            Err(e) => (d, Some(e)),
            Ok((cid, size)) => match src.parent_id {
                None => (d, Some(OperationErrorView::InternalCorruption(src_id, "src node has no parent"))),
                Some(pp) => match spec_lookup(d, pp) {
                    None => (d, Some(OperationErrorView::MissingPermanentId(pp))),
                    Some(sp) => match spec_ancestors(d, sp, fuel) {
                        Err(e) => (d, Some(e)),
                        Ok(_) => match spec_children(d.nodes[sp].data) {
                            None => (d, Some(OperationErrorView::InternalCorruption(sp, "Could not remove target from parent"))),
                            Some(m) => match spec_find_name(m, src.name) {
                                None => (d, Some(OperationErrorView::InternalCorruption(sp, "Could not remove target from parent"))),
                                Some(i) => {
                                    let d1 = spec_with_node_children(d, sp, m.remove(i));
                                    if !d1.nodes.contains_key(dst_id) {
                                        (d1, Some(OperationErrorView::InternalCorruption(dst_id, "missing expected node ID")))
                                    } else {
                                        match spec_ancestors(d1, dst_id, fuel) {
                                            Err(e) => (d1, Some(e)),
                                            Ok(_) => match spec_children(d1.nodes[dst_id].data) {
                                                None => (d1, Some(OperationErrorView::NodeFailure(NodeDataError::NotAParent))),
                                                Some(m2) => if spec_find_name(m2, name) is Some {
                                                    (d1, Some(OperationErrorView::NodeFailure(NodeDataError::ChildNameExists)))
                                                } else {
                                                    let entry = ChildMapEntryView { permanent_id: src.permanent_id, cid, size };
                                                    let d2 = spec_with_node_children(d1, dst_id, spec_insert_child(m2, name, entry));
                                                    match spec_ancestors(d2, src_id, fuel) {
                                                        Err(e) => (d2, Some(e)),
                                                        Ok(_) => (
                                                            spec_with_node(
                                                                d2,
                                                                src_id,
                                                                NodeView {
                                                                    parent_id: Some(d1.nodes[dst_id].permanent_id),
                                                                    name,
                                                                    ..d2.nodes[src_id]
                                                                },
                                                            ),
                                                            None,
                                                        ),
                                                    }
                                                },
                                            },
                                        }
                                    }
                                },
                            },
                        },
                    },
                },
            },
        }
    }
}

/// Refreshing node `id`'s entry in its parent: the parent's entry for the node records the
/// node's current CID and size. The root, and a parent that does not list the node, are left
/// alone.
pub open spec fn spec_refresh(d: InnerDriveView, id: NodeId) -> Result<InnerDriveView, OperationErrorView> {
    match spec_by_id(d, id) {
        Err(e) => Err(e),
        Ok(n) => match n.parent_id {
            None => Ok(d),
            Some(pp) => match spec_node_entry(n) {
                Err(e) => Err(e),
                Ok((cid, size)) => match spec_lookup_result(d, pp) {
                    Err(e) => Err(e),
                    Ok(parent_id) => match spec_children(d.nodes[parent_id].data) {
                        Some(m) => match crate::filesystem::nodes::node_data::child_map::spec_find_pid(m, n.permanent_id) {
                            Some(i) => Ok(
                                spec_with_node_children(
                                    d,
                                    parent_id,
                                    m.update(i, (m[i].0, ChildMapEntryView { cid, size, ..m[i].1 })),
                                ),
                            ),
                            None => Ok(d),
                        },
                        None => Ok(d),
                    },
                },
            },
        },
    }
}

/// An error that reports the state of the drive itself: a missing or corrupt part of the
/// tree, or a node its format can not hold.
pub open spec fn spec_state_error(e: OperationErrorView) -> bool {
    e is InternalCorruption || e is MissingPermanentId || e is Encoding
}

/// Refreshing a node's entry fails only on the state of the drive.
pub proof fn lemma_refresh_error_kind(d: InnerDriveView, id: NodeId)
    ensures
        spec_refresh(d, id) matches Err(e) ==> spec_state_error(e),
{
}

/// Collecting a node's ancestors fails only on the state of the drive.
pub proof fn lemma_ancestors_error_kind(d: InnerDriveView, id: NodeId, fuel: nat)
    ensures
        spec_ancestors(d, id, fuel) matches Err(e) ==> spec_state_error(e),
    decreases fuel,
{
    if d.nodes.contains_key(id) && d.nodes[id].parent_id is Some && fuel > 0 {
        match spec_lookup(d, d.nodes[id].parent_id.unwrap()) {
            Some(parent) => lemma_ancestors_error_kind(d, parent, (fuel - 1) as nat),
            None => {},
        }
    }
}

/// A clean-up run that stops early stops on an error of the state of the drive.
pub proof fn lemma_clean_error_kind(
    start: InnerDriveView,
    order: Seq<NodeId>,
    steps: Seq<InnerDriveView>,
    last: InnerDriveView,
    err: Option<OperationErrorView>,
)
    requires
        spec_clean_run(start, order, steps, last, err),
    ensures
        err matches Some(e) ==> spec_state_error(e),
{
    if steps.len() != order.len() + 1 {
        lemma_refresh_error_kind(steps.last(), order[steps.len() - 1]);
    }
}

/// The nodes of a dirty list, each once: the list is read from its end and a node is added
/// the first time it is met.
pub open spec fn spec_dirty_set(s: Seq<NodeId>) -> Seq<NodeId>
    decreases s.len(),
{
    if s.len() == 0 {
        Seq::empty()
    } else {
        let l = spec_dirty_set(s.drop_first());
        if l.contains(s[0]) {
            l
        } else {
            l.push(s[0])
        }
    }
}

/// The order in which clean-up refreshes the nodes of a dirty list: each node once, the one
/// recorded first first, so that for the lists that changes append (a node, then its
/// ancestors nearest first) children come before their parents.
pub open spec fn spec_clean_order(dirty: Seq<NodeId>) -> Seq<NodeId> {
    spec_dirty_set(dirty).reverse()
}

/// The drive with an empty dirty list.
pub open spec fn spec_without_dirty(d: InnerDriveView) -> InnerDriveView {
    InnerDriveView { dirty: Seq::empty(), ..d }
}

/// The error an operation ended with, if any.
pub open spec fn spec_error_of(r: Result<(), OperationError>) -> Option<OperationErrorView> {
    match r {
        Ok(_) => None,
        Err(x) => Some(x@),
    }
}

/// A run of clean-up from `start`: each of `steps` after the first is the previous one with
/// the next node of `order` refreshed (up to modification times), the run ends in `last`, and
/// it either went through the whole order (`err` is `None`) or stopped at the first refresh
/// that failed, with that refresh's error.
pub open spec fn spec_clean_run(
    start: InnerDriveView,
    order: Seq<NodeId>,
    steps: Seq<InnerDriveView>,
    last: InnerDriveView,
    err: Option<OperationErrorView>,
) -> bool {
    &&& 1 <= steps.len() <= order.len() + 1
    &&& steps[0] == start
    &&& forall|i: int|
        0 <= i < steps.len() - 1 ==> (#[trigger] spec_refresh(steps[i], order[i]) matches Ok(e) && spec_drive_times_only(
            e,
            steps[i + 1],
        ) && steps[i + 1].dirty == steps[i].dirty && steps[i + 1].next_key == steps[i].next_key)
    &&& last == steps.last()
    &&& if steps.len() == order.len() + 1 {
        err is None
    } else {
        spec_refresh(steps.last(), order[steps.len() - 1]) matches Err(e) && err == Some(e)
    }
}

/// After a node's entry is refreshed, a parent that lists the node records the CID and size
/// the node had: the step by which clean-up keeps every parent's record of its children up to
/// date.
pub proof fn lemma_refresh_records_entry(d: InnerDriveView, id: NodeId)
    requires
        spec_inner_wf(d),
        spec_refresh(d, id) is Ok,
        d.nodes.contains_key(id),
        d.nodes[id].parent_id matches Some(pp) && spec_lookup(d, pp) matches Some(p) && spec_children(d.nodes[p].data) matches Some(
            m,
        ) && crate::filesystem::nodes::node_data::child_map::spec_find_pid(m, d.nodes[id].permanent_id) is Some,
    ensures
        ({
            let n = d.nodes[id];
            let p = spec_lookup(d, n.parent_id.unwrap()).unwrap();
            let e = spec_refresh(d, id)->Ok_0;
            &&& spec_children(e.nodes[p].data) matches Some(m2)
            &&& crate::filesystem::nodes::node_data::child_map::spec_find_pid(m2, n.permanent_id) matches Some(i)
            &&& m2[i].1.cid == blake3_hash(spec_node_body(n))
            &&& m2[i].1.size == spec_node_size(n) as u64
        }),
{
    let n = d.nodes[id];
    let p = spec_lookup(d, n.parent_id.unwrap()).unwrap();
    let m = spec_children(d.nodes[p].data).unwrap();
    let i = crate::filesystem::nodes::node_data::child_map::spec_find_pid(m, n.permanent_id).unwrap();
    crate::filesystem::nodes::node_data::child_map::lemma_find_pid_from(m, n.permanent_id, 0);
    let (cid, size) = spec_node_entry(n)->Ok_0;
    let m2 = m.update(i, (m[i].0, ChildMapEntryView { cid, size, ..m[i].1 }));
    crate::filesystem::nodes::node_data::child_map::lemma_find_pid_from(m2, n.permanent_id, 0);
    assert(forall|j: int| 0 <= j < i ==> m2[j] == m[j]);
    let e = spec_refresh(d, id)->Ok_0;
    assert(spec_by_id(d, id) == Ok::<NodeView, OperationErrorView>(n));
    assert(spec_lookup_result(d, n.parent_id.unwrap()) == Ok::<NodeId, OperationErrorView>(p));
    assert(e == spec_with_node_children(d, p, m2));
    assert(spec_children(e.nodes[p].data) == Some(m2)) by {
        match d.nodes[p].data {
            NodeDataView::File { .. } => {},
            NodeDataView::Directory { .. } => {},
            NodeDataView::AssociatedData { .. } => {},
        }
    }
    match crate::filesystem::nodes::node_data::child_map::spec_find_pid(m2, n.permanent_id) {
        Some(k) => {
            if k < i {
                assert(m2[k] == m[k]);
            } else if k > i {
                assert(m2[i].1.permanent_id == n.permanent_id);
            }
        },
        None => {
            assert(m2[i].1.permanent_id == n.permanent_id);
        },
    }
}

/// Two drives agree on everything but modification times and the dirty list.
pub open spec fn spec_drive_times_only(a: InnerDriveView, b: InnerDriveView) -> bool {
    &&& a.access == b.access
    &&& a.root_pid == b.root_pid
    &&& a.pids == b.pids
    &&& spec_times_only(a.nodes, b.nodes)
}

proof fn lemma_times_only_same_structure(a: InnerDriveView, b: InnerDriveView)
    requires
        spec_drive_times_only(a, b),
    ensures
        spec_same_structure(a, b),
{
    assert forall|id: NodeId| #[trigger] a.nodes.contains_key(id) implies spec_node_same_structure(a.nodes[id], b.nodes[id]) by {
        match a.nodes[id].data {
            NodeDataView::File { .. } => {},
            NodeDataView::Directory { .. } => {},
            NodeDataView::AssociatedData { .. } => {},
        }
    }
}

proof fn lemma_times_only_trans(a: InnerDriveView, b: InnerDriveView, c: InnerDriveView)
    requires
        spec_drive_times_only(a, b),
        spec_same_structure(b, c),
        spec_times_only(b.nodes, c.nodes),
    ensures
        spec_drive_times_only(a, c),
{
    assert forall|id: NodeId| #[trigger] a.nodes.contains_key(id) implies c.nodes[id] == (NodeView {
        modified_at: c.nodes[id].modified_at,
        ..a.nodes[id]
    }) by {
        assert(b.nodes.contains_key(id));
    }
}

/// Giving node `id` new data in both of two drives that differ only in times keeps them so.
proof fn lemma_times_only_set_data(e: InnerDriveView, a: InnerDriveView, id: NodeId, n: NodeView, m: Seq<ChildPair>)
    requires
        spec_drive_times_only(e, a),
        e.nodes.contains_key(id),
        n == (NodeView { data: spec_with_children(a.nodes[id].data, m), modified_at: n.modified_at, ..a.nodes[id] }),
    ensures
        spec_drive_times_only(spec_with_node_children(e, id, m), spec_with_node(a, id, n)),
{
    let e2 = spec_with_node_children(e, id, m);
    let a2 = spec_with_node(a, id, n);
    assert(e2.nodes.dom() =~= a2.nodes.dom());
    assert forall|i: NodeId| #[trigger] e2.nodes.contains_key(i) implies a2.nodes[i] == (NodeView {
        modified_at: a2.nodes[i].modified_at,
        ..e2.nodes[i]
    }) by {
        if i != id {
            assert(e.nodes.contains_key(i));
        }
    }
}

/// Updating the entry for `pid` in node `parent_id`, as `update_child` does, yields the
/// refreshed drive up to times.
proof fn lemma_refresh_times_only(a: InnerDriveView, b: InnerDriveView, parent_id: NodeId, pid: Seq<u8>, cid: Seq<u8>, size: u64)
    requires
        a.nodes.contains_key(parent_id),
        b == spec_with_node(a, parent_id, b.nodes[parent_id]),
        match spec_children(a.nodes[parent_id].data) {
            None => b.nodes[parent_id] == (NodeView { modified_at: b.nodes[parent_id].modified_at, ..a.nodes[parent_id] }),
            Some(m) => match crate::filesystem::nodes::node_data::child_map::spec_find_pid(m, pid) {
                Some(i) => b.nodes[parent_id] == (NodeView {
                    data: spec_with_children(a.nodes[parent_id].data, m.update(i, (m[i].0, ChildMapEntryView { cid, size, ..m[i].1 }))),
                    modified_at: b.nodes[parent_id].modified_at,
                    ..a.nodes[parent_id]
                }),
                None => b.nodes[parent_id] == a.nodes[parent_id],
            },
        },
    ensures
        spec_drive_times_only(
            match spec_children(a.nodes[parent_id].data) {
                Some(m) => match crate::filesystem::nodes::node_data::child_map::spec_find_pid(m, pid) {
                    Some(i) => spec_with_node_children(a, parent_id, m.update(i, (m[i].0, ChildMapEntryView { cid, size, ..m[i].1 }))),
                    None => a,
                },
                None => a,
            },
            b,
        ),
{
    let e = match spec_children(a.nodes[parent_id].data) {
        Some(m) => match crate::filesystem::nodes::node_data::child_map::spec_find_pid(m, pid) {
            Some(i) => spec_with_node_children(a, parent_id, m.update(i, (m[i].0, ChildMapEntryView { cid, size, ..m[i].1 }))),
            None => a,
        },
        None => a,
    };
    assert(e.nodes.dom() =~= b.nodes.dom());
    assert forall|id: NodeId| #[trigger] e.nodes.contains_key(id) implies b.nodes[id] == (NodeView {
        modified_at: b.nodes[id].modified_at,
        ..e.nodes[id]
    }) by {}
}

/// Storing a node with the same position, permanent ID and kind keeps a drive well-formed.
proof fn lemma_wf_set_node(d: InnerDriveView, id: NodeId, n: NodeView)
    requires
        spec_inner_wf(d),
        d.nodes.contains_key(id),
        n.id == id,
        n.permanent_id == d.nodes[id].permanent_id,
        !(n.data is AssociatedData),
    ensures
        spec_inner_wf(spec_with_node(d, id, n)),
{
    let d2 = spec_with_node(d, id, n);
    assert(d2.nodes.dom() =~= d.nodes.dom());
    assert forall|k: u128| #[trigger] d2.pids.contains_key(k) implies d2.nodes.contains_key(d2.pids[k]) && spec_pid_key(
        d2.nodes[d2.pids[k]].permanent_id,
    ) == k by {
        assert(d.nodes.contains_key(d.pids[k]));
    }
}

/// The root directory of a new drive at table position `k`.
pub open spec fn spec_root_view(k: NodeId, owner: Seq<u8>, pid: Seq<u8>, now: i64) -> NodeView {
    NodeView {
        id: k,
        parent_id: None,
        permanent_id: pid,
        owner_id: owner,
        vector_clock: 0,
        created_at: now,
        modified_at: now,
        name: NodeNameView::Root,
        metadata: Seq::empty(),
        data: NodeDataView::Directory { permissions: spec_default_permissions(), children: Seq::empty() },
    }
}

/// The CIDs of the data blocks of a node's content, as byte strings.
pub open spec fn spec_data_cids(n: NodeView) -> Seq<Seq<u8>> {
    match n.data {
        NodeDataView::File { content, .. } | NodeDataView::AssociatedData { content } => match content {
            FileContentView::Encrypted { content, .. } | FileContentView::Public { content, .. } => content.map_values(
                |c: ContentReferenceView| c.cid,
            ),
            _ => Seq::empty(),
        },
        NodeDataView::Directory { .. } => Seq::empty(),
    }
}

/// Removing the nodes named on `stack` and all their descendants, last named first and each
/// node's children pushed in ascending order, collecting the data block CIDs of the removed
/// nodes after `acc`: the drive afterwards, the CIDs, and the first failure if one stops the
/// removal part way.
pub open spec fn spec_remove_subtrees(d: InnerDriveView, stack: Seq<Seq<u8>>, acc: Seq<Seq<u8>>, fuel: nat) -> (
    InnerDriveView,
    Seq<Seq<u8>>,
    Option<OperationErrorView>,
)
    decreases fuel,
{
    if stack.len() == 0 {
        (d, acc, None)
    } else {
        let pid = stack.last();
        match spec_lookup(d, pid) {
            None => (d, acc, Some(OperationErrorView::MissingPermanentId(pid))),
            Some(id) => {
                let d1 = InnerDriveView { pids: d.pids.remove(spec_pid_key(pid)), ..d };
                if !d.nodes.contains_key(id) {
                    (d1, acc, Some(OperationErrorView::InternalCorruption(id, "missing node for removal")))
                } else if fuel == 0 {
                    (d, acc, None)
                } else {
                    let n = d.nodes[id];
                    let d2 = InnerDriveView { nodes: d.nodes.remove(id), ..d1 };
                    spec_remove_subtrees(
                        d2,
                        stack.drop_last() + spec_ordered_child_pids(n.data),
                        acc + spec_data_cids(n),
                        (fuel - 1) as nat,
                    )
                }
            },
        }
    }
}

pub(crate) proof fn lemma_same_structure_child_pids(a: Seq<ChildPair>, b: Seq<ChildPair>)
    requires
        spec_children_same_structure(a, b),
    ensures
        crate::filesystem::nodes::node_data::child_map::spec_child_pids(a)
            == crate::filesystem::nodes::node_data::child_map::spec_child_pids(b),
{
    let pa = crate::filesystem::nodes::node_data::child_map::spec_child_pids(a);
    let pb = crate::filesystem::nodes::node_data::child_map::spec_child_pids(b);
    assert forall|i: int| 0 <= i < pa.len() implies pa[i] == pb[i] by {
        assert(a[i].0 == b[i].0 && a[i].1.permanent_id == b[i].1.permanent_id);
    }
    assert(pa =~= pb);
}

/// Removing subtrees from drives of the same structure removes the same nodes, collects the
/// same CIDs and fails the same way.
proof fn lemma_remove_subtrees_congruent(
    a: InnerDriveView,
    b: InnerDriveView,
    stack: Seq<Seq<u8>>,
    acc: Seq<Seq<u8>>,
    fuel: nat,
)
    requires
        spec_same_structure(a, b),
    ensures
        spec_same_structure(spec_remove_subtrees(a, stack, acc, fuel).0, spec_remove_subtrees(b, stack, acc, fuel).0),
        spec_remove_subtrees(a, stack, acc, fuel).1 == spec_remove_subtrees(b, stack, acc, fuel).1,
        spec_remove_subtrees(a, stack, acc, fuel).2 == spec_remove_subtrees(b, stack, acc, fuel).2,
        spec_remove_subtrees(a, stack, acc, fuel).0.dirty == a.dirty,
        spec_remove_subtrees(b, stack, acc, fuel).0.dirty == b.dirty,
    decreases fuel,
{
    if stack.len() > 0 {
        let pid = stack.last();
        match spec_lookup(a, pid) {
            None => {},
            Some(id) => {
                let a1 = InnerDriveView { pids: a.pids.remove(spec_pid_key(pid)), ..a };
                let b1 = InnerDriveView { pids: b.pids.remove(spec_pid_key(pid)), ..b };
                if !a.nodes.contains_key(id) {
                    assert forall|i: NodeId| #[trigger] a1.nodes.contains_key(i) implies spec_node_same_structure(a1.nodes[i], b1.nodes[i]) by {
                        assert(spec_node_same_structure(a.nodes[i], b.nodes[i]));
                    }
                } else if fuel > 0 {
                    let na = a.nodes[id];
                    let nb = b.nodes[id];
                    assert(spec_node_same_structure(na, nb));
                    let a2 = InnerDriveView { nodes: a.nodes.remove(id), ..a1 };
                    let b2 = InnerDriveView { nodes: b.nodes.remove(id), ..b1 };
                    assert(a2.nodes.dom() =~= b2.nodes.dom());
                    assert forall|i: NodeId| #[trigger] a2.nodes.contains_key(i) implies spec_node_same_structure(a2.nodes[i], b2.nodes[i]) by {
                        assert(spec_node_same_structure(a.nodes[i], b.nodes[i]));
                    }
                    assert(spec_ordered_child_pids(na.data) == spec_ordered_child_pids(nb.data)) by {
                        match na.data {
                            NodeDataView::File { associated_data, .. } => {
                                let m2 = spec_children(nb.data).unwrap();
                                lemma_same_structure_child_pids(associated_data, m2);
                            },
                            NodeDataView::Directory { children, .. } => {
                                let m2 = spec_children(nb.data).unwrap();
                                lemma_same_structure_child_pids(children, m2);
                            },
                            NodeDataView::AssociatedData { .. } => {},
                        }
                    }
                    assert(spec_data_cids(na) == spec_data_cids(nb)) by {
                        match na.data {
                            NodeDataView::File { .. } => {},
                            NodeDataView::Directory { .. } => {},
                            NodeDataView::AssociatedData { .. } => {},
                        }
                    }
                    lemma_remove_subtrees_congruent(
                        a2,
                        b2,
                        stack.drop_last() + spec_ordered_child_pids(na.data),
                        acc + spec_data_cids(na),
                        (fuel - 1) as nat,
                    );
                }
            },
        }
    }
}

/// Removing subtrees from a well-formed drive leaves it well-formed.
proof fn lemma_remove_subtrees_wf(d: InnerDriveView, stack: Seq<Seq<u8>>, acc: Seq<Seq<u8>>, fuel: nat)
    requires
        spec_inner_wf(d),
    ensures
        spec_inner_wf(spec_remove_subtrees(d, stack, acc, fuel).0),
    decreases fuel,
{
    if stack.len() > 0 {
        let pid = stack.last();
        match spec_lookup(d, pid) {
            None => {},
            Some(id) => {
                if fuel > 0 {
                    let n = d.nodes[id];
                    let d2 = InnerDriveView { nodes: d.nodes.remove(id), pids: d.pids.remove(spec_pid_key(pid)), ..d };
                    assert(spec_inner_wf(d2)) by {
                        assert forall|i: NodeId| #[trigger] d2.nodes.contains_key(i) implies d2.nodes[i].id == i
                            && d2.nodes[i].permanent_id.len() == 16 && !(d2.nodes[i].data is AssociatedData)
                            && d2.pids.contains_key(spec_pid_key(d2.nodes[i].permanent_id)) && d2.pids[spec_pid_key(
                            d2.nodes[i].permanent_id,
                        )] == i by {
                            assert(d.nodes.contains_key(i));
                        }
                        assert forall|k: u128| #[trigger] d2.pids.contains_key(k) implies d2.nodes.contains_key(d2.pids[k])
                            && spec_pid_key(d2.nodes[d2.pids[k]].permanent_id) == k by {
                            assert(d.pids.contains_key(k));
                        }
                    }
                    let next = stack.drop_last() + spec_ordered_child_pids(n.data);
                    lemma_remove_subtrees_wf(d2, next, acc + spec_data_cids(n), (fuel - 1) as nat);
                }
            },
        }
    }
}

/// The first step of removing the node with permanent ID `pid`: the node must have a parent,
/// which is recorded as changed together with its ancestors and no longer lists the node. The
/// drive after that step and the parent's position, or the first failure.
pub open spec fn spec_remove_prepare(d: InnerDriveView, pid: Seq<u8>) -> Result<(InnerDriveView, NodeId), OperationErrorView> {
    match spec_by_perm_id(d, pid) {
        Err(e) => Err(e),
        Ok(target) => match target.parent_id {
            None => Err(OperationErrorView::OrphanNode(pid)),
            Some(parent_pid) => match spec_lookup_result(d, parent_pid) {
                Err(e) => Err(e),
                Ok(parent_id) => match spec_ancestors(d, parent_id, d.nodes.dom().len()) {
                    Err(e) => Err(e),
                    Ok(chain) => match spec_children(d.nodes[parent_id].data) {
                        None => Err(OperationErrorView::NodeFailure(NodeDataError::NotAParent)),
                        Some(m) => Ok(
                            (
                                InnerDriveView {
                                    nodes: d.nodes.insert(
                                        parent_id,
                                        NodeView {
                                            data: spec_with_children(
                                                d.nodes[parent_id].data,
                                                m.filter(|p: ChildPair| p.1.permanent_id != pid),
                                            ),
                                            ..d.nodes[parent_id]
                                        },
                                    ),
                                    dirty: d.dirty.push(parent_id) + chain,
                                    ..d
                                },
                                parent_id,
                            ),
                        ),
                    },
                },
            },
        },
    }
}

/// The CID and size a parent records for the node.
pub fn node_entry(node: &Node) -> (r: Result<(Cid, u64), OperationError>)
    requires
        !(node@.data is AssociatedData),
    ensures
        match spec_node_encode_error(node@) {
            Some(e) => r matches Err(x) && x@ == OperationErrorView::Encoding(e),
            None => if spec_node_size(node@) <= u64::MAX {
                r matches Ok((c, s)) && c@ == blake3_hash(spec_node_body(node@)) && s == spec_node_size(node@)
            } else {
                r matches Err(x) && x@ == OperationErrorView::Encoding(EncodingError::TooLarge)
            },
        },
{
    let cid = match node.cid() {
        Ok(c) => c,
        Err(e) => return Err(OperationError::Encoding(e)),
    };
    match node.checked_size() {
        Some(size) => {
            assert(size == spec_node_size(node@));
            Ok((cid, size))
        },
        None => Err(OperationError::Encoding(EncodingError::TooLarge)),
    }
}

/// A node found by permanent ID in a well-formed drive is a stored node, never standalone
/// associated data.
pub proof fn lemma_by_perm_id_in_table(d: InnerDriveView, pid: Seq<u8>)
    requires
        spec_inner_wf(d),
    ensures
        spec_by_perm_id(d, pid) matches Ok(n) ==> !(n.data is AssociatedData) && d.nodes.contains_key(n.id) && d.nodes[n.id] == n,
{
}

/// A node found by position in a well-formed drive is never standalone associated data.
pub proof fn lemma_by_id_in_table(d: InnerDriveView, id: NodeId)
    requires
        spec_inner_wf(d),
    ensures
        spec_by_id(d, id) matches Ok(n) ==> !(n.data is AssociatedData) && n.id == id,
{
}

/// The drive after removing the node with permanent ID `pid` and its subtree, when the first
/// step succeeds.
pub open spec fn spec_removed_drive(d: InnerDriveView, pid: Seq<u8>) -> InnerDriveView {
    match spec_remove_prepare(d, pid) {
        Ok((d1, _)) => spec_remove_subtrees(d1, seq![pid], Seq::empty(), d1.nodes.dom().len()).0,
        Err(_) => d,
    }
}

/// Taking subtrees out of a drive only ever drops entries from its index.
proof fn lemma_remove_subtrees_shrinks(d: InnerDriveView, stack: Seq<Seq<u8>>, acc: Seq<Seq<u8>>, fuel: nat)
    ensures
        spec_remove_subtrees(d, stack, acc, fuel).0.pids.dom().subset_of(d.pids.dom()),
    decreases fuel,
{
    if stack.len() > 0 {
        let pid = stack.last();
        match spec_lookup(d, pid) {
            None => {},
            Some(id) => {
                if d.nodes.contains_key(id) && fuel > 0 {
                    let n = d.nodes[id];
                    let d2 = InnerDriveView { nodes: d.nodes.remove(id), pids: d.pids.remove(spec_pid_key(pid)), ..d };
                    lemma_remove_subtrees_shrinks(
                        d2,
                        stack.drop_last() + spec_ordered_child_pids(n.data),
                        acc + spec_data_cids(n),
                        (fuel - 1) as nat,
                    );
                }
            },
        }
    }
}

/// Removing a node from a well-formed drive forgets its permanent ID, whatever happens further
/// down its subtree.
pub proof fn lemma_removed_node_is_gone(d: InnerDriveView, pid: Seq<u8>)
    requires
        spec_inner_wf(d),
        spec_remove_prepare(d, pid) is Ok,
    ensures
        spec_lookup(spec_removed_drive(d, pid), pid) is None,
{
    let (d1, parent_id) = spec_remove_prepare(d, pid)->Ok_0;
    let id = spec_lookup(d, pid).unwrap();
    assert(d1.pids == d.pids);
    assert(d1.nodes.contains_key(id));
    assert(d1.nodes.dom().len() > 0) by {
        assert(d1.nodes.dom().contains(id));
        vstd::set_lib::lemma_set_empty_equivalency_len(d1.nodes.dom());
    }
    let fuel = d1.nodes.dom().len();
    let stack = seq![pid];
    assert(stack.last() == pid);
    assert(stack.drop_last() =~= Seq::<Seq<u8>>::empty());
    let n = d1.nodes[id];
    let d2 = InnerDriveView { nodes: d1.nodes.remove(id), pids: d1.pids.remove(spec_pid_key(pid)), ..d1 };
    lemma_remove_subtrees_shrinks(
        d2,
        stack.drop_last() + spec_ordered_child_pids(n.data),
        Seq::<Seq<u8>>::empty() + spec_data_cids(n),
        (fuel - 1) as nat,
    );
}

/// Having the same structure is transitive.
pub proof fn lemma_same_structure_trans_pub(a: InnerDriveView, b: InnerDriveView, c: InnerDriveView)
    requires
        spec_same_structure(a, b),
        spec_same_structure(b, c),
    ensures
        spec_same_structure(a, c),
{
    lemma_same_structure_trans(a, b, c);
}

impl InnerDrive {
    pub fn access(&self) -> (r: &DriveAccess)
        ensures
            r@ == self@.access,
    {
        &self.access
    }

    pub fn root_pid(&self) -> (r: PermanentId)
        ensures
            r@ == self@.root_pid,
    {
        self.root_pid
    }

    /// The number of nodes held.
    pub fn node_count(&self) -> (r: usize)
        ensures
            r == self@.nodes.dom().len(),
    {
        slab_len(&self.nodes)
    }

    /// How many nodes the table holds without growing: at least the nodes it holds now.
    pub fn node_capacity(&self) -> (r: usize)
        ensures
            r >= self@.nodes.dom().len(),
    {
        slab_capacity(&self.nodes)
    }

    /// The table position of the node with permanent ID `perm_id`.
    pub fn lookup_internal_id(&self, perm_id: &PermanentId) -> (r: Result<NodeId, OperationError>)
        ensures
            match spec_lookup_result(self@, perm_id@) {
                Ok(id) => r == Ok::<NodeId, OperationError>(id),
                Err(e) => r matches Err(x) && x@ == e,
            },
    {
        match self.permanent_id_map.get(&pid_key(perm_id)) {
            Some(id) => Ok(*id),
            None => Err(OperationError::MissingPermanentId(*perm_id)),
        }
    }

    /// The node at table position `node_id`.
    pub fn by_id(&self, node_id: NodeId) -> (r: Result<&Node, OperationError>)
        ensures
            match spec_by_id(self@, node_id) {
                Ok(n) => r matches Ok(x) && x@ == n,
                Err(e) => r matches Err(x) && x@ == e,
            },
    {
        match slab_get(&self.nodes, node_id) {
            Some(node) => Ok(node),
            None => Err(OperationError::InternalCorruption(node_id, "missing expected node ID")),
        }
    }

    /// The node with permanent ID `permanent_id`.
    pub fn by_perm_id(&self, permanent_id: &PermanentId) -> (r: Result<&Node, OperationError>)
        ensures
            match spec_by_perm_id(self@, permanent_id@) {
                Ok(n) => r matches Ok(x) && x@ == n,
                Err(e) => r matches Err(x) && x@ == e,
            },
    {
        let node_id = self.lookup_internal_id(permanent_id)?;
        self.by_id(node_id)
    }

    /// The root node.
    pub fn root_node(&self) -> (r: Result<&Node, OperationError>)
        ensures
            match spec_by_perm_id(self@, self@.root_pid) {
                Ok(n) => r matches Ok(x) && x@ == n,
                Err(e) => r matches Err(x) && x@ == e,
            },
    {
        self.by_perm_id(&self.root_pid)
    }

    /// Records that node `node_id` changed: its modification time is refreshed.
    fn touch(&mut self, node_id: NodeId)
        requires
            spec_inner_wf(old(self)@),
            old(self)@.nodes.contains_key(node_id),
        ensures
            spec_inner_wf(final(self)@),
            spec_same_structure(old(self)@, final(self)@),
            final(self)@.dirty == old(self)@.dirty,
            spec_times_only(old(self)@.nodes, final(self)@.nodes),
            final(self)@.nodes == old(self)@.nodes.insert(
                node_id,
                (NodeView { modified_at: final(self)@.nodes[node_id].modified_at, ..old(self)@.nodes[node_id] }),
            ),
    {
        let node = slab_get_mut(&mut self.nodes, node_id);
        node.notify_of_change();
        proof {
            let a = old(self)@;
            let b = self@;
            assert(b.nodes.dom() =~= a.nodes.dom());
            assert forall|id: NodeId| #[trigger] a.nodes.contains_key(id) implies spec_node_same_structure(a.nodes[id], b.nodes[id]) by {
                match a.nodes[id].data {
                    NodeDataView::File { .. } => {},
                    NodeDataView::Directory { .. } => {},
                    NodeDataView::AssociatedData { .. } => {},
                }
            }
            lemma_same_structure_keeps(a, b, node_id, 0);
        }
    }

    /// Records that node `node_id` changed: it and then each of its ancestors, nearest first,
    /// are appended to the dirty list, and the node and the last ancestor reached get a fresh
    /// modification time. A chain of parents longer than the number of nodes loops, and is
    /// reported as corruption.
    pub fn mark_ancestors_dirty(&mut self, node_id: NodeId) -> (r: Result<(), OperationError>)
        requires
            spec_inner_wf(old(self)@),
            old(self)@.nodes.contains_key(node_id),
        ensures
            spec_inner_wf(final(self)@),
            spec_same_structure(old(self)@, final(self)@),
            spec_times_only(old(self)@.nodes, final(self)@.nodes),
            old(self)@.dirty.push(node_id).is_prefix_of(final(self)@.dirty),
            match spec_ancestors(old(self)@, node_id, old(self)@.nodes.dom().len()) {
                Ok(chain) => r is Ok && final(self)@.dirty == old(self)@.dirty.push(node_id) + chain,
                Err(e) => r matches Err(x) && x@ == e,
            },
    {
        let ghost start = self@;
        let total = slab_len(&self.nodes);
        self.dirty_nodes.push(node_id);
        self.touch(node_id);
        proof {
            lemma_same_structure_keeps(start, self@, node_id, total as nat);
        }
        let mut current = node_id;
        let mut fuel = total;
        let ghost mut chain: Seq<NodeId> = Seq::empty();
        assert(self@.dirty =~= start.dirty.push(node_id) + chain);
        loop
            invariant
                start == old(self)@,
                spec_inner_wf(self@),
                spec_same_structure(start, self@),
                spec_times_only(start.nodes, self@.nodes),
                self@.nodes.contains_key(current),
                self@.dirty == start.dirty.push(node_id) + chain,
                start.dirty.push(node_id).is_prefix_of(self@.dirty),
                fuel <= total,
                total == start.nodes.dom().len(),
                spec_ancestors(start, node_id, total as nat) == match spec_ancestors(start, current, fuel as nat) {
                    Ok(s) => Ok(chain + s),
                    Err(e) => Err(e),
                },
            ensures
                start == old(self)@,
                spec_inner_wf(self@),
                spec_same_structure(start, self@),
                spec_times_only(start.nodes, self@.nodes),
                self@.nodes.contains_key(current),
                self@.dirty == start.dirty.push(node_id) + chain,
                start.dirty.push(node_id).is_prefix_of(self@.dirty),
                spec_ancestors(start, node_id, total as nat) == Ok::<Seq<NodeId>, OperationErrorView>(chain),
            decreases fuel,
        {
            proof {
                lemma_same_structure_keeps(start, self@, current, fuel as nat);
            }
            let node = self.by_id(current)?;
            let parent_pid = match node.parent_id() {
                None => {
                    assert(spec_ancestors(start, current, fuel as nat) == Ok::<Seq<NodeId>, OperationErrorView>(Seq::empty()));
                    assert(chain + Seq::<NodeId>::empty() =~= chain);
                    assert(spec_ancestors(start, node_id, total as nat) == Ok::<Seq<NodeId>, OperationErrorView>(chain));
                    break;
                },
                Some(p) => p,
            };
            let parent = self.lookup_internal_id(&parent_pid)?;
            if fuel == 0 {
                return Err(OperationError::InternalCorruption(current, "parent chain does not end"));
            }
            fuel = fuel - 1;
            self.dirty_nodes.push(parent);
            proof {
                let old_chain = chain;
                chain = chain.push(parent);
                assert(self@.dirty =~= start.dirty.push(node_id) + chain);
                assert(self@.dirty.subrange(0, start.dirty.len() + 1int) =~= start.dirty.push(node_id));
                match spec_ancestors(start, parent, fuel as nat) {
                    Ok(s) => {
                        assert(old_chain + (seq![parent] + s) =~= chain + s);
                    },
                    Err(_) => {},
                }
            }
            current = parent;
        }
        let ghost before_touch = self@;
        self.touch(current);
        proof {
            lemma_same_structure_trans(start, before_touch, self@);
            assert forall|id: NodeId| #[trigger] start.nodes.contains_key(id) implies self@.nodes[id] == (NodeView {
                modified_at: self@.nodes[id].modified_at,
                ..start.nodes[id]
            }) by {
                assert(before_touch.nodes.contains_key(id));
            }
            assert(spec_ancestors(start, node_id, total as nat) == Ok::<Seq<NodeId>, OperationErrorView>(chain));
        }
        Ok(())
    }

    /// Records the current CID and size of node `node_id` in its parent's child entry. The
    /// root has no parent and is left alone; so is a parent that does not list the node.
    fn refresh_in_parent(&mut self, node_id: NodeId) -> (r: Result<(), OperationError>)
        requires
            spec_inner_wf(old(self)@),
        ensures
            spec_inner_wf(final(self)@),
            spec_same_structure(old(self)@, final(self)@),
            final(self)@.dirty == old(self)@.dirty,
            final(self)@.next_key == old(self)@.next_key,
            match spec_refresh(old(self)@, node_id) {
                Ok(e) => r is Ok && spec_drive_times_only(e, final(self)@),
                Err(e) => r matches Err(x) && x@ == e && final(self)@ == old(self)@,
            },
    {
        proof {
            lemma_by_id_in_table(self@, node_id);
        }
        proof {
            lemma_same_structure_refl(self@);
        }
        let node = self.by_id(node_id)?;
        let parent_pid = match node.parent_id() {
            None => return Ok(()),
            Some(p) => p,
        };
        let pid = node.permanent_id();
        let (cid, size) = node_entry(node)?;
        let parent_id = self.lookup_internal_id(&parent_pid)?;
        let ghost before = self@;
        let parent = slab_get_mut(&mut self.nodes, parent_id);
        let _ = parent.update_child(&pid, cid, size);
        proof {
            let a = before;
            let b = self@;
            crate::filesystem::drive::inner::lemma_lookup_finds_pid(a, parent_pid@);
            lemma_refresh_times_only(a, b, parent_id, pid@, cid@, size);
            assert(b.nodes.dom() =~= a.nodes.dom());
            assert forall|id: NodeId| #[trigger] a.nodes.contains_key(id) implies spec_node_same_structure(a.nodes[id], b.nodes[id]) by {
                if id == parent_id {
                    let d = a.nodes[id].data;
                    match spec_children(d) {
                        Some(m) => match crate::filesystem::nodes::node_data::child_map::spec_find_pid(m, pid@) {
                            Some(i) => {
                                crate::filesystem::nodes::node_data::child_map::lemma_find_pid_from(m, pid@, 0);
                                let m2 = m.update(i, (m[i].0, ChildMapEntryView { cid: cid@, size, ..m[i].1 }));
                                assert(spec_children_same_structure(m, m2));
                            },
                            None => {},
                        },
                        None => {},
                    }
                    match d {
                        NodeDataView::File { .. } => {},
                        NodeDataView::Directory { .. } => {},
                        NodeDataView::AssociatedData { .. } => {},
                    }
                } else {
                    match a.nodes[id].data {
                        NodeDataView::File { .. } => {},
                        NodeDataView::Directory { .. } => {},
                        NodeDataView::AssociatedData { .. } => {},
                    }
                }
            }
            lemma_same_structure_keeps(a, b, node_id, 0);
        }
        Ok(())
    }

    /// Brings the recorded CIDs and sizes up to date after changes: every node on the dirty
    /// list, each once, has its entry in its parent refreshed (see [`spec_clean_order`] and
    /// [`spec_clean_run`]), and the list is emptied. The tree itself is not changed.
    pub fn clean_drive(&mut self) -> (r: Result<(), OperationError>)
        requires
            spec_inner_wf(old(self)@),
        ensures
            spec_inner_wf(final(self)@),
            spec_same_structure(old(self)@, final(self)@),
            final(self)@.dirty.len() == 0,
            exists|steps: Seq<InnerDriveView>|
                #[trigger] spec_clean_run(
                    spec_without_dirty(old(self)@),
                    spec_clean_order(old(self)@.dirty),
                    steps,
                    final(self)@,
                    spec_error_of(r),
                ),
    {
        let mut dirty: Vec<NodeId> = Vec::new();
        std::mem::swap(&mut dirty, &mut self.dirty_nodes);
        proof {
            lemma_same_structure_refl(self@);
        }
        let ghost start = old(self)@;
        let ghost all = dirty@;
        let ghost first = self@;
        assert(all == old(self)@.dirty);
        assert(first == (InnerDriveView { dirty: Seq::empty(), ..start }));
        let mut node_list: Vec<NodeId> = Vec::new();
        assert(all.skip(all.len() as int) =~= Seq::<NodeId>::empty());
        while dirty.len() > 0
            invariant
                spec_inner_wf(self@),
                spec_same_structure(start, self@),
                self@.dirty.len() == 0,
                start == old(self)@,
                self@ == first,
                dirty@ == all.take(dirty@.len() as int),
                dirty@.len() <= all.len(),
                node_list@ == spec_dirty_set(all.skip(dirty@.len() as int)),
            decreases dirty@.len(),
        {
            let ghost k = dirty@.len();
            let node_id = dirty.pop().unwrap();
            let mut seen = false;
            let mut j: usize = 0;
            while j < node_list.len()
                invariant
                    j <= node_list@.len(),
                    seen == (exists|q: int| 0 <= q < j && node_list@[q] == node_id),
                decreases node_list@.len() - j,
            {
                if node_list[j] == node_id {
                    seen = true;
                }
                j = j + 1;
            }
            proof {
                assert(all.skip(k - 1).drop_first() =~= all.skip(k as int));
                assert(all.skip(k - 1)[0] == node_id);
                assert(dirty@ =~= all.take(k - 1));
                assert(seen == node_list@.contains(node_id));
            }
            if !seen {
                node_list.push(node_id);
            }
        }
        let ghost full = node_list@;
        let ghost n = full.len();
        let ghost order = spec_clean_order(all);
        assert(all.skip(0) =~= all);
        assert(full == spec_dirty_set(all));
        let ghost mut steps: Seq<InnerDriveView> = seq![first];
        assert(first == spec_without_dirty(old(self)@));
        assert(order == spec_clean_order(old(self)@.dirty));
        while node_list.len() > 0
            invariant
                first == spec_without_dirty(old(self)@),
                order == spec_clean_order(old(self)@.dirty),
                spec_inner_wf(self@),
                spec_same_structure(start, self@),
                self@.dirty.len() == 0,
                start == old(self)@,
                order == full.reverse(),
                n == full.len(),
                node_list@.len() <= n,
                node_list@ == full.take(node_list@.len() as int),
                steps.len() == n - node_list@.len() + 1,
                steps[0] == first,
                steps.last() == self@,
                forall|i: int|
                    0 <= i < steps.len() - 1 ==> (#[trigger] spec_refresh(steps[i], order[i]) matches Ok(e) && spec_drive_times_only(
                        e,
                        steps[i + 1],
                    ) && steps[i + 1].dirty == steps[i].dirty && steps[i + 1].next_key == steps[i].next_key),
            decreases node_list@.len(),
        {
            let ghost p = n - node_list@.len();
            let node_id = node_list.pop().unwrap();
            assert(order[p] == node_id);
            let ghost before = self@;
            match self.refresh_in_parent(node_id) {
                Ok(()) => {},
                Err(e) => {
                    proof {
                        lemma_same_structure_trans(start, before, self@);
                        assert(spec_clean_run(first, order, steps, self@, Some(e@)));
                        assert(first == spec_without_dirty(old(self)@));
                        assert(order == spec_clean_order(old(self)@.dirty));
                        let r = Err::<(), OperationError>(e);
                        assert(spec_error_of(r) == Some(e@));
                        assert(spec_clean_run(spec_without_dirty(old(self)@), spec_clean_order(old(self)@.dirty), steps, self@, spec_error_of(r)));
                    }
                    return Err(e);
                },
            }
            proof {
                lemma_same_structure_trans(start, before, self@);
                let old_steps = steps;
                steps = steps.push(self@);
                assert forall|i: int|
                    0 <= i < steps.len() - 1 implies (#[trigger] spec_refresh(steps[i], order[i]) matches Ok(e) && spec_drive_times_only(
                        e,
                        steps[i + 1],
                    ) && steps[i + 1].dirty == steps[i].dirty && steps[i + 1].next_key == steps[i].next_key) by {
                    if i < old_steps.len() - 1 {
                        assert(steps[i] == old_steps[i] && steps[i + 1] == old_steps[i + 1]);
                    } else {
                        assert(steps[i] == before);
                    }
                }
                assert(node_list@ =~= full.take(node_list@.len() as int));
            }
        }
        assert(spec_clean_run(first, order, steps, self@, None));
        assert(first == spec_without_dirty(old(self)@));
        assert(order == spec_clean_order(old(self)@.dirty));
        assert(spec_error_of(Ok::<(), OperationError>(())) == None::<OperationErrorView>);
        assert(spec_clean_run(
            spec_without_dirty(old(self)@),
            spec_clean_order(old(self)@.dirty),
            steps,
            self@,
            spec_error_of(Ok::<(), OperationError>(())),
        ));
        Ok(())
    }

    /// Creates a node from `builder` below the node with permanent ID `parent_permanent_id`,
    /// with the given permanent ID and creation time, owned by `owner_id`, and records the
    /// parent and its ancestors as changed. Nothing changes when the creation is refused.
    pub fn create_node_with(
        &mut self,
        owner_id: ActorId,
        parent_permanent_id: PermanentId,
        builder: NodeBuilder,
        permanent_id: PermanentId,
        now: i64,
    ) -> (r: Result<PermanentId, OperationError>)
        requires
            spec_inner_wf(old(self)@),
            builder.kind != NodeKind::AssociatedData,
            spec_lookup(old(self)@, permanent_id@) is None,
        ensures
            spec_create_outcome(
                old(self)@,
                final(self)@,
                r,
                owner_id,
                parent_permanent_id,
                builder,
                permanent_id@,
                now,
            ),
    {
        let ghost d = self@;
        let parent_id = self.lookup_internal_id(&parent_permanent_id)?;
        let parent_node = self.by_id(parent_id)?;
        if !parent_node.supports_children() {
            return Err(OperationError::ParentMustBeDirectory);
        }
        let node_id = slab_vacant_key(&self.nodes);
        let b2 = builder.with_parent(parent_permanent_id).with_id(node_id).with_owner(owner_id);
        let node = match b2.build_with(permanent_id, now) {
            Ok(n) => n,
            Err(e) => return Err(OperationError::CreationFailed(e)),
        };
        let name = node.name();
        match parent_node.data().children() {
            Some(c) => if c.find_name(&name).is_some() {
                return Err(OperationError::NodeFailure(NodeDataError::ChildNameExists));
            },
            None => {},
        }
        let (cid, size) = node_entry(&node)?;
        let ghost n = node@;
        let pid = node.permanent_id();
        let ghost parent_view = d.nodes[parent_id];
        slab_insert(&mut self.nodes, node);
        self.permanent_id_map.insert(pid_key(&pid), node_id);
        let parent_mut = slab_get_mut(&mut self.nodes, parent_id);
        let _ = parent_mut.add_child(name, pid, cid, size);
        proof {
            let m = spec_children(parent_view.data).unwrap();
            let entry = ChildMapEntryView { permanent_id: pid@, cid: cid@, size };
            let new_parent = NodeView {
                data: spec_with_children(parent_view.data, spec_insert_child(m, n.name, entry)),
                ..parent_view
            };
            let created = InnerDriveView {
                nodes: d.nodes.insert(node_id, n).insert(parent_id, new_parent),
                pids: d.pids.insert(spec_pid_key(pid@), node_id),
                ..d
            };
            assert(spec_create(d, owner_id, parent_permanent_id@, parent_permanent_id, builder, permanent_id@, now) == Ok::<
                (InnerDriveView, NodeId),
                OperationErrorView,
            >((created, node_id)));
            let cur = self@;
            assert(cur.nodes.dom() =~= created.nodes.dom());
            assert forall|id: NodeId| #[trigger] created.nodes.contains_key(id) implies spec_node_same_structure(
                created.nodes[id],
                cur.nodes[id],
            ) by {
                match created.nodes[id].data {
                    NodeDataView::File { .. } => {},
                    NodeDataView::Directory { .. } => {},
                    NodeDataView::AssociatedData { .. } => {},
                }
            }
            assert(spec_same_structure(created, cur));
            assert(spec_inner_wf(created)) by {
                assert(node_id != parent_id);
                assert forall|id: NodeId| #[trigger] created.nodes.contains_key(id) implies created.nodes[id].id == id
                    && created.nodes[id].permanent_id.len() == 16 && !(created.nodes[id].data is AssociatedData)
                    && created.pids.contains_key(spec_pid_key(created.nodes[id].permanent_id)) && created.pids[spec_pid_key(
                    created.nodes[id].permanent_id,
                )] == id by {
                    if id != node_id {
                        assert(d.nodes.contains_key(id));
                        if spec_pid_key(d.nodes[id].permanent_id) == spec_pid_key(pid@) {
                            lemma_pid_key_injective(d.nodes[id].permanent_id, pid@);
                        }
                    }
                }
                assert forall|k: u128| #[trigger] created.pids.contains_key(k) implies created.nodes.contains_key(
                    created.pids[k],
                ) && spec_pid_key(created.nodes[created.pids[k]].permanent_id) == k by {
                    if k != spec_pid_key(pid@) {
                        assert(d.pids.contains_key(k));
                    }
                }
            }
            lemma_same_structure_keeps(created, cur, parent_id, created.nodes.dom().len());
        }
        let ghost before_mark = self@;
        let marked = self.mark_ancestors_dirty(parent_id);
        proof {
            lemma_same_structure_trans(
                InnerDriveView {
                    nodes: d.nodes.insert(node_id, n).insert(
                        parent_id,
                        NodeView {
                            data: spec_with_children(
                                d.nodes[parent_id].data,
                                spec_insert_child(
                                    spec_children(d.nodes[parent_id].data).unwrap(),
                                    n.name,
                                    ChildMapEntryView { permanent_id: pid@, cid: cid@, size },
                                ),
                            ),
                            ..d.nodes[parent_id]
                        },
                    ),
                    pids: d.pids.insert(spec_pid_key(pid@), node_id),
                    ..d
                },
                before_mark,
                self@,
            );
        }
        match marked {
            Ok(()) => Ok(pid),
            Err(e) => Err(e),
        }
    }

    /// Replaces what node `node_id` holds by a file with default permissions and `content`.
    /// The parents' records of the node are brought up to date by the next clean-up.
    pub fn set_file_content(&mut self, node_id: NodeId, content: FileContent) -> (r: Result<(), OperationError>)
        requires
            spec_inner_wf(old(self)@),
        ensures
            spec_inner_wf(final(self)@),
            match spec_by_id(old(self)@, node_id) {
                Err(e) => r matches Err(x) && x@ == e && final(self)@ == old(self)@,
                Ok(n) => r is Ok && final(self)@ == spec_with_node(
                    old(self)@,
                    node_id,
                    NodeView {
                        data: NodeDataView::File {
                            permissions: crate::filesystem::nodes::node_data::spec_default_permissions(),
                            associated_data: Seq::empty(),
                            content: content@,
                        },
                        ..n
                    },
                ),
            },
    {
        if slab_get(&self.nodes, node_id).is_none() {
            return Err(OperationError::InternalCorruption(node_id, "missing expected node ID"));
        }
        let ghost d = self@;
        let data = NodeData::full_file(content);
        let node = slab_get_mut(&mut self.nodes, node_id);
        node.inner = data;
        proof {
            lemma_wf_set_node(d, node_id, self@.nodes[node_id]);
            assert(self@ == spec_with_node(d, node_id, self@.nodes[node_id]));
        }
        Ok(())
    }

    /// Creates a node from `builder` below the node with permanent ID `parent_permanent_id`
    /// with a fresh random permanent ID, created now. In the unlikely event that the drawn ID
    /// is taken, nothing changes and the creation is refused.
    pub fn create_node(
        &mut self,
        rng: &mut ChaCha20Rng,
        owner_id: ActorId,
        parent_permanent_id: PermanentId,
        builder: NodeBuilder,
    ) -> (r: Result<PermanentId, OperationError>)
        requires
            spec_inner_wf(old(self)@),
            builder.kind != NodeKind::AssociatedData,
        ensures
            (r matches Err(OperationError::Other(_)) && final(self)@ == old(self)@) || exists|pid: Seq<u8>, now: i64|
                spec_lookup(old(self)@, pid) is None && #[trigger] spec_create_outcome(
                    old(self)@,
                    final(self)@,
                    r,
                    owner_id,
                    parent_permanent_id,
                    builder,
                    pid,
                    now,
                ),
    {
        let permanent_id = PermanentId::generate(rng);
        if self.permanent_id_map.contains_key(&pid_key(&permanent_id)) {
            return Err(OperationError::Other("permanent id already in use"));
        }
        let now = current_time_ms();
        self.create_node_with(owner_id, parent_permanent_id, builder, permanent_id, now)
    }

    /// A drive holding only a root directory owned by `actor_id`, with the given permanent ID
    /// and creation time.
    pub fn initialize_with(actor_id: ActorId, access: DriveAccess, root_permanent_id: PermanentId, now: i64) -> (r: Result<InnerDrive, OperationError>)
        requires
            spec_actors_unique(access@.actors),
        ensures
            r matches Ok(d) && spec_inner_wf(d@) && d@.access == access@ && d@.root_pid == root_permanent_id@
                && d@.dirty.len() == 0 && exists|k: NodeId| d@.pids == map![spec_pid_key(root_permanent_id@) => k]
                && #[trigger] d@.nodes == map![k => spec_root_view(k, actor_id@, root_permanent_id@, now)],
    {
        let nodes = slab_with_capacity(32);
        let root_node_id = slab_vacant_key(&nodes);
        let root_node = match NodeBuilder::root().with_id(root_node_id).with_owner(actor_id).build_with(root_permanent_id, now) {
            Ok(n) => n,
            Err(e) => return Err(OperationError::CreationFailed(e)),
        };
        let root_pid = root_node.permanent_id();
        let mut permanent_id_map: HashMap<u128, NodeId> = HashMap::new();
        permanent_id_map.insert(pid_key(&root_pid), root_node_id);
        let mut nodes = nodes;
        slab_insert(&mut nodes, root_node);
        let d = InnerDrive { access, root_pid, nodes, permanent_id_map, dirty_nodes: Vec::new() };
        proof {
            assert(d@.pids =~= map![spec_pid_key(root_permanent_id@) => root_node_id]);
            assert(d@.nodes =~= map![root_node_id => spec_root_view(root_node_id, actor_id@, root_permanent_id@, now)]);
        }
        Ok(d)
    }

    /// A drive holding only a root directory owned by `actor_id`, with a fresh random
    /// permanent ID, created now.
    pub fn initialize(rng: &mut ChaCha20Rng, actor_id: ActorId, access: DriveAccess) -> (r: Result<InnerDrive, OperationError>)
        requires
            spec_actors_unique(access@.actors),
        ensures
            r matches Ok(d) && spec_inner_wf(d@) && d@.access == access@ && d@.dirty.len() == 0 && exists|k: NodeId, now: i64|
                d@.pids == map![spec_pid_key(d@.root_pid) => k] && #[trigger] d@.nodes == map![
                    k => spec_root_view(k, actor_id@, d@.root_pid, now),
                ],
    {
        let root_permanent_id = PermanentId::generate(rng);
        let now = current_time_ms();
        Self::initialize_with(actor_id, access, root_permanent_id, now)
    }

    /// Removes the node with permanent ID `perm_id` and everything below it, and returns the
    /// CIDs of the data blocks the removed nodes referenced, if there were any. The node is
    /// first dropped from its parent, which is recorded as changed with its ancestors; then the
    /// node and its descendants leave the table and the index, last listed first.
    pub fn remove_node(&mut self, perm_id: PermanentId) -> (r: Result<Option<Vec<Cid>>, OperationError>)
        requires
            spec_inner_wf(old(self)@),
        ensures
            spec_inner_wf(final(self)@),
            match spec_remove_prepare(old(self)@, perm_id@) {
                Err(e) => r matches Err(x) && x@ == e && spec_same_structure(old(self)@, final(self)@),
                Ok((d1, _)) => {
                    let out = spec_remove_subtrees(d1, seq![perm_id@], Seq::empty(), d1.nodes.dom().len());
                    &&& spec_same_structure(out.0, final(self)@)
                    &&& final(self)@.dirty == d1.dirty
                    &&& match out.2 {
                        Some(e) => r matches Err(x) && x@ == e,
                        None => r matches Ok(c) && (out.1.len() == 0 ==> c is None) && (out.1.len() > 0 ==> (c matches Some(
                            v,
                        ) && v@.map_values(|x: Cid| x@) == out.1)),
                    }
                },
            },
    {
        let ghost d = self@;
        proof {
            lemma_same_structure_refl(d);
        }
        let target_node = self.by_perm_id(&perm_id)?;
        let parent_perm_id = match target_node.parent_id() {
            Some(p) => p,
            None => return Err(OperationError::OrphanNode(perm_id)),
        };
        let parent_id = self.lookup_internal_id(&parent_perm_id)?;
        self.mark_ancestors_dirty(parent_id)?;
        let ghost marked = self@;
        let parent = slab_get_mut(&mut self.nodes, parent_id);
        match parent.remove_permanent_id(&perm_id) {
            Ok(()) => {},
            Err(e) => {
                return Err(OperationError::NodeFailure(e));
            },
        }
        let ghost g0 = match spec_remove_prepare(d, perm_id@) {
            Ok((d1, _)) => d1,
            Err(_) => d,
        };
        proof {
            let cur = self@;
            assert(spec_remove_prepare(d, perm_id@) is Ok);
            assert(cur.nodes.dom() =~= g0.nodes.dom());
            assert forall|id: NodeId| #[trigger] g0.nodes.contains_key(id) implies spec_node_same_structure(g0.nodes[id], cur.nodes[id]) by {
                assert(d.nodes.contains_key(id));
                match g0.nodes[id].data {
                    NodeDataView::File { .. } => {},
                    NodeDataView::Directory { .. } => {},
                    NodeDataView::AssociatedData { .. } => {},
                }
            }
            assert(spec_same_structure(g0, cur));
            lemma_same_structure_keeps(g0, cur, parent_id, 0);
        }
        let mut stack: Vec<PermanentId> = Vec::new();
        stack.push(perm_id);
        let mut removed: Vec<Cid> = Vec::new();
        let ghost total = g0.nodes.dom().len();
        let ghost mut g = g0;
        let ghost mut fuel: nat = total;
        proof {
            assert(stack@.map_values(|p: PermanentId| p@) =~= seq![perm_id@]);
            assert(removed@.map_values(|c: Cid| c@) =~= Seq::<Seq<u8>>::empty());
        }
        while stack.len() > 0
            invariant
                d == old(self)@,
                spec_remove_prepare(d, perm_id@) == Ok::<(InnerDriveView, NodeId), OperationErrorView>((g0, parent_id)),
                total == g0.nodes.dom().len(),
                spec_inner_wf(self@),
                spec_same_structure(g, self@),
                self@.dirty == g0.dirty,
                g.dirty == g0.dirty,
                g.nodes.dom().finite(),
                g.nodes.dom().len() <= fuel,
                spec_remove_subtrees(g0, seq![perm_id@], Seq::empty(), total) == spec_remove_subtrees(
                    g,
                    stack@.map_values(|p: PermanentId| p@),
                    removed@.map_values(|c: Cid| c@),
                    fuel,
                ),
            decreases self@.nodes.dom().len(),
        {
            let ghost sv = stack@.map_values(|p: PermanentId| p@);
            let ghost rv = removed@.map_values(|c: Cid| c@);
            let p = stack.pop().unwrap();
            assert(sv.last() == p@ && sv.drop_last() =~= stack@.map_values(|q: PermanentId| q@));
            let k = pid_key(&p);
            let node_id = match self.permanent_id_map.remove(&k) {
                Some(id) => id,
                None => {
                    proof {
                        assert(self@.pids =~= g.pids);
                        assert(spec_lookup(g, p@) is None);
                        assert(self@.nodes == g.nodes || spec_same_structure(g, self@));
                    }
                    return Err(OperationError::MissingPermanentId(p));
                },
            };
            assert(spec_lookup(g, p@) == Some(node_id));
            let node = match slab_try_remove(&mut self.nodes, node_id) {
                Some(n) => n,
                None => {
                    return Err(OperationError::InternalCorruption(node_id, "missing node for removal"));
                },
            };
            proof {
                assert(g.nodes.contains_key(node_id));
                assert(spec_node_same_structure(g.nodes[node_id], node@));
            }
            let ghost gn = g.nodes[node_id];
            if let Some(cids) = node.data_cids() {
                let mut cids = cids;
                let ghost before = removed@;
                removed.append(&mut cids);
            }
            let mut children = node.ordered_child_pids();
            stack.append(&mut children);
            proof {
                let g2 = InnerDriveView { nodes: g.nodes.remove(node_id), pids: g.pids.remove(spec_pid_key(p@)), ..g };
                assert(fuel > 0);
                assert(spec_ordered_child_pids(gn.data) == spec_ordered_child_pids(node@.data)) by {
                    match gn.data {
                        NodeDataView::File { associated_data, .. } => {
                            lemma_same_structure_child_pids(associated_data, spec_children(node@.data).unwrap());
                        },
                        NodeDataView::Directory { children, .. } => {
                            lemma_same_structure_child_pids(children, spec_children(node@.data).unwrap());
                        },
                        NodeDataView::AssociatedData { .. } => {},
                    }
                }
                assert(spec_data_cids(gn) == spec_data_cids(node@)) by {
                    match gn.data {
                        NodeDataView::File { .. } => {},
                        NodeDataView::Directory { .. } => {},
                        NodeDataView::AssociatedData { .. } => {},
                    }
                }
                assert(stack@.map_values(|q: PermanentId| q@) =~= sv.drop_last() + spec_ordered_child_pids(gn.data));
                assert(removed@.map_values(|c: Cid| c@) =~= rv + spec_data_cids(gn));
                let cur = self@;
                assert(cur.nodes.dom() =~= g2.nodes.dom());
                assert forall|id: NodeId| #[trigger] g2.nodes.contains_key(id) implies spec_node_same_structure(g2.nodes[id], cur.nodes[id]) by {
                    assert(g.nodes.contains_key(id));
                }
                assert(spec_same_structure(g2, cur));
                assert(spec_inner_wf(g2)) by {
                    lemma_remove_subtrees_wf(g, seq![p@], Seq::empty(), 1);
                    assert(spec_remove_subtrees(g, seq![p@], Seq::<Seq<u8>>::empty(), 1).0 == spec_remove_subtrees(
                        g2,
                        spec_ordered_child_pids(gn.data),
                        spec_data_cids(gn),
                        0,
                    ).0);
                    assert(seq![p@].drop_last() + spec_ordered_child_pids(gn.data) =~= spec_ordered_child_pids(gn.data));
                    assert(Seq::<Seq<u8>>::empty() + spec_data_cids(gn) =~= spec_data_cids(gn));
                    if spec_ordered_child_pids(gn.data).len() > 0 {
                    }
                }
                lemma_same_structure_keeps(g2, cur, 0, 0);
                assert(g2.nodes.dom().len() == g.nodes.dom().len() - 1);
                g = g2;
                fuel = (fuel - 1) as nat;
            }
        }
        proof {
            assert(stack@.map_values(|q: PermanentId| q@) =~= Seq::<Seq<u8>>::empty());
        }
        if removed.len() == 0 {
            Ok(None)
        } else {
            Ok(Some(removed))
        }
    }
    /// Moves node `src_id` below node `dst_id` under the name `name` (see [`spec_move`]); the
    /// old and new parents and their ancestors are recorded as changed, and so is the node.
    #[verifier::spinoff_prover]
    #[verifier::rlimit(40)]
    pub fn move_node(&mut self, src_id: NodeId, dst_id: NodeId, name: NodeName) -> (r: Result<(), OperationError>)
        requires
            spec_inner_wf(old(self)@),
        ensures
            spec_inner_wf(final(self)@),
            spec_same_structure(spec_move(old(self)@, src_id, dst_id, name@).0, final(self)@),
            match spec_move(old(self)@, src_id, dst_id, name@).1 {
                Some(e) => r matches Err(x) && x@ == e,
                None => r is Ok,
            },
    {
        let ghost d = self@;
        let ghost fuel = d.nodes.dom().len();
        proof {
            lemma_same_structure_refl(d);
            lemma_by_id_in_table(d, src_id);
        }
        let src = self.by_id(src_id)?;
        let (cid, size) = node_entry(src)?;
        let src_name = src.name();
        let src_perm = src.permanent_id();
        let src_parent_perm = match src.parent_id() {
            Some(p) => p,
            None => return Err(OperationError::InternalCorruption(src_id, "src node has no parent")),
        };
        let sp = self.lookup_internal_id(&src_parent_perm)?;
        proof {
            lemma_lookup_finds_pid(d, src_parent_perm@);
        }
        self.mark_ancestors_dirty(sp)?;
        let ghost a0 = self@;
        assert(spec_drive_times_only(d, a0));
        let removed = {
            let parent = slab_get_mut(&mut self.nodes, sp);
            parent.remove_child(&src_name)
        };
        if removed.is_err() {
            proof {
                assert(self@.nodes =~= a0.nodes);
                lemma_times_only_same_structure(d, self@);
            }
            return Err(OperationError::InternalCorruption(sp, "Could not remove target from parent"));
        }
        let ghost m = spec_children(d.nodes[sp].data).unwrap();
        let ghost i = spec_find_name(m, src_name@).unwrap();
        let ghost e1 = spec_with_node_children(d, sp, m.remove(i));
        let ghost a1 = self@;
        proof {
            lemma_times_only_set_data(d, a0, sp, a1.nodes[sp], m.remove(i));
            assert(a1 == spec_with_node(a0, sp, a1.nodes[sp]));
            lemma_wf_set_node(a0, sp, a1.nodes[sp]);
            lemma_times_only_same_structure(e1, a1);
            lemma_same_structure_keeps(e1, a1, dst_id, fuel);
        }
        let dst_perm = self.by_id(dst_id)?.permanent_id();
        self.mark_ancestors_dirty(dst_id)?;
        let ghost a2 = self@;
        proof {
            lemma_times_only_trans(e1, a1, a2);
        }
        let added = {
            let dst = slab_get_mut(&mut self.nodes, dst_id);
            dst.add_child(name.clone(), src_perm, cid, size)
        };
        match added {
            Ok(()) => {},
            Err(e) => {
                proof {
                    assert(self@.nodes =~= a2.nodes);
                    lemma_times_only_same_structure(e1, self@);
                }
                return Err(OperationError::NodeFailure(e));
            },
        }
        let ghost m2 = spec_children(e1.nodes[dst_id].data).unwrap();
        let ghost entry = ChildMapEntryView { permanent_id: src_perm@, cid: cid@, size };
        let ghost e2 = spec_with_node_children(e1, dst_id, spec_insert_child(m2, name@, entry));
        let ghost a3 = self@;
        proof {
            lemma_times_only_set_data(e1, a2, dst_id, a3.nodes[dst_id], spec_insert_child(m2, name@, entry));
            assert(a3 == spec_with_node(a2, dst_id, a3.nodes[dst_id]));
            lemma_wf_set_node(a2, dst_id, a3.nodes[dst_id]);
            lemma_times_only_same_structure(e2, a3);
            lemma_same_structure_keeps(e2, a3, src_id, fuel);
        }
        self.mark_ancestors_dirty(src_id)?;
        let ghost a4 = self@;
        proof {
            lemma_times_only_trans(e2, a3, a4);
        }
        {
            let node = slab_get_mut(&mut self.nodes, src_id);
            node.set_parent_id(dst_perm);
            node.set_name(name);
        }
        let ghost e3 = spec_with_node(e2, src_id, NodeView { parent_id: Some(dst_perm@), name: name@, ..e2.nodes[src_id] });
        proof {
            let a5 = self@;
            assert(a5 == spec_with_node(a4, src_id, a5.nodes[src_id]));
            lemma_wf_set_node(a4, src_id, a5.nodes[src_id]);
            assert(e3.nodes.dom() =~= a5.nodes.dom());
            assert forall|k: NodeId| #[trigger] e3.nodes.contains_key(k) implies a5.nodes[k] == (NodeView {
                modified_at: a5.nodes[k].modified_at,
                ..e3.nodes[k]
            }) by {
                if k != src_id {
                    assert(e2.nodes.contains_key(k));
                }
            }
            lemma_times_only_same_structure(e3, a5);
        }
        Ok(())
    }
}

} // verus!
