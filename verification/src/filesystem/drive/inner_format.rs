//! The byte format of a drive's node tree: the root's permanent ID, the number of nodes and
//! the framed nodes, children before the parents that list them.

use std::collections::HashMap;
use vstd::bytes::*;
use slab::Slab;
use vstd::prelude::*;

use crate::codec::ids::PermanentId;
use crate::codec::parser::{EncodingError, le_u64, lemma_le_roundtrips, put_bytes, put_u64, spec_take, ErrorKind, ParseError, Parsed};
use crate::filesystem::drive::access::{spec_actors_unique, DriveAccess, DriveAccessView};
use crate::filesystem::drive::inner::{
    pid_key, slab_insert, slab_new, slab_vacant_key, spec_inner_wf, spec_lookup, spec_pid_key, InnerDrive, InnerDriveView,
    lemma_pid_key_injective, slab_nodes, slab_next_key,
};
use crate::filesystem::drive::operations::{OperationError, OperationErrorView};
use crate::filesystem::nodes::node::{
    lemma_node_roundtrip, spec_frame_node, spec_node_body, spec_node_encode_error, spec_node_encoding, spec_node_wf,
    spec_parse_node, Node, NodeId, NodeView,
};
use crate::filesystem::nodes::node_data::{spec_ordered_child_pids, NodeDataView};
use crate::utils::blake3_hash;

verus! {

broadcast use vstd::seq::group_seq_axioms, vstd::map::group_map_axioms, vstd::std_specs::hash::group_hash_axioms,
    vstd::array::group_array_axioms;

/// The node of drive `d` with permanent ID `p`.
pub open spec fn spec_node_of(d: InnerDriveView, p: Seq<u8>) -> NodeView {
    d.nodes[spec_lookup(d, p).unwrap()]
}

/// The encodings of the nodes with the permanent IDs `order`, one after the other.
pub open spec fn spec_nodes_encoding(d: InnerDriveView, order: Seq<Seq<u8>>) -> Seq<u8>
    decreases order.len(),
{
    if order.len() == 0 {
        Seq::empty()
    } else {
        spec_nodes_encoding(d, order.drop_last()) + spec_node_encoding(spec_node_of(d, order.last()))
    }
}

/// The encoding of drive `d` with its nodes written in the order `order`: the root's permanent
/// ID, the number of nodes as a little-endian `u64`, and the framed nodes.
pub open spec fn spec_drive_encoding(d: InnerDriveView, order: Seq<Seq<u8>>) -> Seq<u8> {
    d.root_pid + spec_u64_to_le_bytes(order.len() as u64) + spec_nodes_encoding(d, order)
}

/// An order in which the nodes of `d` are written: permanent IDs of stored nodes, each once,
/// the root among them, and every child of a listed node listed too.
pub open spec fn spec_encoding_order(d: InnerDriveView, order: Seq<Seq<u8>>) -> bool {
    &&& order.no_duplicates()
    &&& order.contains(d.root_pid)
    &&& forall|i: int| 0 <= i < order.len() ==> (#[trigger] order[i]).len() == 16 && spec_lookup(d, order[i]) is Some
    &&& forall|i: int, j: int|
        0 <= i < order.len() && 0 <= j < spec_ordered_child_pids(spec_node_of(d, order[i]).data).len() ==> order.contains(
            #[trigger] spec_ordered_child_pids(spec_node_of(d, order[i]).data)[j],
        )
}

/// Every child a node of `d` lists is stored in `d`.
pub open spec fn spec_drive_closed(d: InnerDriveView) -> bool {
    forall|id: NodeId, j: int|
        d.nodes.contains_key(id) && 0 <= j < spec_ordered_child_pids(d.nodes[id].data).len() ==> spec_lookup(
            d,
            #[trigger] spec_ordered_child_pids(d.nodes[id].data)[j],
        ) is Some
}

/// Every node of `d` can be encoded.
pub open spec fn spec_drive_encodable(d: InnerDriveView) -> bool {
    forall|id: NodeId| #[trigger] d.nodes.contains_key(id) ==> spec_node_encode_error(d.nodes[id]) is None
}

/// The permanent IDs of a list of nodes.
pub open spec fn spec_pids_of(ns: Seq<NodeView>) -> Seq<Seq<u8>> {
    ns.map_values(|n: NodeView| n.permanent_id)
}

/// Reading `count` framed nodes, each given position 0: the nodes read, in order. A node whose
/// permanent ID was read before makes the input invalid.
pub open spec fn spec_parse_nodes(s: Seq<u8>, count: nat) -> Parsed<Seq<NodeView>>
    decreases count,
{
    if count == 0 {
        Parsed::Done(0, Seq::empty())
    } else {
        match spec_parse_nodes(s, (count - 1) as nat) {
            Parsed::Done(n, ns) => match spec_parse_node(s.skip(n as int), 0) {
                Parsed::Done(m, node) => if spec_pids_of(ns).contains(node.permanent_id) {
                    Parsed::Invalid
                } else {
                    Parsed::Done(n + m, ns.push(node))
                },
                Parsed::Incomplete => Parsed::Incomplete,
                Parsed::Invalid => Parsed::Invalid,
            },
            Parsed::Incomplete => Parsed::Incomplete,
            Parsed::Invalid => Parsed::Invalid,
        }
    }
}

/// Reading a drive's node tree: the root's permanent ID and the nodes, each given position 0.
/// A tree whose root is not among its nodes is invalid.
pub open spec fn spec_parse_drive(s: Seq<u8>) -> Parsed<(Seq<u8>, Seq<NodeView>)> {
    if s.len() < 24 {
        Parsed::Incomplete
    } else {
        let root = s.take(16);
        let count = spec_u64_from_le_bytes(s.subrange(16, 24));
        match spec_parse_nodes(s.skip(24), count as nat) {
            Parsed::Done(n, ns) => if spec_pids_of(ns).contains(root) {
                Parsed::Done(24 + n, (root, ns))
            } else {
                Parsed::Invalid
            },
            Parsed::Incomplete => Parsed::Incomplete,
            Parsed::Invalid => Parsed::Invalid,
        }
    }
}

/// The nodes with the permanent IDs `order`, each at position 0.
pub open spec fn spec_order_nodes(d: InnerDriveView, order: Seq<Seq<u8>>) -> Seq<NodeView> {
    order.map_values(|p: Seq<u8>| NodeView { id: 0, ..spec_node_of(d, p) })
}

/// The permanent IDs of a list, as byte sequences.
pub open spec fn spec_pid_views(v: Seq<PermanentId>) -> Seq<Seq<u8>> {
    v.map_values(|p: PermanentId| p@)
}

/// The permanent IDs that the node with permanent ID `p` lists as its children.
pub open spec fn spec_kids(d: InnerDriveView, p: Seq<u8>) -> Seq<Seq<u8>> {
    spec_ordered_child_pids(spec_node_of(d, p).data)
}

/// The children listings of `d` form a tree below the root: no permanent ID is listed twice,
/// by one node or by two, and none lists the root.
pub open spec fn spec_tree_shaped(d: InnerDriveView) -> bool {
    &&& forall|a: NodeId, i: int, b: NodeId, j: int|
        #![trigger spec_ordered_child_pids(d.nodes[a].data)[i], spec_ordered_child_pids(d.nodes[b].data)[j]]
        d.nodes.contains_key(a) && d.nodes.contains_key(b) && 0 <= i < spec_ordered_child_pids(d.nodes[a].data).len() && 0 <= j
            < spec_ordered_child_pids(d.nodes[b].data).len() && spec_ordered_child_pids(d.nodes[a].data)[i]
            == spec_ordered_child_pids(d.nodes[b].data)[j] ==> a == b && i == j
    &&& forall|a: NodeId, i: int|
        d.nodes.contains_key(a) && 0 <= i < spec_ordered_child_pids(d.nodes[a].data).len() ==> #[trigger] spec_ordered_child_pids(
            d.nodes[a].data,
        )[i] != d.root_pid
}

/// In `order`, every child a listed node lists comes before that node.
pub open spec fn spec_children_first(d: InnerDriveView, order: Seq<Seq<u8>>) -> bool {
    forall|i: int, j: int|
        0 <= i < order.len() && 0 <= j < spec_kids(d, order[i]).len() ==> order.take(i).contains(
            #[trigger] spec_kids(d, order[i])[j],
        )
}

/// Creating a node in a drive that is tree-shaped, whose listed children are all stored and
/// whose root is stored keeps it so: the new node, stored at the table's free position, lists
/// nothing and is listed once, by its parent.
pub proof fn lemma_create_keeps_tree(
    d: InnerDriveView,
    owner: crate::codec::ids::ActorId,
    parent_pid: Seq<u8>,
    parent_exec: PermanentId,
    b: crate::filesystem::nodes::node_builder::NodeBuilder,
    pid: Seq<u8>,
    now: i64,
)
    requires
        spec_inner_wf(d),
        spec_tree_shaped(d),
        spec_drive_closed(d),
        spec_lookup(d, d.root_pid) is Some,
        !d.nodes.contains_key(d.next_key),
        spec_lookup(d, pid) is None,
        crate::filesystem::drive::inner::spec_create(d, owner, parent_pid, parent_exec, b, pid, now) is Ok,
    ensures
        ({
            let c = crate::filesystem::drive::inner::spec_create(d, owner, parent_pid, parent_exec, b, pid, now)->Ok_0.0;
            &&& spec_tree_shaped(c)
            &&& spec_drive_closed(c)
            &&& spec_lookup(c, c.root_pid) is Some
        }),
{
    let (c, k) = crate::filesystem::drive::inner::spec_create(d, owner, parent_pid, parent_exec, b, pid, now)->Ok_0;
    let pa = spec_lookup(d, parent_pid).unwrap();
    let parent = d.nodes[pa];
    let m = crate::filesystem::nodes::node_data::spec_children(parent.data).unwrap();
    let b2 = crate::filesystem::nodes::node_builder::NodeBuilder {
        parent_id: Some(parent_exec),
        id: Some(k),
        owner_id: Some(owner),
        ..b
    };
    let n = crate::filesystem::nodes::node_builder::spec_build(b2, pid, now).unwrap();
    assert(crate::filesystem::nodes::node_data::child_map::spec_find_name(m, n.name) is None);
    assert(crate::filesystem::nodes::node_data::child_map::spec_remove_name(m, n.name) == m);
    let q = crate::filesystem::nodes::node_data::child_map::spec_upper_bound(m, pid);
    crate::filesystem::nodes::node_data::child_map::lemma_upper_bound_from(m, pid, 0);
    let entry = c.nodes[pa];
    let m2 = crate::filesystem::nodes::node_data::spec_children(entry.data).unwrap();
    assert(m2 == m.insert(q, m2[q])) by {
        match parent.data {
            NodeDataView::File { .. } => {},
            NodeDataView::Directory { .. } => {},
            NodeDataView::AssociatedData { .. } => {},
        }
    }
    assert(m2[q].1.permanent_id == pid);
    let kids_old = spec_ordered_child_pids(parent.data);
    let kids_new = spec_ordered_child_pids(c.nodes[pa].data);
    assert(kids_new =~= kids_old.insert(q, pid));
    assert(pa != k);
    assert(c.nodes[k] == n);
    assert(crate::filesystem::nodes::node_data::spec_children(n.data) == Some(Seq::<crate::filesystem::nodes::node_data::child_map::ChildPair>::empty()));
    assert(spec_ordered_child_pids(c.nodes[k].data) =~= Seq::<Seq<u8>>::empty());
    assert(pid != d.root_pid);
    // Where a listing of `c` comes from in `d`, if it is not the new one.
    assert forall|x: NodeId, i: int|
        c.nodes.contains_key(x) && 0 <= i < spec_ordered_child_pids(c.nodes[x].data).len() && !(x == pa && i == q) implies {
        let i2 = if x == pa && i > q { i - 1 } else { i };
        &&& x != k
        &&& d.nodes.contains_key(x)
        &&& 0 <= i2 < spec_ordered_child_pids(d.nodes[x].data).len()
        &&& #[trigger] spec_ordered_child_pids(c.nodes[x].data)[i] == spec_ordered_child_pids(d.nodes[x].data)[i2]
    } by {
        if x == pa {
        } else {
            assert(c.nodes[x] == d.nodes[x]);
        }
    }
    // The new listing is the only one of `pid`.
    assert forall|x: NodeId, i: int|
        d.nodes.contains_key(x) && 0 <= i < spec_ordered_child_pids(d.nodes[x].data).len() implies #[trigger] spec_ordered_child_pids(
        d.nodes[x].data,
    )[i] != pid by {}
    assert forall|a: NodeId, i: int, bb: NodeId, j: int|
        #![trigger spec_ordered_child_pids(c.nodes[a].data)[i], spec_ordered_child_pids(c.nodes[bb].data)[j]]
        c.nodes.contains_key(a) && c.nodes.contains_key(bb) && 0 <= i < spec_ordered_child_pids(c.nodes[a].data).len() && 0 <= j
            < spec_ordered_child_pids(c.nodes[bb].data).len() && spec_ordered_child_pids(c.nodes[a].data)[i]
            == spec_ordered_child_pids(c.nodes[bb].data)[j] implies a == bb && i == j by {
        let na = a == pa && i == q;
        let nb = bb == pa && j == q;
        if na && nb {
        } else if na {
            let j2 = if bb == pa && j > q { j - 1 } else { j };
            assert(spec_ordered_child_pids(c.nodes[bb].data)[j] == spec_ordered_child_pids(d.nodes[bb].data)[j2]);
            assert(spec_ordered_child_pids(d.nodes[bb].data)[j2] != pid);
        } else if nb {
            let i2 = if a == pa && i > q { i - 1 } else { i };
            assert(spec_ordered_child_pids(c.nodes[a].data)[i] == spec_ordered_child_pids(d.nodes[a].data)[i2]);
            assert(spec_ordered_child_pids(d.nodes[a].data)[i2] != pid);
        } else {
            let i2 = if a == pa && i > q { i - 1 } else { i };
            let j2 = if bb == pa && j > q { j - 1 } else { j };
            assert(spec_ordered_child_pids(c.nodes[a].data)[i] == spec_ordered_child_pids(d.nodes[a].data)[i2]);
            assert(spec_ordered_child_pids(c.nodes[bb].data)[j] == spec_ordered_child_pids(d.nodes[bb].data)[j2]);
            assert(spec_ordered_child_pids(d.nodes[a].data)[i2] == spec_ordered_child_pids(d.nodes[bb].data)[j2]);
        }
    }
    assert forall|a: NodeId, i: int|
        c.nodes.contains_key(a) && 0 <= i < spec_ordered_child_pids(c.nodes[a].data).len() implies #[trigger] spec_ordered_child_pids(
        c.nodes[a].data,
    )[i] != c.root_pid by {
        if !(a == pa && i == q) {
            let i2 = if a == pa && i > q { i - 1 } else { i };
            assert(spec_ordered_child_pids(c.nodes[a].data)[i] == spec_ordered_child_pids(d.nodes[a].data)[i2]);
        }
    }
    assert forall|x: NodeId, j: int|
        c.nodes.contains_key(x) && 0 <= j < spec_ordered_child_pids(c.nodes[x].data).len() implies spec_lookup(
        c,
        #[trigger] spec_ordered_child_pids(c.nodes[x].data)[j],
    ) is Some by {
        if !(x == pa && j == q) {
            let j2 = if x == pa && j > q { j - 1 } else { j };
            assert(spec_ordered_child_pids(c.nodes[x].data)[j] == spec_ordered_child_pids(d.nodes[x].data)[j2]);
            let v = spec_ordered_child_pids(d.nodes[x].data)[j2];
            assert(spec_lookup(d, v) is Some);
            assert(spec_pid_key(v) != spec_pid_key(pid) || c.pids.contains_key(spec_pid_key(v)));
        }
    }
}

/// Drives of the same structure list the same children, so they are tree-shaped, closed and
/// rooted alike; in particular refreshing recorded CIDs and sizes keeps these properties.
pub proof fn lemma_same_structure_keeps_tree(a: InnerDriveView, b: InnerDriveView)
    requires
        crate::filesystem::drive::inner::spec_same_structure(a, b),
    ensures
        spec_tree_shaped(a) ==> spec_tree_shaped(b),
        spec_drive_closed(a) ==> spec_drive_closed(b),
        spec_lookup(a, a.root_pid) is Some ==> spec_lookup(b, b.root_pid) is Some,
{
    assert forall|x: NodeId| #[trigger] b.nodes.contains_key(x) implies spec_ordered_child_pids(b.nodes[x].data)
        == spec_ordered_child_pids(a.nodes[x].data) by {
        assert(a.nodes.contains_key(x));
        assert(crate::filesystem::drive::inner::spec_node_same_structure(a.nodes[x], b.nodes[x]));
        match a.nodes[x].data {
            NodeDataView::File { associated_data, .. } => {
                crate::filesystem::drive::inner::lemma_same_structure_child_pids(
                    associated_data,
                    crate::filesystem::nodes::node_data::spec_children(b.nodes[x].data).unwrap(),
                );
            },
            NodeDataView::Directory { children, .. } => {
                crate::filesystem::drive::inner::lemma_same_structure_child_pids(
                    children,
                    crate::filesystem::nodes::node_data::spec_children(b.nodes[x].data).unwrap(),
                );
            },
            NodeDataView::AssociatedData { .. } => {},
        }
    }
}

/// A drive holding only its root directory is tree-shaped, closed and rooted.
pub proof fn lemma_new_drive_is_tree(d: InnerDriveView, k: NodeId, owner: Seq<u8>, now: i64)
    requires
        d.pids == map![spec_pid_key(d.root_pid) => k],
        d.nodes == map![k => crate::filesystem::drive::inner::spec_root_view(k, owner, d.root_pid, now)],
    ensures
        spec_tree_shaped(d),
        spec_drive_closed(d),
        spec_lookup(d, d.root_pid) is Some,
{
    assert(spec_ordered_child_pids(d.nodes[k].data) =~= Seq::<Seq<u8>>::empty());
}

/// What the walk of the encoder keeps on a tree-shaped drive: found and pending IDs are all
/// distinct, each but the root is listed by a node already found, and each child of a found
/// node is pending or found after it.
pub open spec fn spec_walk_tree_state(d: InnerDriveView, o: Seq<Seq<u8>>, q: Seq<Seq<u8>>) -> bool {
    &&& (o + q).no_duplicates()
    &&& forall|x: Seq<u8>|
        (o + q).contains(x) && x != d.root_pid ==> exists|i: int| 0 <= i < o.len() && #[trigger] spec_kids(d, o[i]).contains(x)
    &&& forall|i: int, j: int|
        0 <= i < o.len() && 0 <= j < spec_kids(d, o[i]).len() ==> q.contains(#[trigger] spec_kids(d, o[i])[j]) || exists|k: int|
            i < k < o.len() && o[k] == spec_kids(d, o[i])[j]
    &&& forall|i: int| 0 <= i < o.len() ==> (#[trigger] o[i]).len() == 16 && spec_lookup(d, o[i]) is Some
}

/// Two found IDs that list the same child are the same.
proof fn lemma_one_parent(d: InnerDriveView, x: Seq<u8>, y: Seq<u8>, i: int, j: int)
    requires
        spec_inner_wf(d),
        spec_tree_shaped(d),
        x.len() == 16 && spec_lookup(d, x) is Some,
        y.len() == 16 && spec_lookup(d, y) is Some,
        0 <= i < spec_kids(d, x).len(),
        0 <= j < spec_kids(d, y).len(),
        spec_kids(d, x)[i] == spec_kids(d, y)[j],
    ensures
        x == y && i == j,
{
    crate::filesystem::drive::inner::lemma_lookup_finds_pid(d, x);
    crate::filesystem::drive::inner::lemma_lookup_finds_pid(d, y);
    let a = spec_lookup(d, x).unwrap();
    let b = spec_lookup(d, y).unwrap();
    assert(spec_ordered_child_pids(d.nodes[a].data)[i] == spec_ordered_child_pids(d.nodes[b].data)[j]);
}

/// Finding the pending ID `x` on a tree-shaped drive keeps the walk's state.
proof fn lemma_walk_tree_step(d: InnerDriveView, o: Seq<Seq<u8>>, q: Seq<Seq<u8>>, x: Seq<u8>)
    requires
        spec_inner_wf(d),
        spec_tree_shaped(d),
        spec_walk_tree_state(d, o, q),
        q.len() > 0,
        x == q.last(),
        x.len() == 16,
        spec_lookup(d, x) is Some,
    ensures
        spec_walk_tree_state(d, o.push(x), q.drop_last() + spec_kids(d, x)),
{
    let cs = spec_kids(d, x);
    let o2 = o.push(x);
    let q2 = q.drop_last() + cs;
    let all = o + q;
    let all2 = o2 + q2;
    assert(all.contains(x)) by {
        assert(all[o.len() + q.len() - 1] == x);
    }
    assert(!o.contains(x)) by {
        if o.contains(x) {
            let k = choose|k: int| 0 <= k < o.len() && o[k] == x;
            assert(all[k] == x && all[o.len() + q.len() - 1] == x);
        }
    }
    // No child of `x` was met before.
    assert forall|j: int| 0 <= j < cs.len() implies !all.contains(#[trigger] cs[j]) by {
        crate::filesystem::drive::inner::lemma_lookup_finds_pid(d, x);
        let a = spec_lookup(d, x).unwrap();
        assert(cs[j] == spec_ordered_child_pids(d.nodes[a].data)[j]);
        assert(cs[j] != d.root_pid);
        if all.contains(cs[j]) {
            let i = choose|i: int| 0 <= i < o.len() && #[trigger] spec_kids(d, o[i]).contains(cs[j]);
            let jj = choose|jj: int| 0 <= jj < spec_kids(d, o[i]).len() && spec_kids(d, o[i])[jj] == cs[j];
            lemma_one_parent(d, o[i], x, jj, j);
        }
    }
    assert(all2.no_duplicates()) by {
        assert forall|a: int, b: int| 0 <= a < all2.len() && 0 <= b < all2.len() && a != b implies all2[a] != all2[b] by {
            let n = o.len() as int;
            let m = q.len() - 1;
            // positions in all2: [0, n) from o, n is x, (n, n + m] from q's first m, then cs
            let f = |t: int| if t < n { t } else if t == n { n + m } else if t <= n + m { t - 1 } else { -1 };
            if a <= n + m && b <= n + m {
                assert(all2[a] == all[f(a)]);
                assert(all2[b] == all[f(b)]);
            } else if a > n + m && b > n + m {
                let ja = a - n - 1 - m;
                let jb = b - n - 1 - m;
                assert(all2[a] == cs[ja] && all2[b] == cs[jb]);
                if cs[ja] == cs[jb] {
                    lemma_one_parent(d, x, x, ja, jb);
                }
            } else if a > n + m {
                let ja = a - n - 1 - m;
                assert(all2[a] == cs[ja]);
                assert(all2[b] == all[f(b)]);
                assert(!all.contains(cs[ja]));
            } else {
                let jb = b - n - 1 - m;
                assert(all2[b] == cs[jb]);
                assert(all2[a] == all[f(a)]);
                assert(!all.contains(cs[jb]));
            }
        }
    }
    assert forall|y: Seq<u8>| all2.contains(y) && y != d.root_pid implies exists|i: int|
        0 <= i < o2.len() && #[trigger] spec_kids(d, o2[i]).contains(y) by {
        let t = choose|t: int| 0 <= t < all2.len() && all2[t] == y;
        let n = o.len() as int;
        let m = q.len() - 1;
        if t > n + m {
            let jt = t - n - 1 - m;
            assert(cs[jt] == y);
            assert(o2[n] == x);
            assert(spec_kids(d, o2[n]).contains(y));
        } else {
            let ft = if t < n { t } else if t == n { n + m } else { t - 1 };
            assert(all[ft] == y);
            assert(all.contains(y));
            let i = choose|i: int| 0 <= i < o.len() && #[trigger] spec_kids(d, o[i]).contains(y);
            assert(o2[i] == o[i]);
        }
    }
    assert forall|i: int, j: int| 0 <= i < o2.len() && 0 <= j < spec_kids(d, o2[i]).len() implies q2.contains(
        #[trigger] spec_kids(d, o2[i])[j],
    ) || exists|k: int| i < k < o2.len() && o2[k] == spec_kids(d, o2[i])[j] by {
        let c = spec_kids(d, o2[i])[j];
        if i < o.len() {
            assert(o2[i] == o[i]);
            if q.contains(c) {
                let t = choose|t: int| 0 <= t < q.len() && q[t] == c;
                if t == q.len() - 1 {
                    assert(o2[o.len() as int] == c);
                } else {
                    assert(q2[t] == c);
                }
            } else {
                let k = choose|k: int| i < k < o.len() && o[k] == c;
                assert(o2[k] == c);
            }
        } else {
            assert(o2[i] == x);
            assert(q2[q.len() - 1 + j] == c);
        }
    }
    assert forall|i: int| 0 <= i < o2.len() implies (#[trigger] o2[i]).len() == 16 && spec_lookup(d, o2[i]) is Some by {
        if i < o.len() {
            assert(o2[i] == o[i]);
        }
    }
}

/// Read back to front, a found list whose every child was found after its parent lists
/// children first.
proof fn lemma_reversed_children_first(d: InnerDriveView, o: Seq<Seq<u8>>, order: Seq<Seq<u8>>)
    requires
        spec_walk_tree_state(d, o, Seq::empty()),
        order.len() == o.len(),
        forall|i: int| 0 <= i < order.len() ==> order[i] == o[o.len() - 1 - i],
    ensures
        spec_children_first(d, order),
{
    let n = o.len();
    assert forall|i: int, j: int|
        0 <= i < order.len() && 0 <= j < spec_kids(d, order[i]).len() implies order.take(i).contains(
            #[trigger] spec_kids(d, order[i])[j],
        ) by {
        let oi = n - 1 - i;
        assert(order[i] == o[oi]);
        let c = spec_kids(d, o[oi])[j];
        assert(!Seq::<Seq<u8>>::empty().contains(c));
        let k = choose|k: int| oi < k < n && o[k] == c;
        assert(order[n - 1 - k] == c);
        assert(order.take(i)[n - 1 - k] == c);
    }
    assert(spec_children_first(d, order));
}

/// Distinct permanent IDs of stored nodes are no more than the nodes stored.
proof fn lemma_distinct_pids_bound(d: InnerDriveView, s: Seq<Seq<u8>>)
    requires
        spec_inner_wf(d),
        s.no_duplicates(),
        forall|i: int| 0 <= i < s.len() ==> (#[trigger] s[i]).len() == 16 && spec_lookup(d, s[i]) is Some,
    ensures
        s.len() <= d.nodes.dom().len(),
{
    let ids = s.map_values(|p: Seq<u8>| spec_lookup(d, p).unwrap());
    assert forall|i: int, j: int| 0 <= i < ids.len() && 0 <= j < ids.len() && i != j implies ids[i] != ids[j] by {
        crate::filesystem::drive::inner::lemma_lookup_finds_pid(d, s[i]);
        crate::filesystem::drive::inner::lemma_lookup_finds_pid(d, s[j]);
    }
    assert(ids.no_duplicates());
    ids.unique_seq_to_set();
    assert forall|x: NodeId| ids.to_set().contains(x) implies d.nodes.dom().contains(x) by {
        let i = choose|i: int| 0 <= i < ids.len() && ids[i] == x;
        crate::filesystem::drive::inner::lemma_lookup_finds_pid(d, s[i]);
    }
    vstd::set_lib::lemma_len_subset(ids.to_set(), d.nodes.dom());
}

/// Where `p` stands in `v`, if it does.
fn position_of(v: &Vec<PermanentId>, p: &PermanentId) -> (r: Option<usize>)
    ensures
        match r {
            Some(i) => i < v@.len() && v@[i as int]@ == p@,
            None => !spec_pid_views(v@).contains(p@),
        },
{
    let mut i: usize = 0;
    while i < v.len()
        invariant
            i <= v@.len(),
            forall|j: int| 0 <= j < i ==> v@[j]@ != p@,
        decreases v@.len() - i,
    {
        if v[i].equals(p) {
            return Some(i);
        }
        i = i + 1;
    }
    proof {
        assert forall|j: int| 0 <= j < v@.len() implies spec_pid_views(v@)[j] != p@ by {}
    }
    None
}

/// The encoding of the first `k` nodes of an order is a prefix of the encoding of all of them.
proof fn lemma_nodes_encoding_prefix(d: InnerDriveView, order: Seq<Seq<u8>>, k: int) -> (tail: Seq<u8>)
    requires
        0 <= k <= order.len(),
    ensures
        spec_nodes_encoding(d, order) == spec_nodes_encoding(d, order.take(k)) + tail,
    decreases order.len(),
{
    if k == order.len() {
        assert(order.take(k) =~= order);
        assert(spec_nodes_encoding(d, order) + Seq::<u8>::empty() =~= spec_nodes_encoding(d, order));
        Seq::empty()
    } else {
        let t = lemma_nodes_encoding_prefix(d, order.drop_last(), k);
        assert(order.drop_last().take(k) =~= order.take(k));
        let tail = t + spec_node_encoding(spec_node_of(d, order.last()));
        assert(spec_nodes_encoding(d, order) =~= spec_nodes_encoding(d, order.take(k)) + tail);
        tail
    }
}

/// The conditions under which a drive reads back as written: a well-formed drive of
/// well-formed nodes that can all be encoded, written in an encoding order whose length fits
/// the node count.
pub open spec fn spec_round_trips(d: InnerDriveView, order: Seq<Seq<u8>>) -> bool {
    &&& spec_inner_wf(d)
    &&& spec_encoding_order(d, order)
    &&& order.len() <= u64::MAX
    &&& forall|id: NodeId| #[trigger] d.nodes.contains_key(id) ==> spec_node_wf(d.nodes[id]) && spec_node_encode_error(d.nodes[id]) is None
}

#[verifier::spinoff_prover]
#[verifier::rlimit(100)]
proof fn lemma_parse_nodes_of_encoding(d: InnerDriveView, order: Seq<Seq<u8>>, rest: Seq<u8>, k: nat)
    requires
        spec_round_trips(d, order),
        k <= order.len(),
    ensures
        spec_parse_nodes(spec_nodes_encoding(d, order) + rest, k) == Parsed::Done(
            spec_nodes_encoding(d, order.take(k as int)).len(),
            spec_order_nodes(d, order.take(k as int)),
        ),
    decreases k,
{
    if k == 0 {
        assert(order.take(0) =~= Seq::<Seq<u8>>::empty());
        assert(spec_order_nodes(d, order.take(0)) =~= Seq::<NodeView>::empty());
    } else {
        lemma_parse_nodes_of_encoding(d, order, rest, (k - 1) as nat);
        lemma_order_prefix_pids(d, order, k);
        let p = order[k - 1];
        crate::filesystem::drive::inner::lemma_lookup_finds_pid(d, p);
        assert(d.nodes.contains_key(spec_lookup(d, p).unwrap()));
        lemma_parse_nodes_step(d, order, rest, k);
    }
}

/// The permanent IDs of the nodes of an order's first `k - 1` entries are those entries, and
/// the `k`-th entry is not among them.
proof fn lemma_order_prefix_pids(d: InnerDriveView, order: Seq<Seq<u8>>, k: nat)
    requires
        spec_round_trips(d, order),
        0 < k <= order.len(),
    ensures
        spec_pids_of(spec_order_nodes(d, order.take(k - 1))) == order.take(k - 1),
        !order.take(k - 1).contains(order[k - 1]),
{
    let pre = order.take(k - 1);
    let p = order[k - 1];
    assert forall|i: int| 0 <= i < pre.len() implies spec_pids_of(spec_order_nodes(d, pre))[i] == pre[i] by {
        assert(pre[i] == order[i]);
        crate::filesystem::drive::inner::lemma_lookup_finds_pid(d, order[i]);
    }
    assert(spec_pids_of(spec_order_nodes(d, pre)) =~= pre);
    assert(!pre.contains(p)) by {
        if pre.contains(p) {
            let j = choose|j: int| 0 <= j < pre.len() && pre[j] == p;
            assert(order[j] == order[k - 1]);
        }
    }
}

/// One more node of the encoding is read back, given the nodes before it were.
#[verifier::spinoff_prover]
#[verifier::rlimit(100)]
proof fn lemma_parse_nodes_step(d: InnerDriveView, order: Seq<Seq<u8>>, rest: Seq<u8>, k: nat)
    requires
        0 < k <= order.len(),
        spec_node_wf(spec_node_of(d, order[k - 1])),
        spec_node_encode_error(spec_node_of(d, order[k - 1])) is None,
        spec_node_of(d, order[k - 1]).permanent_id == order[k - 1],
        spec_parse_nodes(spec_nodes_encoding(d, order) + rest, (k - 1) as nat) == Parsed::Done(
            spec_nodes_encoding(d, order.take(k - 1)).len(),
            spec_order_nodes(d, order.take(k - 1)),
        ),
        spec_pids_of(spec_order_nodes(d, order.take(k - 1))) == order.take(k - 1),
        !order.take(k - 1).contains(order[k - 1]),
    ensures
        spec_parse_nodes(spec_nodes_encoding(d, order) + rest, k) == Parsed::Done(
            spec_nodes_encoding(d, order.take(k as int)).len(),
            spec_order_nodes(d, order.take(k as int)),
        ),
{
    let s = spec_nodes_encoding(d, order) + rest;
    let tail = lemma_nodes_encoding_prefix(d, order, k as int);
    let pre = order.take(k - 1);
    assert(order.take(k as int).drop_last() =~= pre);
    let p = order[k - 1];
    assert(order.take(k as int).last() == p);
    let n = spec_node_of(d, p);
    let l = spec_nodes_encoding(d, pre).len();
    assert(s.skip(l as int) =~= spec_node_encoding(n) + (tail + rest));
    lemma_node_roundtrip(n, blake3_hash(spec_node_body(n)), 0, tail + rest);
    assert(spec_order_nodes(d, order.take(k as int)) =~= spec_order_nodes(d, pre).push(NodeView { id: 0, ..n }));
}

/// A drive written in an encoding order reads back as its root's permanent ID and the nodes
/// of that order, each at position 0, whatever follows the encoding.
#[verifier::spinoff_prover]
#[verifier::rlimit(100)]
pub proof fn lemma_drive_roundtrip(d: InnerDriveView, order: Seq<Seq<u8>>, rest: Seq<u8>)
    requires
        spec_round_trips(d, order),
    ensures
        spec_parse_drive(spec_drive_encoding(d, order) + rest) == Parsed::Done(
            spec_drive_encoding(d, order).len(),
            (d.root_pid, spec_order_nodes(d, order)),
        ),
{
    lemma_le_roundtrips();
    let e = spec_drive_encoding(d, order);
    let s = e + rest;
    lemma_parse_nodes_of_encoding(d, order, rest, order.len());
    assert(order.take(order.len() as int) =~= order);
    assert(s.take(16) =~= d.root_pid);
    assert(s.subrange(16, 24) =~= spec_u64_to_le_bytes(order.len() as u64));
    assert(s.skip(24) =~= spec_nodes_encoding(d, order) + rest);
    let q = choose|q: int| 0 <= q < order.len() && order[q] == d.root_pid;
    crate::filesystem::drive::inner::lemma_lookup_finds_pid(d, order[q]);
    assert(spec_pids_of(spec_order_nodes(d, order))[q] == d.root_pid);
}

impl InnerDrive {
    /// Appends the encoding of the node tree and returns its length. The nodes are listed by
    /// walking the tree depth first from the root, each node once; the list is written last
    /// found first, so that children come before the parents that list them.
    #[verifier::spinoff_prover]
    #[verifier::rlimit(60)]
    pub fn encode(&self, out: &mut Vec<u8>) -> (r: Result<usize, OperationError>)
        requires
            spec_inner_wf(self@),
        ensures
            match r {
                Ok(n) => exists|order: Seq<Seq<u8>>|
                    #[trigger] spec_encoding_order(self@, order) && final(out)@ == old(out)@ + spec_drive_encoding(self@, order)
                        && n == spec_drive_encoding(self@, order).len() && (spec_tree_shaped(self@) ==> spec_children_first(
                        self@,
                        order,
                    )),
                Err(e) => final(out)@ == old(out)@ && (e@ is MissingPermanentId || e@ is Encoding),
            },
            (spec_drive_closed(self@) && spec_drive_encodable(self@) && spec_lookup(self@, self@.root_pid) is Some) ==> (r is Ok
                || (r matches Err(e) && e@ == OperationErrorView::Encoding(EncodingError::TooLarge) && exists|order: Seq<Seq<u8>>|
                #[trigger] spec_encoding_order(self@, order) && spec_drive_encoding(self@, order).len() > usize::MAX)),
    {
        let ghost d = self@;
        let ghost table = d.nodes.dom().len();
        let ghost owed = spec_drive_closed(d) && spec_drive_encodable(d) && spec_lookup(d, d.root_pid) is Some;
        let mut ordered: Vec<PermanentId> = Vec::new();
        let mut outstanding: Vec<PermanentId> = Vec::new();
        outstanding.push(self.root_pid);
        assert(spec_pid_views(outstanding@)[0] == d.root_pid);
        let ghost tree = spec_tree_shaped(d);
        proof {
            let q = spec_pid_views(outstanding@);
            assert(spec_pid_views(ordered@) + q =~= q);
            assert forall|x: Seq<u8>| (spec_pid_views(ordered@) + q).contains(x) && x != d.root_pid implies exists|i: int|
                0 <= i < spec_pid_views(ordered@).len() && #[trigger] spec_kids(d, spec_pid_views(ordered@)[i]).contains(x) by {
                let t = choose|t: int| 0 <= t < q.len() && q[t] == x;
            }
        }
        while outstanding.len() > 0
            invariant
                tree == spec_tree_shaped(d),
                tree ==> spec_walk_tree_state(d, spec_pid_views(ordered@), spec_pid_views(outstanding@)),
                d == self@,
                spec_inner_wf(d),
                table == d.nodes.dom().len(),
                owed == (spec_drive_closed(d) && spec_drive_encodable(d) && spec_lookup(d, d.root_pid) is Some),
                spec_pid_views(ordered@).no_duplicates(),
                forall|i: int| 0 <= i < ordered@.len() ==> spec_lookup(d, (#[trigger] ordered@[i])@) is Some,
                forall|i: int, j: int|
                    0 <= i < ordered@.len() && 0 <= j < spec_ordered_child_pids(spec_node_of(d, ordered@[i]@).data).len()
                        ==> spec_pid_views(ordered@).contains(
                        #[trigger] spec_ordered_child_pids(spec_node_of(d, ordered@[i]@).data)[j],
                    ) || spec_pid_views(outstanding@).contains(spec_ordered_child_pids(spec_node_of(d, ordered@[i]@).data)[j]),
                spec_pid_views(ordered@).contains(d.root_pid) || spec_pid_views(outstanding@).contains(d.root_pid),
                owed ==> forall|k: int| 0 <= k < outstanding@.len() ==> spec_lookup(d, (#[trigger] outstanding@[k])@) is Some,
                ordered@.len() <= table,
            decreases table - ordered@.len(), outstanding@.len(),
        {
            let ghost before_out = spec_pid_views(outstanding@);
            let ghost before_ord = spec_pid_views(ordered@);
            let node_pid = outstanding.pop().unwrap();
            assert(spec_pid_views(outstanding@) =~= before_out.drop_last());
            let node = match self.by_perm_id(&node_pid) {
                Ok(n) => n,
                Err(e) => return Err(e),
            };
            proof {
                crate::filesystem::drive::inner::lemma_lookup_finds_pid(d, node_pid@);
            }
            let permanent_id = node.permanent_id();
            assert(permanent_id@ == node_pid@);
            match position_of(&ordered, &permanent_id) {
                Some(pos) => {
                    proof {
                        if tree {
                            let all = before_ord + before_out;
                            assert(all[pos as int] == permanent_id@);
                            assert(all[all.len() - 1] == permanent_id@);
                        }
                    }
                    let moved = ordered.remove(pos);
                    ordered.push(moved);
                    proof {
                        let after = spec_pid_views(ordered@);
                        assert(after =~= before_ord.remove(pos as int).push(before_ord[pos as int]));
                        assert forall|x: Seq<u8>| before_ord.contains(x) <==> after.contains(x) by {
                            if before_ord.contains(x) {
                                let k = choose|k: int| 0 <= k < before_ord.len() && before_ord[k] == x;
                                if k < pos {
                                    assert(after[k] == x);
                                } else if k > pos {
                                    assert(after[k - 1] == x);
                                } else {
                                    assert(after[after.len() - 1] == x);
                                }
                            }
                            if after.contains(x) {
                                let k = choose|k: int| 0 <= k < after.len() && after[k] == x;
                                if k < pos {
                                    assert(before_ord[k] == x);
                                } else if k < after.len() - 1 {
                                    assert(before_ord[k + 1] == x);
                                } else {
                                    assert(before_ord[pos as int] == x);
                                }
                            }
                        }
                        assert forall|a: int, b: int| 0 <= a < after.len() && 0 <= b < after.len() && a != b implies after[a]
                            != after[b] by {
                            let ia = if a == after.len() - 1 { pos as int } else if a < pos { a } else { a + 1 };
                            let ib = if b == after.len() - 1 { pos as int } else if b < pos { b } else { b + 1 };
                            assert(after[a] == before_ord[ia]);
                            assert(after[b] == before_ord[ib]);
                        }
                        assert forall|i: int| 0 <= i < ordered@.len() implies spec_lookup(d, (#[trigger] ordered@[i])@) is Some by {
                            assert(before_ord.contains(after[i]));
                            let k = choose|k: int| 0 <= k < before_ord.len() && before_ord[k] == after[i];
                        }
                        assert forall|i: int, j: int|
                            0 <= i < ordered@.len() && 0 <= j < spec_ordered_child_pids(spec_node_of(d, ordered@[i]@).data).len()
                                implies spec_pid_views(ordered@).contains(
                            #[trigger] spec_ordered_child_pids(spec_node_of(d, ordered@[i]@).data)[j],
                        ) || spec_pid_views(outstanding@).contains(spec_ordered_child_pids(spec_node_of(d, ordered@[i]@).data)[j]) by {
                            assert(before_ord.contains(after[i]));
                            let k = choose|k: int| 0 <= k < before_ord.len() && before_ord[k] == after[i];
                            let c = spec_ordered_child_pids(spec_node_of(d, ordered@[i]@).data)[j];
                            assert(c == spec_ordered_child_pids(spec_node_of(d, before_ord[k]).data)[j]);
                            if before_out.contains(c) && !spec_pid_views(outstanding@).contains(c) {
                                let q = choose|q: int| 0 <= q < before_out.len() && before_out[q] == c;
                                if q < before_out.len() - 1 {
                                    assert(spec_pid_views(outstanding@)[q] == c);
                                }
                            }
                        }
                        if before_out.contains(d.root_pid) && !spec_pid_views(outstanding@).contains(d.root_pid) {
                            let q = choose|q: int| 0 <= q < before_out.len() && before_out[q] == d.root_pid;
                            if q < before_out.len() - 1 {
                                assert(spec_pid_views(outstanding@)[q] == d.root_pid);
                            }
                        }
                    }
                },
                None => {
                    proof {
                        lemma_distinct_pids_bound(d, before_ord.push(permanent_id@));
                    }
                    ordered.push(permanent_id);
                    let children = node.ordered_child_pids();
                    let ghost mid_out = spec_pid_views(outstanding@);
                    let mut k: usize = 0;
                    while k < children.len()
                        invariant
                            k <= children@.len(),
                            spec_pid_views(outstanding@) =~= mid_out + spec_pid_views(children@.take(k as int)),
                        decreases children@.len() - k,
                    {
                        let ghost prev = spec_pid_views(outstanding@);
                        outstanding.push(children[k]);
                        proof {
                            assert(children@.take(k + 1) =~= children@.take(k as int).push(children@[k as int]));
                            assert(spec_pid_views(outstanding@) =~= prev.push(children@[k as int]@));
                            assert(spec_pid_views(children@.take(k + 1)) =~= spec_pid_views(children@.take(k as int)).push(
                                children@[k as int]@,
                            ));
                        }
                        k = k + 1;
                    }
                    proof {
                        assert(children@.take(k as int) =~= children@);
                        let cs = spec_ordered_child_pids(node@.data);
                        assert(spec_pid_views(children@) =~= cs);
                        let after = spec_pid_views(ordered@);
                        let out_now = spec_pid_views(outstanding@);
                        assert(after =~= before_ord.push(permanent_id@));
                        assert(out_now =~= before_out.drop_last() + cs);
                        assert(spec_node_of(d, permanent_id@) == node@);
                        if tree {
                            lemma_walk_tree_step(d, before_ord, before_out, permanent_id@);
                        }
                        assert forall|x: Seq<u8>| before_out.contains(x) implies after.contains(x) || out_now.contains(x) by {
                            let q = choose|q: int| 0 <= q < before_out.len() && before_out[q] == x;
                            if q < before_out.len() - 1 {
                                assert(out_now[q] == x);
                            } else {
                                assert(after[after.len() - 1] == x);
                            }
                        }
                        assert forall|x: Seq<u8>| before_ord.contains(x) implies after.contains(x) by {
                            let q = choose|q: int| 0 <= q < before_ord.len() && before_ord[q] == x;
                            assert(after[q] == x);
                        }
                        assert forall|j: int| 0 <= j < cs.len() implies out_now.contains(cs[j]) by {
                            assert(out_now[before_out.len() - 1 + j] == cs[j]);
                        }
                        assert forall|a: int, b: int| 0 <= a < after.len() && 0 <= b < after.len() && a != b implies after[a]
                            != after[b] by {
                            if a == after.len() - 1 {
                                assert(!before_ord.contains(after[a]));
                                assert(before_ord[b] == after[b]);
                            } else if b == after.len() - 1 {
                                assert(!before_ord.contains(after[b]));
                                assert(before_ord[a] == after[a]);
                            }
                        }
                        assert forall|i: int| 0 <= i < ordered@.len() implies spec_lookup(d, (#[trigger] ordered@[i])@) is Some by {
                            if i < ordered@.len() - 1 {
                                assert(ordered@[i]@ == before_ord[i]);
                            }
                        }
                        assert forall|i: int, j: int|
                            0 <= i < ordered@.len() && 0 <= j < spec_ordered_child_pids(spec_node_of(d, ordered@[i]@).data).len()
                                implies after.contains(
                            #[trigger] spec_ordered_child_pids(spec_node_of(d, ordered@[i]@).data)[j],
                        ) || out_now.contains(spec_ordered_child_pids(spec_node_of(d, ordered@[i]@).data)[j]) by {
                            let c = spec_ordered_child_pids(spec_node_of(d, ordered@[i]@).data)[j];
                            if i < ordered@.len() - 1 {
                                assert(ordered@[i]@ == before_ord[i]);
                                assert(c == spec_ordered_child_pids(spec_node_of(d, before_ord[i]).data)[j]);
                                assert(before_ord.contains(c) || before_out.contains(c));
                            } else {
                                assert(ordered@[i]@ == permanent_id@);
                                assert(c == cs[j]);
                            }
                        }
                        if owed {
                            let id = spec_lookup(d, permanent_id@).unwrap();
                            assert(d.nodes.contains_key(id));
                            assert forall|q: int| 0 <= q < outstanding@.len() implies spec_lookup(d, (#[trigger] outstanding@[q])@) is Some by {
                                assert(outstanding@[q]@ == out_now[q]);
                                if q < before_out.len() - 1 {
                                    assert(out_now[q] == before_out[q]);
                                } else {
                                    assert(out_now[q] == cs[q - (before_out.len() - 1)]);
                                }
                            }
                        }
                    }
                },
            }
        }

        let ghost ov = spec_pid_views(ordered@);
        let ghost n = ov.len();
        let ghost order = Seq::new(n, |i: int| ov[n - 1 - i]);
        proof {
            assert forall|a: int, b: int| 0 <= a < order.len() && 0 <= b < order.len() && a != b implies order[a] != order[b] by {
                assert(ov[n - 1 - a] != ov[n - 1 - b]);
            }
            assert forall|x: Seq<u8>| ov.contains(x) implies order.contains(x) by {
                let q = choose|q: int| 0 <= q < ov.len() && ov[q] == x;
                assert(order[n - 1 - q] == x);
            }
            assert(order.contains(d.root_pid));
            assert forall|i: int| 0 <= i < order.len() implies (#[trigger] order[i]).len() == 16 && spec_lookup(d, order[i]) is Some by {
                assert(order[i] == ordered@[n - 1 - i]@);
            }
            assert forall|i: int, j: int|
                0 <= i < order.len() && 0 <= j < spec_ordered_child_pids(spec_node_of(d, order[i]).data).len() implies order.contains(
                #[trigger] spec_ordered_child_pids(spec_node_of(d, order[i]).data)[j],
            ) by {
                assert(order[i] == ordered@[n - 1 - i]@);
                let c = spec_ordered_child_pids(spec_node_of(d, order[i]).data)[j];
                assert(ov.contains(c));
            }
            assert(spec_encoding_order(d, order));
            if tree {
                assert(spec_pid_views(outstanding@) =~= Seq::<Seq<u8>>::empty());
                lemma_reversed_children_first(d, ov, order);
            }
        }
        let mut buffer: Vec<u8> = Vec::new();
        let mut k: usize = ordered.len();
        assert(order.take(0) =~= Seq::<Seq<u8>>::empty());
        while k > 0
            invariant
                d == self@,
                spec_inner_wf(d),
                k <= ordered@.len(),
                ordered@.len() == n,
                spec_pid_views(ordered@) == ov,
                order == Seq::new(n, |i: int| ov[n - 1 - i]),
                buffer@ == spec_nodes_encoding(d, order.take(n - k)),
                owed == (spec_drive_closed(d) && spec_drive_encodable(d) && spec_lookup(d, d.root_pid) is Some),
                forall|i: int| 0 <= i < ordered@.len() ==> spec_lookup(d, (#[trigger] ordered@[i])@) is Some,
            decreases k,
        {
            k = k - 1;
            let node = match self.by_perm_id(&ordered[k]) {
                Ok(x) => x,
                Err(e) => return Err(e),
            };
            proof {
                crate::filesystem::drive::inner::lemma_by_perm_id_in_table(d, ordered@[k as int]@);
            }
            let ghost before = buffer@;
            match node.encode(&mut buffer) {
                Ok(_) => {},
                Err(e) => return Err(OperationError::Encoding(e)),
            }
            proof {
                let t = order.take(n - k);
                assert(t.drop_last() =~= order.take(n - k - 1));
                assert(t.last() == order[n - k - 1]);
                assert(order[n - k - 1] == ov[k as int]);
            }
        }
        assert(order.take(n as int) =~= order);
        let total = match buffer.len().checked_add(24) {
            Some(t) => t,
            None => {
                proof {
                    lemma_le_roundtrips();
                    assert(spec_drive_encoding(d, order).len() == 16 + 8 + buffer@.len());
                }
                return Err(OperationError::Encoding(EncodingError::TooLarge));
            },
        };
        let count = ordered.len() as u64;
        self.root_pid.encode(out);
        put_u64(out, count);
        put_bytes(out, buffer.as_slice());
        proof {
            lemma_le_roundtrips();
            assert(spec_drive_encoding(d, order).len() == 16 + 8 + buffer@.len());
        }
        Ok(total)
    }
}

/// Drive `d` holds exactly the nodes `ns`: each is stored, at the position its permanent ID is
/// indexed under, and every stored node is one of them.
pub open spec fn spec_drive_holds(d: InnerDriveView, ns: Seq<NodeView>) -> bool {
    &&& forall|j: int|
        0 <= j < ns.len() ==> (spec_lookup(d, (#[trigger] ns[j]).permanent_id) matches Some(id) && d.nodes.contains_key(id)
            && d.nodes[id] == (NodeView { id, ..ns[j] }))
    &&& forall|id: NodeId| #[trigger] d.nodes.contains_key(id) ==> spec_pids_of(ns).contains(d.nodes[id].permanent_id)
}

/// The position given to a parsed node is the only thing that depends on it.
proof fn lemma_parse_node_at(s: Seq<u8>, id: NodeId)
    ensures
        match spec_parse_node(s, 0) {
            Parsed::Done(m, v) => spec_parse_node(s, id) == Parsed::Done(m, NodeView { id, ..v }) && !(v.data is AssociatedData),
            Parsed::Incomplete => spec_parse_node(s, id) == Parsed::<NodeView>::Incomplete,
            Parsed::Invalid => spec_parse_node(s, id) == Parsed::<NodeView>::Invalid,
        },
{
}

/// Once reading the nodes has failed, reading more of them fails the same way.
proof fn lemma_parse_nodes_stays_failed(s: Seq<u8>, k: nat, m: nat)
    requires
        k <= m,
        !(spec_parse_nodes(s, k) is Done),
    ensures
        spec_parse_nodes(s, m) == spec_parse_nodes(s, k),
    decreases m,
{
    if m > k {
        lemma_parse_nodes_stays_failed(s, k, (m - 1) as nat);
    }
}

/// The drive being read: the nodes and index built so far.
pub open spec fn spec_reading(access: DriveAccessView, root: Seq<u8>, nodes: Slab<Node>, pids: Map<u128, NodeId>) -> InnerDriveView {
    InnerDriveView {
        access,
        root_pid: root,
        nodes: slab_nodes(nodes),
        pids,
        dirty: Seq::empty(),
        next_key: slab_next_key(nodes),
    }
}

/// Storing a newly read node under a fresh position and a fresh permanent ID keeps a drive
/// well-formed and holding exactly the nodes read.
proof fn lemma_store_read_node(a: InnerDriveView, b: InnerDriveView, ns: Seq<NodeView>, v: NodeView, id: NodeId)
    requires
        spec_inner_wf(a),
        spec_drive_holds(a, ns),
        !spec_pids_of(ns).contains(v.permanent_id),
        v.permanent_id.len() == 16,
        !(v.data is AssociatedData),
        !a.nodes.contains_key(id),
        b.nodes == a.nodes.insert(id, NodeView { id, ..v }),
        b.pids == a.pids.insert(spec_pid_key(v.permanent_id), id),
        b.access == a.access,
        b.root_pid == a.root_pid,
    ensures
        spec_inner_wf(b),
        spec_drive_holds(b, ns.push(v)),
{
    let key = spec_pid_key(v.permanent_id);
    let new_ns = ns.push(v);
    assert(!a.pids.contains_key(key)) by {
        if a.pids.contains_key(key) {
            let k = a.pids[key];
            assert(a.nodes.contains_key(k));
            lemma_pid_key_injective(a.nodes[k].permanent_id, v.permanent_id);
        }
    }
    assert(spec_pids_of(new_ns) =~= spec_pids_of(ns).push(v.permanent_id));
    assert forall|i: NodeId| #[trigger] b.nodes.contains_key(i) implies {
        &&& b.nodes[i].id == i
        &&& b.nodes[i].permanent_id.len() == 16
        &&& !(b.nodes[i].data is AssociatedData)
        &&& b.pids.contains_key(spec_pid_key(b.nodes[i].permanent_id))
        &&& b.pids[spec_pid_key(b.nodes[i].permanent_id)] == i
    } by {
        if i != id {
            assert(a.nodes.contains_key(i));
        }
    }
    assert forall|k: u128| #[trigger] b.pids.contains_key(k) implies b.nodes.contains_key(b.pids[k]) && spec_pid_key(
        b.nodes[b.pids[k]].permanent_id,
    ) == k by {
        if k != key {
            assert(a.pids.contains_key(k));
            assert(a.nodes.contains_key(a.pids[k]));
        }
    }
    assert forall|j: int| 0 <= j < new_ns.len() implies (spec_lookup(b, (#[trigger] new_ns[j]).permanent_id) matches Some(x)
        && b.nodes.contains_key(x) && b.nodes[x] == (NodeView { id: x, ..new_ns[j] })) by {
        if j < ns.len() {
            assert(new_ns[j] == ns[j]);
            assert(spec_lookup(a, ns[j].permanent_id) is Some);
            let x = spec_lookup(a, ns[j].permanent_id).unwrap();
            if spec_pid_key(ns[j].permanent_id) == key {
                assert(spec_pids_of(ns)[j] == ns[j].permanent_id);
            }
        }
    }
    assert forall|i: NodeId| #[trigger] b.nodes.contains_key(i) implies spec_pids_of(new_ns).contains(b.nodes[i].permanent_id) by {
        if i == id {
            assert(spec_pids_of(new_ns)[ns.len() as int] == v.permanent_id);
        } else {
            assert(a.nodes.contains_key(i));
            let j = choose|j: int| 0 <= j < spec_pids_of(ns).len() && spec_pids_of(ns)[j] == a.nodes[i].permanent_id;
            assert(spec_pids_of(new_ns)[j] == spec_pids_of(ns)[j]);
        }
    }
}

impl InnerDrive {
    /// Reads a drive's node tree from the front of `input`: the nodes are stored in the order
    /// read and indexed by permanent ID. A node that repeats a permanent ID, or a root that is
    /// not among the nodes, makes the input invalid.
    #[verifier::spinoff_prover]
    #[verifier::rlimit(60)]
    pub fn parse(input: &[u8], access: DriveAccess) -> (res: Result<(&[u8], InnerDrive), ParseError>)
        requires
            spec_actors_unique(access@.actors),
        ensures
            match spec_parse_drive(input@) {
                Parsed::Done(n, (root, ns)) => res matches Ok((rest, d)) && rest@ == input@.skip(n as int) && spec_inner_wf(d@)
                    && d@.root_pid == root && d@.access == access@ && d@.dirty.len() == 0 && spec_drive_holds(d@, ns),
                Parsed::Incomplete => res matches Err(ParseError::Incomplete),
                Parsed::Invalid => res matches Err(ParseError::Invalid(_)),
            },
    {
        proof {
            lemma_le_roundtrips();
        }
        let (r0, root_pid) = PermanentId::parse(input)?;
        let (r1, node_count) = le_u64(r0)?;
        assert(r1@ =~= input@.skip(24));
        assert(r0@.take(8) =~= input@.subrange(16, 24));
        let ghost s = input@.skip(24);
        let mut nodes = slab_new();
        let mut permanent_id_map: HashMap<u128, NodeId> = HashMap::new();
        let mut node_input = r1;
        let mut i: u64 = 0;
        let ghost mut ns: Seq<NodeView> = Seq::empty();
        let ghost mut consumed: nat = 0;
        proof {
            assert(slab_nodes(nodes).dom() =~= Set::<NodeId>::empty());
        }
        while i < node_count
            invariant
                input@.len() >= 24,
                s == input@.skip(24),
                root_pid@ == input@.take(16),
                node_count == spec_u64_from_le_bytes(input@.subrange(16, 24)),
                i <= node_count,
                spec_parse_nodes(s, i as nat) == Parsed::Done(consumed, ns),
                consumed <= s.len(),
                node_input@ == s.skip(consumed as int),
                ns.len() == i,
                spec_inner_wf(spec_reading(access@, root_pid@, nodes, permanent_id_map@)),
                spec_drive_holds(spec_reading(access@, root_pid@, nodes, permanent_id_map@), ns),
            decreases node_count - i,
        {
            let ghost view0 = spec_reading(access@, root_pid@, nodes, permanent_id_map@);
            let node_id = slab_vacant_key(&nodes);
            proof {
                lemma_parse_node_at(s.skip(consumed as int), node_id);
            }
            let parsed = Node::parse(node_input, node_id);
            let (rest, node) = match parsed {
                Ok(x) => x,
                Err(e) => {
                    proof {
                        assert(!(spec_parse_nodes(s, (i + 1) as nat) is Done));
                        lemma_parse_nodes_stays_failed(s, (i + 1) as nat, node_count as nat);
                    }
                    return Err(e);
                },
            };
            let pid = node.permanent_id();
            let key = pid_key(&pid);
            let ghost v = spec_parse_node(s.skip(consumed as int), 0)->Done_1;
            let ghost m = spec_parse_node(s.skip(consumed as int), 0)->Done_0;
            assert(node@ == (NodeView { id: node_id, ..v }));
            if permanent_id_map.contains_key(&key) {
                proof {
                    let id = permanent_id_map@[key];
                    assert(view0.nodes.contains_key(id));
                    assert(spec_pids_of(ns).contains(view0.nodes[id].permanent_id));
                    lemma_pid_key_injective(view0.nodes[id].permanent_id, pid@);
                    assert(spec_parse_nodes(s, (i + 1) as nat) is Invalid);
                    lemma_parse_nodes_stays_failed(s, (i + 1) as nat, node_count as nat);
                }
                return Err(ParseError::Invalid(ErrorKind::Verify));
            }
            proof {
                assert(!spec_pids_of(ns).contains(v.permanent_id)) by {
                    if spec_pids_of(ns).contains(v.permanent_id) {
                        let j = choose|j: int| 0 <= j < ns.len() && spec_pids_of(ns)[j] == v.permanent_id;
                        assert(ns[j].permanent_id == v.permanent_id);
                        assert(view0.nodes.contains_key(spec_lookup(view0, ns[j].permanent_id).unwrap()));
                    }
                }
            }
            permanent_id_map.insert(key, node_id);
            slab_insert(&mut nodes, node);
            node_input = rest;
            proof {
                lemma_store_read_node(view0, spec_reading(access@, root_pid@, nodes, permanent_id_map@), ns, v, node_id);
                assert(spec_parse_nodes(s, (i + 1) as nat) == Parsed::Done(consumed + m, ns.push(v)));
                assert(node_input@ =~= s.skip((consumed + m) as int));
                ns = ns.push(v);
                consumed = consumed + m;
            }
            i = i + 1;
        }
        let root_key = pid_key(&root_pid);
        let ghost view = spec_reading(access@, root_pid@, nodes, permanent_id_map@);
        if !permanent_id_map.contains_key(&root_key) {
            proof {
                if spec_pids_of(ns).contains(root_pid@) {
                    let j = choose|j: int| 0 <= j < spec_pids_of(ns).len() && spec_pids_of(ns)[j] == root_pid@;
                    assert(ns[j].permanent_id == root_pid@);
                }
            }
            return Err(ParseError::Invalid(ErrorKind::Verify));
        }
        proof {
            let id = permanent_id_map@[root_key];
            assert(view.nodes.contains_key(id));
            lemma_pid_key_injective(view.nodes[id].permanent_id, root_pid@);
            assert(spec_pids_of(ns).contains(root_pid@));
            assert(input@.skip((24 + consumed) as int) =~= s.skip(consumed as int));
        }
        let drive = InnerDrive { access, root_pid, nodes, permanent_id_map, dirty_nodes: Vec::new() };
        assert(drive@.dirty =~= Seq::<NodeId>::empty());
        assert(drive@ == view);
        Ok((node_input, drive))
    }
}
} // verus!
