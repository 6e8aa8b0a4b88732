use rand_chacha::ChaCha20Rng;
use vstd::prelude::*;

use crate::codec::ids::{ActorId, Cid, PermanentId};
use crate::stores::traits::DataStore;
use crate::filesystem::drive::directory_entry::{spec_directory_entry, DirectoryEntry, DirectoryEntryView};
use crate::filesystem::drive::inner::{
    spec_by_id, spec_by_perm_id, spec_clean_order, spec_clean_run, spec_error_of, spec_without_dirty, spec_inner_wf, spec_lookup, spec_move, spec_remove_prepare, spec_remove_subtrees,
    spec_same_structure, InnerDrive, InnerDriveView,
};
use crate::filesystem::drive::operations::{OperationError, OperationErrorView};
use crate::filesystem::drive::walk_state::{WalkState, WalkStateView};
use crate::filesystem::nodes::node::{NodeId, NodeView};
use crate::filesystem::nodes::node_data::child_map::{
    lemma_find_name_from, lemma_upper_bound_from, spec_find_name, spec_upper_bound, ChildPair,
};
use crate::filesystem::nodes::node_data::{spec_children, NodeDataView};
use crate::filesystem::nodes::node_name::{spec_name_error, NodeName, NodeNameView};

verus! {

broadcast use vstd::seq::group_seq_axioms, vstd::map::group_map_axioms;

/// How deep a path may reach below the directory it starts from.
pub const MAX_PATH_DEPTH: usize = 32;

/// The components of a path as text.
pub open spec fn spec_path(path: &[&str]) -> Seq<Seq<char>> {
    path@.map_values(|s: &str| s@)
}

/// Walking `path` from its component `i` on, starting in node `wd` at depth `depth`: each
/// component must be a valid name; the node walked into must be able to have children; a
/// component not present ends the walk with the rest of the path untouched.
pub open spec fn spec_walk(d: InnerDriveView, wd: NodeId, path: Seq<Seq<char>>, i: int, depth: int) -> Result<WalkStateView, OperationErrorView>
    decreases path.len() - i,
{
    if i < 0 || i >= path.len() {
        Ok(WalkStateView::FoundNode { node_id: wd })
    } else {
        match spec_name_error(path[i]) {
            Some(e) => Err(OperationErrorView::InvalidName(e)),
            None => {
                let name = NodeNameView::Named(path[i]);
                match spec_by_id(d, wd) {
                    Err(e) => Err(e),
                    Ok(current) => match spec_children(current.data) {
                        None => Err(OperationErrorView::NotTraversable),
                        Some(m) => match spec_find_name(m, name) {
                            None => Ok(
                                WalkStateView::MissingComponent {
                                    working_directory_id: wd,
                                    missing_name: name,
                                    remaining_start: (i + 1) as usize,
                                },
                            ),
                            Some(k) => match spec_by_perm_id(d, m[k].1.permanent_id) {
                                Err(e) => Err(e),
                                Ok(next) => if !(next.data is Directory || next.data is File) {
                                    Err(OperationErrorView::NotTraversable)
                                } else if depth >= MAX_PATH_DEPTH {
                                    Err(OperationErrorView::PathTooDeep)
                                } else {
                                    spec_walk(d, next.id, path, i + 1, depth + 1)
                                },
                            },
                        },
                    },
                }
            },
        }
    }
}

/// Walks `path` from node `working_directory_id`.
pub fn walk_path(inner: &InnerDrive, working_directory_id: NodeId, path: &[&str], depth: usize) -> (r: Result<WalkState, OperationError>)
    ensures
        match spec_walk(inner@, working_directory_id, spec_path(path), 0, depth as int) {
            Ok(w) => r matches Ok(x) && x@ == w,
            Err(e) => r matches Err(x) && x@ == e,
        },
{
    let ghost p = spec_path(path);
    let mut wd = working_directory_id;
    let mut i: usize = 0;
    let mut level = depth;
    loop
        invariant
            p == spec_path(path),
            i <= path@.len(),
            spec_walk(inner@, working_directory_id, p, 0, depth as int) == spec_walk(inner@, wd, p, i as int, level as int),
        decreases path@.len() - i,
    {
        if i == path.len() {
            return Ok(WalkState::found(wd));
        }
        assert(p[i as int] == path@[i as int]@);
        let child_name = match NodeName::named(path[i].to_owned()) {
            Ok(n) => n,
            Err(e) => return Err(OperationError::InvalidName(e)),
        };
        let current_node = inner.by_id(wd)?;
        let child_map = match current_node.data().children() {
            Some(m) => m,
            None => return Err(OperationError::NotTraversable),
        };
        let perm_id = match child_map.get(&child_name) {
            Some(entry) => entry.permanent_id,
            None => {
                return Ok(WalkState::MissingComponent { working_directory_id: wd, missing_name: child_name, remaining_start: i + 1 });
            },
        };
        let next_node = inner.by_perm_id(&perm_id)?;
        let next_node_id = next_node.id();
        if !next_node.supports_children() {
            return Err(OperationError::NotTraversable);
        }
        if level >= MAX_PATH_DEPTH {
            return Err(OperationError::PathTooDeep);
        }
        wd = next_node_id;
        i = i + 1;
        level = level + 1;
    }
}

proof fn lemma_find_name_same_structure(a: Seq<ChildPair>, b: Seq<ChildPair>, n: NodeNameView, i: int)
    requires
        crate::filesystem::drive::inner::spec_children_same_structure(a, b),
        0 <= i <= a.len(),
    ensures
        crate::filesystem::nodes::node_data::child_map::spec_find_name_from(a, n, i)
            == crate::filesystem::nodes::node_data::child_map::spec_find_name_from(b, n, i),
    decreases a.len() - i,
{
    if i < a.len() {
        assert(a[i].0 == b[i].0);
        lemma_find_name_same_structure(a, b, n, i + 1);
    }
}

/// Walks in drives of the same structure take the same course.
pub proof fn lemma_walk_same_structure(a: InnerDriveView, b: InnerDriveView, wd: NodeId, path: Seq<Seq<char>>, i: int, depth: int)
    requires
        spec_same_structure(a, b),
    ensures
        spec_walk(a, wd, path, i, depth) == spec_walk(b, wd, path, i, depth),
    decreases path.len() - i,
{
    if 0 <= i < path.len() && spec_name_error(path[i]) is None && a.nodes.contains_key(wd) {
        let ca = a.nodes[wd];
        let cb = b.nodes[wd];
        assert(crate::filesystem::drive::inner::spec_node_same_structure(ca, cb));
        let name = NodeNameView::Named(path[i]);
        match ca.data {
            NodeDataView::File { associated_data, .. } => {
                let mb = spec_children(cb.data).unwrap();
                lemma_find_name_same_structure(associated_data, mb, name, 0);
                match spec_find_name(associated_data, name) {
                    Some(k) => {
                        crate::filesystem::nodes::node_data::child_map::lemma_find_name_from(associated_data, name, 0);
                        assert(associated_data[k].1.permanent_id == mb[k].1.permanent_id);
                        lemma_walk_step_same_structure(a, b, associated_data[k].1.permanent_id, path, i, depth);
                    },
                    None => {},
                }
            },
            NodeDataView::Directory { children, .. } => {
                let mb = spec_children(cb.data).unwrap();
                lemma_find_name_same_structure(children, mb, name, 0);
                match spec_find_name(children, name) {
                    Some(k) => {
                        crate::filesystem::nodes::node_data::child_map::lemma_find_name_from(children, name, 0);
                        assert(children[k].1.permanent_id == mb[k].1.permanent_id);
                        lemma_walk_step_same_structure(a, b, children[k].1.permanent_id, path, i, depth);
                    },
                    None => {},
                }
            },
            NodeDataView::AssociatedData { .. } => {},
        }
    }
}

proof fn lemma_walk_step_same_structure(a: InnerDriveView, b: InnerDriveView, pid: Seq<u8>, path: Seq<Seq<char>>, i: int, depth: int)
    requires
        spec_same_structure(a, b),
        0 <= i < path.len(),
    ensures
        match spec_by_perm_id(a, pid) {
            Err(e) => spec_by_perm_id(b, pid) == Err::<NodeView, OperationErrorView>(e),
            Ok(na) => spec_by_perm_id(b, pid) matches Ok(nb) && nb.id == na.id && (na.data is Directory
                == nb.data is Directory) && (na.data is File == nb.data is File) && spec_walk(a, na.id, path, i + 1, depth + 1)
                == spec_walk(b, na.id, path, i + 1, depth + 1),
        },
    decreases path.len() - i, 0int,
{
    match crate::filesystem::drive::inner::spec_lookup(a, pid) {
        Some(id) => {
            if a.nodes.contains_key(id) {
                assert(crate::filesystem::drive::inner::spec_node_same_structure(a.nodes[id], b.nodes[id]));
                lemma_walk_same_structure(a, b, a.nodes[id].id, path, i + 1, depth + 1);
            }
        },
        None => {},
    }
}

/// Storing a child under a fresh name leaves the lookup of every other name as it was, and
/// the new child is found under its name.
proof fn lemma_find_after_insert(m: Seq<ChildPair>, nn: NodeNameView, e: crate::filesystem::nodes::node_data::child_map::ChildMapEntryView, n: NodeNameView)
    requires
        spec_find_name(m, nn) is None,
    ensures
        ({
            let m2 = crate::filesystem::nodes::node_data::child_map::spec_insert_child(m, nn, e);
            &&& spec_find_name(m2, nn) matches Some(k) && m2[k] == (nn, e)
            &&& n != nn ==> match spec_find_name(m, n) {
                Some(j) => spec_find_name(m2, n) matches Some(k) && m2[k] == m[j],
                None => spec_find_name(m2, n) is None,
            }
        }),
{
    let p = spec_upper_bound(m, e.permanent_id);
    lemma_upper_bound_from(m, e.permanent_id, 0);
    let m2 = m.insert(p, (nn, e));
    assert(crate::filesystem::nodes::node_data::child_map::spec_insert_child(m, nn, e) == m2);
    lemma_find_name_from(m, nn, 0);
    lemma_find_name_from(m2, nn, 0);
    assert(forall|j: int| 0 <= j < p ==> m2[j] == m[j]);
    assert(forall|j: int| p < j < m2.len() ==> m2[j] == m[j - 1]);
    assert(m2[p] == (nn, e));
    match spec_find_name(m2, nn) {
        Some(k) => {
            if k < p {
                assert(m[k].0 == nn);
            } else if k > p {
                assert(m2[p].0 == nn);
            }
        },
        None => {
            assert(m2[p].0 == nn);
        },
    }
    if n != nn {
        lemma_find_name_from(m, n, 0);
        lemma_find_name_from(m2, n, 0);
        match spec_find_name(m, n) {
            Some(j) => {
                let j2 = if j < p { j } else { j + 1 };
                assert(m2[j2] == m[j]);
                match spec_find_name(m2, n) {
                    Some(k) => {
                        let q = if k < p { k } else { k - 1 };
                        assert(k != p);
                        assert(m[q] == m2[k]);
                        if q < j {
                            assert(m[q].0 != n);
                        }
                        if j < q {
                            let jj = if j < p { j } else { j + 1 };
                            assert(jj < k);
                            assert(m2[jj].0 == n);
                        }
                    },
                    None => {
                        assert(m2[j2].0 == n);
                    },
                }
            },
            None => {
                match spec_find_name(m2, n) {
                    Some(k) => {
                        assert(k != p);
                        let q = if k < p { k } else { k - 1 };
                        assert(m[q] == m2[k]);
                    },
                    None => {},
                }
            },
        }
    }
}

/// The drive after a child `n` named `nn` with entry `e` was added to directory `wd` at the
/// free position `k`.
pub open spec fn spec_with_new_child(
    d: InnerDriveView,
    wd: NodeId,
    k: NodeId,
    n: NodeView,
    e: crate::filesystem::nodes::node_data::child_map::ChildMapEntryView,
) -> InnerDriveView {
    InnerDriveView {
        nodes: d.nodes.insert(k, n).insert(
            wd,
            NodeView {
                data: crate::filesystem::nodes::node_data::spec_with_children(
                    d.nodes[wd].data,
                    crate::filesystem::nodes::node_data::child_map::spec_insert_child(
                        spec_children(d.nodes[wd].data).unwrap(),
                        n.name,
                        e,
                    ),
                ),
                ..d.nodes[wd]
            },
        ),
        pids: d.pids.insert(crate::filesystem::drive::inner::spec_pid_key(n.permanent_id), k),
        ..d
    }
}

/// A walk that ended at the missing component `nn` in `wd` steps into the empty directory
/// created there: the path now leads to it, or, when components remain, the next one is
/// missing in it.
pub(crate) proof fn lemma_walk_after_create(
    d: InnerDriveView,
    k: NodeId,
    n: NodeView,
    e: crate::filesystem::nodes::node_data::child_map::ChildMapEntryView,
    wd: NodeId,
    c: NodeId,
    path: Seq<Seq<char>>,
    i: int,
    dep: int,
    rs: int,
)
    requires
        spec_inner_wf(d),
        d.nodes.contains_key(wd),
        spec_children(d.nodes[wd].data) matches Some(m) && spec_find_name(m, n.name) is None,
        !d.nodes.contains_key(k),
        spec_lookup(d, n.permanent_id) is None,
        e.permanent_id == n.permanent_id,
        n.id == k,
        n.data is Directory || n.data is File,
        spec_children(n.data) matches Some(cm) && cm.len() == 0,
        spec_walk(d, c, path, i, dep) == Ok::<WalkStateView, OperationErrorView>(
            WalkStateView::MissingComponent { working_directory_id: wd, missing_name: n.name, remaining_start: rs as usize },
        ),
        0 <= i < rs <= path.len(),
        rs < path.len() ==> spec_name_error(path[rs]) is None,
        path.len() <= usize::MAX,
        path.len() - 1 - i + dep < MAX_PATH_DEPTH,
    ensures
        spec_walk(spec_with_new_child(d, wd, k, n, e), c, path, i, dep) == (if rs == path.len() {
            Ok::<WalkStateView, OperationErrorView>(WalkStateView::FoundNode { node_id: k })
        } else {
            Ok::<WalkStateView, OperationErrorView>(
                WalkStateView::MissingComponent {
                    working_directory_id: k,
                    missing_name: NodeNameView::Named(path[rs]),
                    remaining_start: (rs + 1) as usize,
                },
            )
        }),
    decreases path.len() - i,
{
    let created = spec_with_new_child(d, wd, k, n, e);
    let mw = spec_children(d.nodes[wd].data).unwrap();
    let name = NodeNameView::Named(path[i]);
    assert(spec_name_error(path[i]) is None);
    assert(d.nodes.contains_key(c));
    let cur = d.nodes[c];
    assert(spec_by_id(d, c) == Ok::<NodeView, OperationErrorView>(cur));
    assert(spec_children(cur.data) is Some);
    let mc = spec_children(cur.data).unwrap();
    assert(created.nodes.contains_key(c));
    lemma_find_after_insert(mw, n.name, e, name);
    let key_new = crate::filesystem::drive::inner::spec_pid_key(n.permanent_id);
    assert(!d.pids.contains_key(key_new));
    match spec_find_name(mc, name) {
        None => {
            assert(c == wd && name == n.name && i + 1 == rs);
            let m2 = crate::filesystem::nodes::node_data::child_map::spec_insert_child(mw, n.name, e);
            let j = spec_find_name(m2, name).unwrap();
            lemma_find_name_from(m2, name, 0);
            assert(spec_children(created.nodes[wd].data) == Some(m2)) by {
                match d.nodes[wd].data {
                    NodeDataView::File { .. } => {},
                    NodeDataView::Directory { .. } => {},
                    NodeDataView::AssociatedData { .. } => {},
                }
            }
            assert(m2[j].1.permanent_id == n.permanent_id);
            assert(crate::filesystem::drive::inner::spec_lookup(created, n.permanent_id) == Some(k));
            assert(k != wd);
            assert(created.nodes[k] == n);
            assert(spec_by_id(created, wd) == Ok::<NodeView, OperationErrorView>(created.nodes[wd]));
            assert(spec_by_perm_id(created, m2[j].1.permanent_id) == Ok::<NodeView, OperationErrorView>(n));
            assert(spec_by_id(created, k) == Ok::<NodeView, OperationErrorView>(n));
            if rs < path.len() {
                assert(spec_find_name(spec_children(n.data).unwrap(), NodeNameView::Named(path[rs])) is None);
                assert(spec_walk(created, k, path, i + 1, dep + 1) == Ok::<WalkStateView, OperationErrorView>(
                    WalkStateView::MissingComponent {
                        working_directory_id: k,
                        missing_name: NodeNameView::Named(path[rs]),
                        remaining_start: (rs + 1) as usize,
                    },
                ));
            } else {
                assert(spec_walk(created, k, path, i + 1, dep + 1) == Ok::<WalkStateView, OperationErrorView>(
                    WalkStateView::FoundNode { node_id: k },
                ));
            }
        },
        Some(jc) => {
            lemma_find_name_from(mc, name, 0);
            let q = mc[jc].1.permanent_id;
            let next_id = crate::filesystem::drive::inner::spec_lookup(d, q).unwrap();
            assert(d.nodes.contains_key(next_id));
            let next = d.nodes[next_id];
            assert(next.id == next_id);
            assert(crate::filesystem::drive::inner::spec_pid_key(q) != key_new);
            assert(crate::filesystem::drive::inner::spec_lookup(created, q) == Some(next_id));
            assert(next_id != k);
            assert(created.nodes[next_id].id == next_id);
            assert(created.nodes[next_id].data is Directory == next.data is Directory) by {
                if next_id == wd {
                    match d.nodes[wd].data {
                        NodeDataView::File { .. } => {},
                        NodeDataView::Directory { .. } => {},
                        NodeDataView::AssociatedData { .. } => {},
                    }
                }
            }
            assert(created.nodes[next_id].data is File == next.data is File) by {
                if next_id == wd {
                    match d.nodes[wd].data {
                        NodeDataView::File { .. } => {},
                        NodeDataView::Directory { .. } => {},
                        NodeDataView::AssociatedData { .. } => {},
                    }
                }
            }
            if c == wd {
                assert(name != n.name);
                let m2 = crate::filesystem::nodes::node_data::child_map::spec_insert_child(mw, n.name, e);
                assert(spec_children(created.nodes[wd].data) == Some(m2)) by {
                    match d.nodes[wd].data {
                        NodeDataView::File { .. } => {},
                        NodeDataView::Directory { .. } => {},
                        NodeDataView::AssociatedData { .. } => {},
                    }
                }
            } else {
                assert(created.nodes[c] == cur);
            }
            lemma_walk_missing(d, next_id, path, i + 1, dep + 1);
            lemma_walk_after_create(d, k, n, e, wd, next_id, path, i + 1, dep + 1, rs);
            assert(spec_by_id(created, c) == Ok::<NodeView, OperationErrorView>(created.nodes[c]));
            assert(spec_by_perm_id(created, q) == Ok::<NodeView, OperationErrorView>(created.nodes[next_id]));
        },
    }
}

/// Replacing a node by one with the same position, the same kind and the same children
/// leaves every walk as it was.
pub(crate) proof fn lemma_walk_replace_node(
    d: InnerDriveView,
    k: NodeId,
    n2: NodeView,
    wd: NodeId,
    path: Seq<Seq<char>>,
    i: int,
    depth: int,
)
    requires
        d.nodes.contains_key(k),
        n2.id == d.nodes[k].id,
        n2.data is File == d.nodes[k].data is File,
        n2.data is Directory == d.nodes[k].data is Directory,
        spec_children(n2.data) == spec_children(d.nodes[k].data),
    ensures
        spec_walk(crate::filesystem::drive::inner::spec_with_node(d, k, n2), wd, path, i, depth) == spec_walk(
            d,
            wd,
            path,
            i,
            depth,
        ),
    decreases path.len() - i,
{
    let d2 = crate::filesystem::drive::inner::spec_with_node(d, k, n2);
    if 0 <= i < path.len() && spec_name_error(path[i]) is None && d.nodes.contains_key(wd) {
        let cur = d.nodes[wd];
        let name = NodeNameView::Named(path[i]);
        assert(spec_children(d2.nodes[wd].data) == spec_children(cur.data));
        match spec_children(cur.data) {
            Some(m) => match spec_find_name(m, name) {
                Some(j) => {
                    let q = m[j].1.permanent_id;
                    match crate::filesystem::drive::inner::spec_lookup(d, q) {
                        Some(id) => {
                            if d.nodes.contains_key(id) {
                                assert(d2.nodes[id].id == d.nodes[id].id);
                                lemma_walk_replace_node(d, k, n2, d.nodes[id].id, path, i + 1, depth + 1);
                            }
                        },
                        None => {},
                    }
                },
                None => {},
            },
            None => {},
        }
    }
}

/// A walk of a path goes as the walk of the path without its last component, and then takes
/// one more step from where that one ended.
pub(crate) proof fn lemma_walk_prefix(d: InnerDriveView, c: NodeId, p: Seq<Seq<char>>, i: int, dep: int)
    requires
        p.len() >= 1,
        0 <= i <= p.len() - 1,
    ensures
        match spec_walk(d, c, p.take(p.len() - 1), i, dep) {
            Ok(WalkStateView::FoundNode { node_id }) => spec_walk(d, c, p, i, dep) == spec_walk(
                d,
                node_id,
                p,
                p.len() - 1,
                dep + (p.len() - 1 - i),
            ),
            other => spec_walk(d, c, p, i, dep) == other,
        },
    decreases p.len() - 1 - i,
{
    let q = p.take(p.len() - 1);
    if i < p.len() - 1 {
        assert(q[i] == p[i]);
        if spec_name_error(p[i]) is None {
            match spec_by_id(d, c) {
                Ok(cur) => match spec_children(cur.data) {
                    Some(m) => match spec_find_name(m, NodeNameView::Named(p[i])) {
                        Some(j) => match spec_by_perm_id(d, m[j].1.permanent_id) {
                            Ok(next) => {
                                lemma_walk_prefix(d, next.id, p, i + 1, dep + 1);
                            },
                            Err(_) => {},
                        },
                        None => {},
                    },
                    None => {},
                },
                Err(_) => {},
            }
        }
    }
}

/// The inputs on which `mkdir` owes its work: every component is a valid name, the path is
/// short enough to walk, and its walk stops at a missing component below a directory, the
/// last one unless `recursive`.
pub open spec fn spec_mkdir_owed(d: InnerDriveView, cwd: NodeId, path: Seq<Seq<char>>, recursive: bool) -> bool {
    &&& path.len() <= MAX_PATH_DEPTH
    &&& forall|j: int| 0 <= j < path.len() ==> spec_name_error(#[trigger] path[j]) is None
    &&& spec_walk(d, cwd, path, 0, 0) matches Ok(WalkStateView::MissingComponent { working_directory_id, remaining_start, .. })
        && (recursive || remaining_start == path.len()) && d.nodes.contains_key(working_directory_id)
        && d.nodes[working_directory_id].data is Directory
}

/// Creating the missing directory of an owed `mkdir` round fails only on the state of the
/// drive; when it succeeds, the path leads to the new directory or, when components remain,
/// the next one is missing in it.
proof fn lemma_mkdir_create(
    d: InnerDriveView,
    cwd: NodeId,
    path: Seq<Seq<char>>,
    wd: NodeId,
    rs: int,
    owner: ActorId,
    parent: PermanentId,
    b: crate::filesystem::nodes::node_builder::NodeBuilder,
    pid: Seq<u8>,
    now: i64,
)
    requires
        spec_inner_wf(d),
        path.len() <= MAX_PATH_DEPTH,
        forall|j: int| 0 <= j < path.len() ==> spec_name_error(#[trigger] path[j]) is None,
        spec_walk(d, cwd, path, 0, 0) == Ok::<WalkStateView, OperationErrorView>(
            WalkStateView::MissingComponent {
                working_directory_id: wd,
                missing_name: NodeNameView::Named(path[rs - 1]),
                remaining_start: rs as usize,
            },
        ),
        0 < rs <= path.len(),
        d.nodes.contains_key(wd),
        d.nodes[wd].data is Directory,
        spec_children(d.nodes[wd].data) matches Some(m) && spec_find_name(m, NodeNameView::Named(path[rs - 1])) is None,
        spec_lookup(d, parent@) == Some(wd),
        spec_lookup(d, pid) is None,
        b.id is None && b.parent_id is None && b.owner_id is None && b.size_hint is None,
        b.name@ == NodeNameView::Named(path[rs - 1]),
        b.kind == crate::codec::node_kind::NodeKind::Directory,
    ensures
        match crate::filesystem::drive::inner::spec_create(d, owner, parent@, parent, b, pid, now) {
            Err(e) => crate::filesystem::drive::inner::spec_state_error(e),
            Ok((cd, k)) => !d.nodes.contains_key(k) ==> {
                &&& cd.nodes.contains_key(k)
                &&& cd.nodes[k].data is Directory
                &&& spec_walk(cd, cwd, path, 0, 0) == (if rs == path.len() {
                    Ok::<WalkStateView, OperationErrorView>(WalkStateView::FoundNode { node_id: k })
                } else {
                    Ok::<WalkStateView, OperationErrorView>(
                        WalkStateView::MissingComponent {
                            working_directory_id: k,
                            missing_name: NodeNameView::Named(path[rs]),
                            remaining_start: (rs + 1) as usize,
                        },
                    )
                })
            },
        },
{
    assert(d.nodes[wd].id == wd);
    match crate::filesystem::drive::inner::spec_create(d, owner, parent@, parent, b, pid, now) {
        Err(e) => {},
        Ok((cd, k)) => {
            if !d.nodes.contains_key(k) {
                let b2 = crate::filesystem::nodes::node_builder::NodeBuilder {
                    parent_id: Some(parent),
                    id: Some(k),
                    owner_id: Some(owner),
                    ..b
                };
                let n = crate::filesystem::nodes::node_builder::spec_build(b2, pid, now).unwrap();
                let e = crate::filesystem::nodes::node_data::child_map::ChildMapEntryView {
                    permanent_id: pid,
                    cid: crate::utils::blake3_hash(crate::filesystem::nodes::node::spec_node_body(n)),
                    size: crate::filesystem::nodes::node::spec_node_size(n) as u64,
                };
                assert(cd == spec_with_new_child(d, wd, k, n, e));
                if rs < path.len() {
                    assert(spec_name_error(path[rs]) is None);
                }
                lemma_walk_after_create(d, k, n, e, wd, cwd, path, 0, 0, rs);
                assert(cd.nodes[k] == n);
            }
        },
    }
}

/// A new directory called `name` at position `k` below the node with permanent ID `parent`,
/// owned by `owner`, with permanent ID `pid`, created at `now`.
pub open spec fn spec_new_directory(k: NodeId, parent: Seq<u8>, owner: Seq<u8>, name: NodeNameView, pid: Seq<u8>, now: i64) -> NodeView {
    NodeView {
        id: k,
        parent_id: Some(parent),
        permanent_id: pid,
        owner_id: owner,
        vector_clock: 0,
        created_at: now,
        modified_at: now,
        name,
        metadata: Seq::empty(),
        data: NodeDataView::Directory {
            permissions: crate::filesystem::nodes::node_data::spec_default_permissions(),
            children: Seq::empty(),
        },
    }
}

/// One round of `mkdir`: the walk of `path` from `cwd` in `a` stops at a missing component
/// (the last one, unless `recursive`) below a directory, and `b` is `a` with a new directory of
/// that name, owned by `owner`, in that directory (up to modification times and recorded
/// child CIDs and sizes).
pub open spec fn spec_mkdir_round(
    a: InnerDriveView,
    b: InnerDriveView,
    cwd: NodeId,
    path: Seq<Seq<char>>,
    recursive: bool,
    owner: Seq<u8>,
) -> bool {
    match spec_walk(a, cwd, path, 0, 0) {
        Ok(WalkStateView::MissingComponent { working_directory_id, missing_name, remaining_start }) => {
            &&& recursive || remaining_start == path.len()
            &&& a.nodes.contains_key(working_directory_id) && a.nodes[working_directory_id].data is Directory
            &&& exists|k: NodeId, pid: Seq<u8>, now: i64|
                !a.nodes.contains_key(k) && spec_lookup(a, pid) is None && #[trigger] spec_same_structure(
                    spec_with_new_child(
                        a,
                        working_directory_id,
                        k,
                        spec_new_directory(k, a.nodes[working_directory_id].permanent_id, owner, missing_name, pid, now),
                        crate::filesystem::nodes::node_data::child_map::ChildMapEntryView { permanent_id: pid, cid: Seq::empty(), size: 0 },
                    ),
                    b,
                )
        },
        _ => false,
    }
}

/// The rounds of a `mkdir` from `start` that ended in `last`.
pub open spec fn spec_mkdir_rounds(
    start: InnerDriveView,
    rounds: Seq<InnerDriveView>,
    last: InnerDriveView,
    cwd: NodeId,
    path: Seq<Seq<char>>,
    recursive: bool,
    owner: Seq<u8>,
) -> bool {
    &&& rounds.len() >= 1
    &&& rounds[0] == start
    &&& rounds.last() == last
    &&& forall|i: int| 0 <= i < rounds.len() - 1 ==> #[trigger] spec_mkdir_round(rounds[i], rounds[i + 1], cwd, path, recursive, owner)
}

/// The recorded CID and size of a new child's entry do not change the structure of a drive.
proof fn lemma_new_child_entry_irrelevant(
    d: InnerDriveView,
    wd: NodeId,
    k: NodeId,
    n: NodeView,
    e1: crate::filesystem::nodes::node_data::child_map::ChildMapEntryView,
    e2: crate::filesystem::nodes::node_data::child_map::ChildMapEntryView,
)
    requires
        d.nodes.contains_key(wd),
        spec_children(d.nodes[wd].data) is Some,
        e1.permanent_id == e2.permanent_id,
    ensures
        spec_same_structure(spec_with_new_child(d, wd, k, n, e1), spec_with_new_child(d, wd, k, n, e2)),
{
    let a = spec_with_new_child(d, wd, k, n, e1);
    let b = spec_with_new_child(d, wd, k, n, e2);
    let m = spec_children(d.nodes[wd].data).unwrap();
    let m1 = crate::filesystem::nodes::node_data::child_map::spec_insert_child(m, n.name, e1);
    let m2 = crate::filesystem::nodes::node_data::child_map::spec_insert_child(m, n.name, e2);
    assert(crate::filesystem::drive::inner::spec_children_same_structure(m1, m2));
    assert(a.nodes.dom() =~= b.nodes.dom());
    assert forall|id: NodeId| #[trigger] a.nodes.contains_key(id) implies crate::filesystem::drive::inner::spec_node_same_structure(
        a.nodes[id],
        b.nodes[id],
    ) by {
        if id == wd {
            match d.nodes[wd].data {
                NodeDataView::File { .. } => {},
                NodeDataView::Directory { .. } => {},
                NodeDataView::AssociatedData { .. } => {},
            }
        } else {
            match a.nodes[id].data {
                NodeDataView::File { associated_data, .. } => {
                    assert(crate::filesystem::drive::inner::spec_children_same_structure(associated_data, associated_data));
                },
                NodeDataView::Directory { children, .. } => {
                    assert(crate::filesystem::drive::inner::spec_children_same_structure(children, children));
                },
                NodeDataView::AssociatedData { .. } => {},
            }
        }
    }
}

/// A walk that stopped at a missing component stopped in a node that can have children and
/// does not have a child of that name.
proof fn lemma_walk_missing(d: InnerDriveView, c: NodeId, path: Seq<Seq<char>>, i: int, dep: int)
    requires
        0 <= i,
        path.len() <= usize::MAX,
        spec_walk(d, c, path, i, dep) matches Ok(WalkStateView::MissingComponent { .. }),
    ensures
        (spec_walk(d, c, path, i, dep) matches Ok(WalkStateView::MissingComponent { working_directory_id, missing_name, remaining_start })
            && d.nodes.contains_key(working_directory_id) && i < remaining_start <= path.len()
            && missing_name == NodeNameView::Named(path[remaining_start - 1])
            && (spec_children(d.nodes[working_directory_id].data) matches Some(m) && spec_find_name(m, missing_name) is None)),
    decreases path.len() - i,
{
    if i < path.len() && spec_name_error(path[i]) is None && d.nodes.contains_key(c) {
        match spec_children(d.nodes[c].data) {
            Some(m) => match spec_find_name(m, NodeNameView::Named(path[i])) {
                Some(k) => match spec_by_perm_id(d, m[k].1.permanent_id) {
                    Ok(next) => {
                        if (next.data is Directory || next.data is File) && dep < MAX_PATH_DEPTH {
                            lemma_walk_missing(d, next.id, path, i + 1, dep + 1);
                        }
                    },
                    Err(_) => {},
                },
                None => {},
            },
            None => {},
        }
    }
}

/// The listing entries of the children in `m` from position `i` on, in map order.
pub open spec fn spec_entries(d: InnerDriveView, m: Seq<ChildPair>, i: int) -> Result<Seq<DirectoryEntryView>, OperationErrorView>
    decreases m.len() - i,
{
    if i < 0 || i >= m.len() {
        Ok(Seq::empty())
    } else {
        match spec_by_perm_id(d, m[i].1.permanent_id) {
            Err(e) => Err(e),
            Ok(n) => match spec_directory_entry(d, n) {
                Err(e) => Err(e),
                Ok(entry) => match spec_entries(d, m, i + 1) {
                    Err(e) => Err(e),
                    Ok(rest) => Ok(seq![entry] + rest),
                },
            },
        }
    }
}

/// Each listing entry reports the child it lists, in the order of the children: the child's
/// permanent ID and name, when it was created and when it was last modified.
pub proof fn lemma_entries_report_children(d: InnerDriveView, m: Seq<ChildPair>, i: int)
    requires
        0 <= i <= m.len(),
    ensures
        spec_entries(d, m, i) matches Ok(es) ==> es.len() == m.len() - i,
        spec_entries(d, m, i) matches Ok(es) ==> forall|j: int|
            0 <= j < es.len() ==> ({
                &&& #[trigger] spec_by_perm_id(d, m[i + j].1.permanent_id) matches Ok(n)
                &&& es[j].permanent_id == n.permanent_id
                &&& es[j].name == n.name
                &&& es[j].created_at == n.created_at
                &&& es[j].modified_at == n.modified_at
            }),
    decreases m.len() - i,
{
    if i < m.len() {
        lemma_entries_report_children(d, m, i + 1);
        match spec_entries(d, m, i) {
            Ok(es) => {
                let rest = spec_entries(d, m, i + 1)->Ok_0;
                assert(es == seq![es[0]] + rest);
                assert forall|j: int| 0 <= j < es.len() implies ({
                    &&& #[trigger] spec_by_perm_id(d, m[i + j].1.permanent_id) matches Ok(n)
                    &&& es[j].permanent_id == n.permanent_id
                    &&& es[j].name == n.name
                    &&& es[j].created_at == n.created_at
                    &&& es[j].modified_at == n.modified_at
                }) by {
                    if j > 0 {
                        assert(es[j] == rest[j - 1]);
                        assert(m[i + j] == m[(i + 1) + (j - 1)]);
                    }
                }
            },
            Err(_) => {},
        }
    }
}

/// What listing `path` from directory `cwd` gives: the entries of the directory reached, or
/// the entry of the file reached; a path that does not lead to a node is not traversable.
pub open spec fn spec_ls(d: InnerDriveView, cwd: NodeId, path: Seq<Seq<char>>) -> Result<Seq<DirectoryEntryView>, OperationErrorView> {
    if path.len() == 0 {
        match spec_by_id(d, cwd) {
            Err(e) => Err(e),
            Ok(n) => match n.data {
                NodeDataView::Directory { children, .. } => spec_entries(d, children, 0),
                _ => Err(OperationErrorView::InternalCorruption(cwd, "current NodeId not a directory")),
            },
        }
    } else {
        match spec_walk(d, cwd, path, 0, 0) {
            Ok(WalkStateView::FoundNode { node_id }) => match spec_by_id(d, node_id) {
                Err(e) => Err(e),
                Ok(n) => match n.data {
                    NodeDataView::Directory { children, .. } => spec_entries(d, children, 0),
                    _ => match spec_directory_entry(d, n) {
                        Ok(e) => Ok(seq![e]),
                        Err(e) => Err(e),
                    },
                },
            },
            _ => Err(OperationErrorView::NotTraversable),
        }
    }
}

/// What changing into `path` from `cwd` gives: the directory reached; any other outcome of
/// the walk is refused as not traversable.
pub open spec fn spec_cd(d: InnerDriveView, cwd: NodeId, path: Seq<Seq<char>>) -> Result<NodeId, OperationErrorView> {
    if path.len() == 0 {
        Ok(cwd)
    } else {
        match spec_walk(d, cwd, path, 0, 0) {
            Ok(WalkStateView::FoundNode { node_id }) => Ok(node_id),
            _ => Err(OperationErrorView::NotTraversable),
        }
    }
}

/// Where a move of `src` to `dst` from directory `cwd` goes: the node `src` leads to, the
/// directory it is moved into, and its name there. A `dst` that leads to a directory moves the
/// node into it under its own name; one whose last component alone is missing names the new
/// entry in the directory reached.
pub open spec fn spec_mv_target(d: InnerDriveView, cwd: NodeId, src: Seq<Seq<char>>, dst: Seq<Seq<char>>) -> Result<(NodeId, NodeId, NodeNameView), OperationErrorView> {
    match spec_walk(d, cwd, src, 0, 0) {
        Err(e) => Err(e),
        Ok(WalkStateView::MissingComponent { .. }) => Err(OperationErrorView::PathNotFound),
        Ok(WalkStateView::FoundNode { node_id: src_id }) => match spec_walk(d, cwd, dst, 0, 0) {
            Err(e) => Err(e),
            Ok(WalkStateView::FoundNode { node_id }) => match spec_by_id(d, node_id) {
                Err(e) => Err(e),
                Ok(found) => if !(found.data is Directory) {
                    Err(OperationErrorView::ParentMustBeDirectory)
                } else {
                    match spec_by_id(d, src_id) {
                        Err(e) => Err(e),
                        Ok(s) => Ok((src_id, node_id, s.name)),
                    }
                },
            },
            Ok(WalkStateView::MissingComponent { working_directory_id, remaining_start, .. }) => if dst.len()
                - remaining_start > 1 {
                Err(OperationErrorView::PathNotFound)
            } else {
                match spec_by_id(d, working_directory_id) {
                    Err(e) => Err(e),
                    Ok(found) => if !(found.data is Directory) {
                        Err(OperationErrorView::ParentMustBeDirectory)
                    } else if dst.len() == 0 {
                        Err(OperationErrorView::UnexpectedEmptyPath)
                    } else {
                        match spec_name_error(dst.last()) {
                            Some(e) => Err(OperationErrorView::InvalidName(e)),
                            None => Ok((src_id, working_directory_id, NodeNameView::Named(dst.last()))),
                        }
                    },
                }
            },
        },
    }
}

/// A move that goes through lists the node in its new parent under its new name, and the node
/// records that parent and name.
pub proof fn lemma_move_relinks(d: InnerDriveView, src_id: NodeId, dst_id: NodeId, name: NodeNameView)
    requires
        spec_inner_wf(d),
        spec_move(d, src_id, dst_id, name).1 is None,
    ensures
        ({
            let out = spec_move(d, src_id, dst_id, name).0;
            &&& out.nodes.contains_key(src_id) && out.nodes.contains_key(dst_id)
            &&& out.nodes[src_id].permanent_id == d.nodes[src_id].permanent_id
            &&& out.nodes[src_id].name == name
            &&& out.nodes[src_id].parent_id == Some(d.nodes[dst_id].permanent_id)
            &&& spec_children(out.nodes[dst_id].data) matches Some(m) && spec_find_name(m, name) matches Some(k)
                && m[k].1.permanent_id == d.nodes[src_id].permanent_id
        }),
{
    let src = d.nodes[src_id];
    let sp = spec_lookup(d, src.parent_id.unwrap()).unwrap();
    let m = spec_children(d.nodes[sp].data).unwrap();
    let i = spec_find_name(m, src.name).unwrap();
    let d1 = crate::filesystem::drive::inner::spec_with_node_children(d, sp, m.remove(i));
    let m2 = spec_children(d1.nodes[dst_id].data).unwrap();
    let (cid, size) = crate::filesystem::drive::inner::spec_node_entry(src)->Ok_0;
    let entry = crate::filesystem::nodes::node_data::child_map::ChildMapEntryView { permanent_id: src.permanent_id, cid, size };
    let m3 = crate::filesystem::nodes::node_data::child_map::spec_insert_child(m2, name, entry);
    lemma_find_after_insert(m2, name, entry, name);
    assert(d1.nodes[dst_id].permanent_id == d.nodes[dst_id].permanent_id);
    assert(spec_children(crate::filesystem::nodes::node_data::spec_with_children(d1.nodes[dst_id].data, m3)) == Some(m3)) by {
        match d1.nodes[dst_id].data {
            NodeDataView::File { .. } => {},
            NodeDataView::Directory { .. } => {},
            NodeDataView::AssociatedData { .. } => {},
        }
    }
}

/// Where a path leads to a directory, as it does after a successful `mkdir`, changing into the
/// path reaches that directory and listing the path lists its children.
pub proof fn lemma_directory_reached(d: InnerDriveView, cwd: NodeId, path: Seq<Seq<char>>, node_id: NodeId)
    requires
        path.len() > 0,
        spec_walk(d, cwd, path, 0, 0) == Ok::<WalkStateView, OperationErrorView>(WalkStateView::FoundNode { node_id }),
        d.nodes.contains_key(node_id),
        d.nodes[node_id].data is Directory,
    ensures
        spec_cd(d, cwd, path) == Ok::<NodeId, OperationErrorView>(node_id),
        spec_ls(d, cwd, path) == spec_entries(d, spec_children(d.nodes[node_id].data).unwrap(), 0),
{
}

/// A position in a drive's directory tree on behalf of an actor; operations take paths
/// relative to it.
pub struct DirectoryHandle {
    pub current_actor: ActorId,
    pub cwd_id: NodeId,
}

fn entries_of(inner: &InnerDrive, children: &crate::filesystem::nodes::node_data::child_map::ChildMap) -> (r: Result<Vec<DirectoryEntry>, OperationError>)
    requires
        spec_inner_wf(inner@),
    ensures
        match spec_entries(inner@, children@, 0) {
            Ok(es) => r matches Ok(v) && v@.map_values(|e: DirectoryEntry| e@) == es,
            Err(e) => r matches Err(x) && x@ == e,
        },
{
    let mut entries: Vec<DirectoryEntry> = Vec::new();
    let mut i: usize = 0;
    let ghost m = children@;
    assert(entries@.map_values(|e: DirectoryEntry| e@) =~= Seq::<DirectoryEntryView>::empty());
    while i < children.entries.len()
        invariant
            m == children@,
            spec_inner_wf(inner@),
            i <= m.len(),
            m.len() == children.entries@.len(),
            spec_entries(inner@, m, 0) == match spec_entries(inner@, m, i as int) {
                Ok(rest) => Ok(entries@.map_values(|e: DirectoryEntry| e@) + rest),
                Err(e) => Err(e),
            },
        decreases m.len() - i,
    {
        assert(m[i as int] == (children.entries@[i as int].0@, children.entries@[i as int].1@));
        let node = inner.by_perm_id(&children.entries[i].1.permanent_id)?;
        proof {
            crate::filesystem::drive::inner::lemma_by_perm_id_in_table(inner@, m[i as int].1.permanent_id);
        }
        let entry = DirectoryEntry::try_from(inner, node)?;
        let ghost before = entries@.map_values(|e: DirectoryEntry| e@);
        entries.push(entry);
        proof {
            assert(entries@.map_values(|e: DirectoryEntry| e@) =~= before.push(entry@));
            match spec_entries(inner@, m, i + 1) {
                Ok(rest) => {
                    assert(before + (seq![entry@] + rest) =~= before.push(entry@) + rest);
                },
                Err(_) => {},
            }
        }
        i = i + 1;
    }
    assert(entries@.map_values(|e: DirectoryEntry| e@) + Seq::<DirectoryEntryView>::empty() =~= entries@.map_values(
        |e: DirectoryEntry| e@,
    ));
    Ok(entries)
}

/// Asks the store to drop each block, in order and recursively, stopping at the first failure,
/// which is reported as a store error. When every request succeeded none of the blocks is
/// available any more and no block became available; with no blocks the store is left alone.
fn remove_blocks<S: DataStore>(store: &mut S, cids: &Vec<Cid>) -> (r: Result<(), OperationError>)
    ensures
        cids@.len() == 0 ==> r is Ok && *final(store) == *old(store),
        r is Ok ==> (forall|i: int| 0 <= i < cids@.len() ==> !final(store).spec_blocks().contains_key(#[trigger] cids@[i]@))
            && final(store).spec_blocks().dom().subset_of(old(store).spec_blocks().dom()),
        r matches Err(e) ==> e is DataStore,
{
    let mut i: usize = 0;
    while i < cids.len()
        invariant
            i <= cids@.len(),
            forall|j: int| 0 <= j < i ==> !store.spec_blocks().contains_key(#[trigger] cids@[j]@),
            store.spec_blocks().dom().subset_of(old(store).spec_blocks().dom()),
            i == 0 ==> *store == *old(store),
        decreases cids@.len() - i,
    {
        let ghost before = store.spec_blocks();
        match store.remove(cids[i], true) {
            Ok(()) => {},
            Err(e) => return Err(OperationError::DataStore(e)),
        }
        assert forall|j: int| 0 <= j < i + 1 implies !store.spec_blocks().contains_key(#[trigger] cids@[j]@) by {
            if j < i {
                assert(!before.contains_key(cids@[j]@));
            }
        }
        i = i + 1;
    }
    Ok(())
}

impl DirectoryHandle {
    /// A handle on directory `cwd_id` for `current_actor`.
    pub fn new(current_actor: ActorId, cwd_id: NodeId) -> (r: DirectoryHandle)
        ensures
            r.current_actor == current_actor && r.cwd_id == cwd_id,
    {
        DirectoryHandle { current_actor, cwd_id }
    }

    /// The size of the directory: not computed yet, so always zero.
    pub fn size(&self) -> (r: Result<u64, OperationError>)
        ensures
            r == Ok::<u64, OperationError>(0),
    {
        Ok(0)
    }

    /// A handle on the directory `path` leads to; an empty path stays here.
    pub fn cd(&self, inner: &InnerDrive, path: &[&str]) -> (r: Result<DirectoryHandle, OperationError>)
        ensures
            match spec_cd(inner@, self.cwd_id, spec_path(path)) {
                Ok(id) => r matches Ok(h) && h.cwd_id == id && h.current_actor == self.current_actor,
                Err(e) => r matches Err(x) && x@ == e,
            },
    {
        let target_directory_id = if path.len() == 0 {
            self.cwd_id
        } else {
            match walk_path(inner, self.cwd_id, path, 0) {
                Ok(WalkState::FoundNode { node_id }) => node_id,
                _ => return Err(OperationError::NotTraversable),
            }
        };
        Ok(DirectoryHandle { current_actor: self.current_actor, cwd_id: target_directory_id })
    }

    /// The entries of the directory `path` leads to, or the entry of the file it leads to.
    pub fn ls(&self, inner: &InnerDrive, path: &[&str]) -> (r: Result<Vec<DirectoryEntry>, OperationError>)
        requires
            spec_inner_wf(inner@),
        ensures
            match spec_ls(inner@, self.cwd_id, spec_path(path)) {
                Ok(es) => r matches Ok(v) && v@.map_values(|e: DirectoryEntry| e@) == es,
                Err(e) => r matches Err(x) && x@ == e,
            },
    {
        if path.len() == 0 {
            let current_node = inner.by_id(self.cwd_id)?;
            match current_node.data() {
                crate::filesystem::nodes::node_data::NodeData::Directory { children, .. } => entries_of(inner, children),
                _ => Err(OperationError::InternalCorruption(self.cwd_id, "current NodeId not a directory")),
            }
        } else {
            let node_id = match walk_path(inner, self.cwd_id, path, 0) {
                Ok(WalkState::FoundNode { node_id }) => node_id,
                _ => return Err(OperationError::NotTraversable),
            };
            let listed_node = inner.by_id(node_id)?;
            match listed_node.data() {
                crate::filesystem::nodes::node_data::NodeData::Directory { children, .. } => entries_of(inner, children),
                _ => {
                    proof {
                        crate::filesystem::drive::inner::lemma_by_id_in_table(inner@, node_id);
                    }
                    let entry = DirectoryEntry::try_from(inner, listed_node)?;
                    let mut v: Vec<DirectoryEntry> = Vec::new();
                    v.push(entry);
                    assert(v@.map_values(|e: DirectoryEntry| e@) =~= seq![entry@]);
                    Ok(v)
                },
            }
        }
    }

    /// Removes the node `path` leads to and everything below it, asks the store to drop the
    /// data blocks they referenced, and brings the recorded sizes up to date.
    pub fn rm<S: DataStore>(&mut self, inner: &mut InnerDrive, store: &mut S, path: &[&str]) -> (r: Result<(), OperationError>)
        requires
            spec_inner_wf(old(inner)@),
        ensures
            spec_inner_wf(final(inner)@),
            path@.len() == 0 ==> (r matches Err(x) && x@ == OperationErrorView::UnexpectedEmptyPath && final(inner)@ == old(inner)@),
            path@.len() > 0 ==> match spec_walk(old(inner)@, old(self).cwd_id, spec_path(path), 0, 0) {
                Err(e) => r matches Err(x) && x@ == e && final(inner)@ == old(inner)@,
                Ok(WalkStateView::MissingComponent { .. }) => r matches Err(x) && x@ == OperationErrorView::PathNotFound
                    && final(inner)@ == old(inner)@,
                Ok(WalkStateView::FoundNode { node_id }) => match spec_by_id(old(inner)@, node_id) {
                    Err(e) => r matches Err(x) && x@ == e && final(inner)@ == old(inner)@,
                    Ok(n) => match spec_remove_prepare(old(inner)@, n.permanent_id) {
                        Err(e) => r matches Err(x) && x@ == e && spec_same_structure(old(inner)@, final(inner)@),
                        Ok((d1, _)) => {
                            let out = spec_remove_subtrees(d1, seq![n.permanent_id], Seq::empty(), d1.nodes.dom().len());
                            &&& spec_same_structure(out.0, final(inner)@)
                            &&& (out.2 matches Some(e) ==> (r matches Err(x) && x@ == e))
                            &&& (r is Ok ==> out.2 is None && (forall|i: int| 0 <= i < out.1.len()
                                ==> !final(store).spec_blocks().contains_key(#[trigger] out.1[i]))
                                && final(store).spec_blocks().dom().subset_of(old(store).spec_blocks().dom()))
                            &&& (out.2 is None ==> ((out.1.len() > 0 && r matches Err(OperationError::DataStore(_)))
                                || exists|removed: InnerDriveView, steps: Seq<InnerDriveView>|
                                spec_inner_wf(removed) && spec_same_structure(out.0, removed) && #[trigger] spec_clean_run(
                                    spec_without_dirty(removed),
                                    spec_clean_order(removed.dirty),
                                    steps,
                                    final(inner)@,
                                    spec_error_of(r),
                                )))
                        },
                    },
                },
            },
    {
        if path.len() == 0 {
            return Err(OperationError::UnexpectedEmptyPath);
        }
        let target_node_id = match walk_path(inner, self.cwd_id, path, 0)? {
            WalkState::FoundNode { node_id } => node_id,
            WalkState::MissingComponent { .. } => return Err(OperationError::PathNotFound),
        };
        let target_perm_id = inner.by_id(target_node_id)?.permanent_id();
        let removed = inner.remove_node(target_perm_id)?;
        let ghost after_remove = inner@;
        match removed {
            Some(cids) => {
                remove_blocks(store, &cids)?;
                proof {
                    assert forall|i: int| 0 <= i < cids@.len() implies cids@.map_values(|x: Cid| x@)[i] == #[trigger] cids@[i]@ by {}
                }
            },
            None => {},
        }
        match inner.clean_drive() {
            Ok(()) => {},
            Err(e) => {
                proof {
                    crate::filesystem::drive::inner::lemma_same_structure_trans_pub(
                        crate::filesystem::drive::inner::spec_removed_drive(old(inner)@, target_perm_id@),
                        after_remove,
                        inner@,
                    );
                }
                return Err(e);
            },
        }
        proof {
            crate::filesystem::drive::inner::lemma_same_structure_trans_pub(
                crate::filesystem::drive::inner::spec_removed_drive(old(inner)@, target_perm_id@),
                after_remove,
                inner@,
            );
        }
        Ok(())
    }

    /// Creates the directory `path` leads to. With `recursive`, missing directories along the
    /// path are created too; without it only the last component may be missing. An existing
    /// directory is accepted as it is; an existing file is refused, and so is a path whose
    /// missing part would start below a file: directories only go under directories.
    pub fn mkdir(&mut self, inner: &mut InnerDrive, rng: &mut ChaCha20Rng, path: &[&str], recursive: bool) -> (r: Result<(), OperationError>)
        requires
            spec_inner_wf(old(inner)@),
        ensures
            spec_inner_wf(final(inner)@),
            path@.len() == 0 ==> (r matches Err(x) && x@ == OperationErrorView::UnexpectedEmptyPath && final(inner)@ == old(inner)@),
            path@.len() > 0 ==> match spec_walk(old(inner)@, old(self).cwd_id, spec_path(path), 0, 0) {
                Err(e) => r matches Err(x) && x@ == e && final(inner)@ == old(inner)@,
                Ok(WalkStateView::FoundNode { node_id }) => final(inner)@ == old(inner)@ && match spec_by_id(old(inner)@, node_id) {
                    Err(e) => r matches Err(x) && x@ == e,
                    Ok(n) => if n.data is Directory {
                        r is Ok
                    } else {
                        r matches Err(x) && x@ == OperationErrorView::Exists(node_id)
                    },
                },
                Ok(WalkStateView::MissingComponent { remaining_start, working_directory_id, .. }) => {
                    &&& (!recursive && remaining_start < path@.len()) ==> (r matches Err(x) && x@ == OperationErrorView::PathNotFound
                        && final(inner)@ == old(inner)@)
                    &&& ((recursive || remaining_start == path@.len()) && old(inner)@.nodes.contains_key(working_directory_id)
                        && !(old(inner)@.nodes[working_directory_id].data is Directory)) ==> (r matches Err(x) && x@
                        == OperationErrorView::ParentMustBeDirectory && final(inner)@ == old(inner)@)
                },
            },
            (r is Ok && path@.len() <= MAX_PATH_DEPTH) ==> (spec_walk(final(inner)@, old(self).cwd_id, spec_path(path), 0, 0) matches Ok(
                WalkStateView::FoundNode { node_id },
            ) && final(inner)@.nodes.contains_key(node_id) && final(inner)@.nodes[node_id].data is Directory),
            spec_mkdir_owed(old(inner)@, old(self).cwd_id, spec_path(path), recursive) ==> (r is Ok || r matches Err(
                OperationError::Other(_),
            ) || (r matches Err(x) && crate::filesystem::drive::inner::spec_state_error(x@))),
            r is Ok ==> exists|rounds: Seq<InnerDriveView>|
                #[trigger] spec_mkdir_rounds(
                    old(inner)@,
                    rounds,
                    final(inner)@,
                    old(self).cwd_id,
                    spec_path(path),
                    recursive,
                    old(self).current_actor@,
                ),
    {
        if path.len() == 0 {
            return Err(OperationError::UnexpectedEmptyPath);
        }
        let ghost p = spec_path(path);
        let ghost start = inner@;
        let cwd = self.cwd_id;
        let path_len = path.len();
        assert(p.len() == path_len);
        let mut iteration: usize = 0;
        let ghost mut rounds: Seq<InnerDriveView> = seq![start];
        let ghost owed = spec_mkdir_owed(start, cwd, p, recursive);
        proof {
            if owed {
                lemma_walk_missing(start, cwd, p, 0, 0);
            }
        }
        while iteration < MAX_PATH_DEPTH
            invariant
                owed == spec_mkdir_owed(start, cwd, p, recursive),
                owed ==> p.len() <= MAX_PATH_DEPTH && (forall|j: int| 0 <= j < p.len() ==> spec_name_error(#[trigger] p[j]) is None),
                owed ==> (spec_walk(inner@, cwd, p, 0, 0) matches Ok(
                    WalkStateView::MissingComponent { working_directory_id, remaining_start, .. },
                ) && remaining_start >= iteration + 1 && (recursive || remaining_start == p.len()) && inner@.nodes.contains_key(
                    working_directory_id,
                ) && inner@.nodes[working_directory_id].data is Directory),
                spec_mkdir_rounds(start, rounds, inner@, cwd, p, recursive, self.current_actor@),
                self.current_actor == old(self).current_actor,
                start == old(inner)@,
                cwd == old(self).cwd_id,
                p == spec_path(path),
                path@.len() > 0,
                p.len() <= usize::MAX,
                spec_inner_wf(inner@),
                iteration == 0 ==> inner@ == start,
                iteration > 0 ==> (spec_walk(start, cwd, p, 0, 0) matches Ok(
                    WalkStateView::MissingComponent { remaining_start, working_directory_id, .. },
                ) && (recursive || remaining_start == path@.len()) && start.nodes.contains_key(working_directory_id)
                    && start.nodes[working_directory_id].data is Directory),
            decreases MAX_PATH_DEPTH - iteration,
        {
            match walk_path(inner, cwd, path, 0)? {
                WalkState::FoundNode { node_id } => {
                    let node = inner.by_id(node_id)?;
                    proof {
                        crate::filesystem::drive::inner::lemma_by_id_in_table(inner@, node_id);
                    }
                    match node.kind() {
                        crate::codec::node_kind::NodeKind::Directory => return Ok(()),
                        _ => return Err(OperationError::Exists(node_id)),
                    }
                },
                WalkState::MissingComponent { working_directory_id, missing_name, remaining_start } => {
                    if !recursive && remaining_start < path.len() {
                        return Err(OperationError::PathNotFound);
                    }
                    let ghost before = inner@;
                    proof {
                        lemma_walk_missing(before, cwd, p, 0, 0);
                    }
                    let parent_node = inner.by_id(working_directory_id)?;
                    proof {
                        crate::filesystem::drive::inner::lemma_by_id_in_table(inner@, working_directory_id);
                    }
                    match parent_node.kind() {
                        crate::codec::node_kind::NodeKind::Directory => {},
                        _ => return Err(OperationError::ParentMustBeDirectory),
                    }
                    let parent_permanent_id = parent_node.permanent_id();
                    let ghost name_view = missing_name@;
                    let builder = crate::filesystem::nodes::node_builder::NodeBuilder::directory(missing_name);
                    let ghost b = builder;
                    let created = inner.create_node(rng, self.current_actor, parent_permanent_id, builder);
                    let ghost after_create = inner@;
                    match created {
                        Ok(_) => {},
                        Err(e) => {
                            proof {
                                if owed && !(e is Other) {
                                    let (pid, now) = choose|pid: Seq<u8>, now: i64| crate::filesystem::drive::inner::spec_lookup(before, pid) is None
                                        && #[trigger] crate::filesystem::drive::inner::spec_create_outcome(
                                        before,
                                        after_create,
                                        created,
                                        self.current_actor,
                                        parent_permanent_id,
                                        b,
                                        pid,
                                        now,
                                    );
                                    assert(spec_lookup(before, parent_permanent_id@) == Some(working_directory_id));
                                    lemma_mkdir_create(
                                        before,
                                        cwd,
                                        p,
                                        working_directory_id,
                                        remaining_start as int,
                                        self.current_actor,
                                        parent_permanent_id,
                                        b,
                                        pid,
                                        now,
                                    );
                                    match crate::filesystem::drive::inner::spec_create(
                                        before,
                                        self.current_actor,
                                        parent_permanent_id@,
                                        parent_permanent_id,
                                        b,
                                        pid,
                                        now,
                                    ) {
                                        Ok((cd, k)) => {
                                            crate::filesystem::drive::inner::lemma_ancestors_error_kind(
                                                cd,
                                                working_directory_id,
                                                cd.nodes.dom().len(),
                                            );
                                        },
                                        Err(_) => {},
                                    }
                                }
                            }
                            return Err(e);
                        },
                    }
                    match inner.clean_drive() {
                        Ok(()) => {},
                        Err(e) => {
                            proof {
                                let steps = choose|steps: Seq<InnerDriveView>| #[trigger] crate::filesystem::drive::inner::spec_clean_run(
                                    spec_without_dirty(after_create),
                                    spec_clean_order(after_create.dirty),
                                    steps,
                                    inner@,
                                    spec_error_of(Err::<(), OperationError>(e)),
                                );
                                crate::filesystem::drive::inner::lemma_clean_error_kind(
                                    spec_without_dirty(after_create),
                                    spec_clean_order(after_create.dirty),
                                    steps,
                                    inner@,
                                    spec_error_of(Err::<(), OperationError>(e)),
                                );
                            }
                            return Err(e);
                        },
                    }
                    proof {
                        let (pid, now) = choose|pid: Seq<u8>, now: i64| crate::filesystem::drive::inner::spec_lookup(before, pid) is None
                            && #[trigger] crate::filesystem::drive::inner::spec_create_outcome(
                            before,
                            after_create,
                            created,
                            self.current_actor,
                            parent_permanent_id,
                            b,
                            pid,
                            now,
                        );
                        match crate::filesystem::drive::inner::spec_create(
                            before,
                            self.current_actor,
                            parent_permanent_id@,
                            parent_permanent_id,
                            b,
                            pid,
                            now,
                        ) {
                            Ok((cd, k)) => {
                                let wd = working_directory_id;
                                assert(spec_lookup(before, parent_permanent_id@) == Some(wd));
                                let b2 = crate::filesystem::nodes::node_builder::NodeBuilder {
                                    parent_id: Some(parent_permanent_id),
                                    id: Some(k),
                                    owner_id: Some(self.current_actor),
                                    ..b
                                };
                                let n = crate::filesystem::nodes::node_builder::spec_build(b2, pid, now).unwrap();
                                let e = crate::filesystem::nodes::node_data::child_map::ChildMapEntryView {
                                    permanent_id: pid,
                                    cid: crate::utils::blake3_hash(crate::filesystem::nodes::node::spec_node_body(n)),
                                    size: crate::filesystem::nodes::node::spec_node_size(n) as u64,
                                };
                                let e0 = crate::filesystem::nodes::node_data::child_map::ChildMapEntryView {
                                    permanent_id: pid,
                                    cid: Seq::empty(),
                                    size: 0,
                                };
                                assert(cd == spec_with_new_child(before, wd, k, n, e));
                                assert(n == spec_new_directory(k, before.nodes[wd].permanent_id, self.current_actor@, name_view, pid, now));
                                lemma_new_child_entry_irrelevant(before, wd, k, n, e0, e);
                                crate::filesystem::drive::inner::lemma_same_structure_trans_pub(cd, after_create, inner@);
                                crate::filesystem::drive::inner::lemma_same_structure_trans_pub(
                                    spec_with_new_child(before, wd, k, n, e0),
                                    cd,
                                    inner@,
                                );
                                assert(spec_mkdir_round(before, inner@, cwd, p, recursive, self.current_actor@));
                                if owed {
                                    lemma_mkdir_create(
                                        before,
                                        cwd,
                                        p,
                                        wd,
                                        remaining_start as int,
                                        self.current_actor,
                                        parent_permanent_id,
                                        b,
                                        pid,
                                        now,
                                    );
                                    lemma_walk_same_structure(cd, inner@, cwd, p, 0, 0);
                                    assert(crate::filesystem::drive::inner::spec_node_same_structure(cd.nodes[k], inner@.nodes[k]));
                                }
                            },
                            Err(_) => {},
                        }
                        let old_rounds = rounds;
                        rounds = rounds.push(inner@);
                        assert forall|i: int| 0 <= i < rounds.len() - 1 implies #[trigger] spec_mkdir_round(
                            rounds[i],
                            rounds[i + 1],
                            cwd,
                            p,
                            recursive,
                            self.current_actor@,
                        ) by {
                            if i < old_rounds.len() - 1 {
                                assert(rounds[i] == old_rounds[i] && rounds[i + 1] == old_rounds[i + 1]);
                            } else {
                                assert(rounds[i] == before);
                            }
                        }
                    }
                    if remaining_start == path.len() {
                        proof {
                          if p.len() <= MAX_PATH_DEPTH {
                            let (pid, now) = choose|pid: Seq<u8>, now: i64| crate::filesystem::drive::inner::spec_lookup(before, pid) is None
                                && #[trigger] crate::filesystem::drive::inner::spec_create_outcome(
                                before,
                                after_create,
                                created,
                                self.current_actor,
                                parent_permanent_id,
                                b,
                                pid,
                                now,
                            );
                            match crate::filesystem::drive::inner::spec_create(
                                before,
                                self.current_actor,
                                parent_permanent_id@,
                                parent_permanent_id,
                                b,
                                pid,
                                now,
                            ) {
                                Ok((cd, k)) => {
                                    let wd = working_directory_id;
                                    assert(spec_lookup(before, parent_permanent_id@) == Some(wd));
                                    let b2 = crate::filesystem::nodes::node_builder::NodeBuilder {
                                        parent_id: Some(parent_permanent_id),
                                        id: Some(k),
                                        owner_id: Some(self.current_actor),
                                        ..b
                                    };
                                    let n = crate::filesystem::nodes::node_builder::spec_build(b2, pid, now).unwrap();
                                    let e = crate::filesystem::nodes::node_data::child_map::ChildMapEntryView {
                                        permanent_id: pid,
                                        cid: crate::utils::blake3_hash(crate::filesystem::nodes::node::spec_node_body(n)),
                                        size: crate::filesystem::nodes::node::spec_node_size(n) as u64,
                                    };
                                    assert(cd == spec_with_new_child(before, wd, k, n, e));
                                    lemma_walk_after_create(before, k, n, e, wd, cwd, p, 0, 0, p.len() as int);
                                    crate::filesystem::drive::inner::lemma_same_structure_trans_pub(cd, after_create, inner@);
                                    lemma_walk_same_structure(cd, inner@, cwd, p, 0, 0);
                                    assert(cd.nodes[k] == n);
                                    assert(cd.nodes.contains_key(k));
                                    assert(crate::filesystem::drive::inner::spec_node_same_structure(cd.nodes[k], inner@.nodes[k]));
                                },
                                Err(_) => {},
                            }
                          }
                        }
                        assert(spec_mkdir_rounds(start, rounds, inner@, cwd, p, recursive, self.current_actor@));
                        return Ok(());
                    }
                },
            }
            iteration = iteration + 1;
        }
        proof {
            if owed {
                lemma_walk_missing(inner@, cwd, p, 0, 0);
            }
        }
        Err(OperationError::PathTooDeep)
    }
    /// Moves the node `src_path` leads to: into the directory `dst_path` leads to, or, where
    /// only the last component of `dst_path` is missing, into the directory before it under
    /// that name. The recorded sizes are brought up to date afterwards.
    pub fn mv(&mut self, inner: &mut InnerDrive, src_path: &[&str], dst_path: &[&str]) -> (r: Result<(), OperationError>)
        requires
            spec_inner_wf(old(inner)@),
        ensures
            spec_inner_wf(final(inner)@),
            match spec_mv_target(old(inner)@, old(self).cwd_id, spec_path(src_path), spec_path(dst_path)) {
                Err(e) => r matches Err(x) && x@ == e && final(inner)@ == old(inner)@,
                Ok((src_id, dst_id, name)) => {
                    let out = spec_move(old(inner)@, src_id, dst_id, name);
                    &&& spec_same_structure(out.0, final(inner)@)
                    &&& (out.1 matches Some(e) ==> (r matches Err(x) && x@ == e))
                    &&& (out.1 is None ==> exists|moved: InnerDriveView, steps: Seq<InnerDriveView>|
                        spec_inner_wf(moved) && spec_same_structure(out.0, moved) && #[trigger] spec_clean_run(
                            spec_without_dirty(moved),
                            spec_clean_order(moved.dirty),
                            steps,
                            final(inner)@,
                            spec_error_of(r),
                        ))
                },
            },
    {
        let src_node_id = match walk_path(inner, self.cwd_id, src_path, 0)? {
            WalkState::FoundNode { node_id } => node_id,
            WalkState::MissingComponent { .. } => return Err(OperationError::PathNotFound),
        };
        let ghost dp = spec_path(dst_path);
        let (dst_parent_id, new_dst_name) = match walk_path(inner, self.cwd_id, dst_path, 0)? {
            WalkState::FoundNode { node_id } => {
                let found_node = inner.by_id(node_id)?;
                proof {
                    crate::filesystem::drive::inner::lemma_by_id_in_table(inner@, node_id);
                }
                match found_node.kind() {
                    crate::codec::node_kind::NodeKind::Directory => {},
                    _ => return Err(OperationError::ParentMustBeDirectory),
                }
                (node_id, inner.by_id(src_node_id)?.name())
            },
            WalkState::MissingComponent { working_directory_id, remaining_start, .. } => {
                let dst_len = dst_path.len();
                assert(dp.len() == dst_len);
                proof {
                    lemma_walk_missing(inner@, self.cwd_id, dp, 0, 0);
                }
                if dst_len - remaining_start > 1 {
                    return Err(OperationError::PathNotFound);
                }
                let found_node = inner.by_id(working_directory_id)?;
                proof {
                    crate::filesystem::drive::inner::lemma_by_id_in_table(inner@, working_directory_id);
                }
                match found_node.kind() {
                    crate::codec::node_kind::NodeKind::Directory => {},
                    _ => return Err(OperationError::ParentMustBeDirectory),
                }
                if dst_path.len() == 0 {
                    return Err(OperationError::UnexpectedEmptyPath);
                }
                let last = dst_path[dst_path.len() - 1];
                assert(dp.last() == last@);
                let name = match NodeName::named(last.to_owned()) {
                    Ok(n) => n,
                    Err(e) => return Err(OperationError::InvalidName(e)),
                };
                (working_directory_id, name)
            },
        };
        let ghost moved = inner@;
        inner.move_node(src_node_id, dst_parent_id, new_dst_name)?;
        let ghost after_move = inner@;
        match inner.clean_drive() {
            Ok(()) => {},
            Err(e) => {
                proof {
                    crate::filesystem::drive::inner::lemma_same_structure_trans_pub(
                        spec_move(moved, src_node_id, dst_parent_id, new_dst_name@).0,
                        after_move,
                        inner@,
                    );
                }
                return Err(e);
            },
        }
        proof {
            crate::filesystem::drive::inner::lemma_same_structure_trans_pub(
                spec_move(moved, src_node_id, dst_parent_id, new_dst_name@).0,
                after_move,
                inner@,
            );
        }
        Ok(())
    }
}

} // verus!
