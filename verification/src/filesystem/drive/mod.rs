//! A drive: the tree of nodes, who may access it, and the operations on its directories.

pub mod access;
pub mod directory_entry;
pub mod directory_handle;
pub mod file_io;
pub mod inner;
pub mod inner_format;
pub mod operations;
pub mod walk_state;

use rand_chacha::ChaCha20Rng;
use vstd::prelude::*;

use crate::codec::ids::{ActorId, Cid, FilesystemId, PermanentId};
use crate::filesystem::drive::access::{
    spec_actors_unique, spec_has_maintenance_access, spec_has_read_access, spec_has_write_access, spec_register_error,
    spec_remove_error, AccessMask, DriveAccess, DriveAccessError, VerifyingKey,
};
use crate::filesystem::drive::directory_entry::{spec_directory_entry, DirectoryEntry};
use crate::filesystem::drive::directory_handle::DirectoryHandle;
use crate::filesystem::drive::inner::{spec_by_perm_id, spec_inner_wf, spec_root_view, InnerDrive, InnerDriveView};
use crate::filesystem::drive::operations::{OperationError, OperationErrorView};
use crate::filesystem::nodes::node::{spec_node_body, spec_node_encode_error, NodeView};
use crate::filesystem::nodes::node_builder::NodeBuilderError;
use crate::filesystem::nodes::node_name::{NodeName, NodeNameView};
use crate::utils::blake3_hash;

verus! {

broadcast use vstd::seq::group_seq_axioms;

/// Why an operation on a drive as a whole failed.
#[derive(Debug)]
pub enum DriveError {
    /// Changing who may access the drive was refused.
    AccessChangeFailure(DriveAccessError),
    /// Building a node failed.
    NodeBuilderError(NodeBuilderError),
    /// An operation on the drive's tree failed.
    OperationError(OperationError),
}

/// A filesystem: its ID, whether it is private, the actor using it, and its tree of nodes with
/// who may access it. Operations on directories go through [`DirectoryHandle`]s.
pub struct Drive {
    pub filesystem_id: FilesystemId,
    pub private: bool,
    pub current_actor: ActorId,
    pub inner: InnerDrive,
}

/// The names on the way down from the root to node `n`, both excluded, as far as parents can be
/// found; more than `fuel` named ancestors are reported as a chain that does not end.
pub open spec fn spec_names_above(d: InnerDriveView, n: NodeView, fuel: nat) -> Result<Seq<Seq<char>>, OperationErrorView>
    decreases fuel,
{
    match n.parent_id {
        None => Ok(Seq::empty()),
        Some(p) => match spec_by_perm_id(d, p) {
            Err(e) => Err(e),
            Ok(parent) => match parent.name {
                NodeNameView::Root => Ok(Seq::empty()),
                NodeNameView::Named(s) => if fuel == 0 {
                    Err(OperationErrorView::InternalCorruption(n.id, "parent chain does not end"))
                } else {
                    match spec_names_above(d, parent, (fuel - 1) as nat) {
                        Ok(above) => Ok(above.push(s)),
                        Err(e) => Err(e),
                    }
                },
            },
        },
    }
}

/// The path from the root to the node with permanent ID `target`: the root's path is empty.
pub open spec fn spec_full_path(d: InnerDriveView, target: Seq<u8>) -> Result<Seq<Seq<char>>, OperationErrorView> {
    match spec_by_perm_id(d, target) {
        Err(_) => Err(OperationErrorView::MissingPermanentId(target)),
        Ok(n) => match n.name {
            NodeNameView::Root => Ok(Seq::empty()),
            NodeNameView::Named(s) => match spec_names_above(d, n, d.nodes.dom().len()) {
                Ok(above) => Ok(above.push(s)),
                Err(e) => Err(e),
            },
        },
    }
}

impl Drive {
    /// A new private drive with the given ID, owned by `actor_id`, holding only a root
    /// directory.
    pub fn initialize_private_with_id(rng: &mut ChaCha20Rng, actor_id: ActorId, actor_key: VerifyingKey, filesystem_id: FilesystemId) -> (r: Result<Drive, DriveError>)
        ensures
            r matches Ok(d) && d.filesystem_id == filesystem_id && d.private && d.current_actor == actor_id && spec_inner_wf(
                d.inner@,
            ) && d.inner@.access.actors == seq![(actor_id@, AccessMask::full_access_spec().owner_spec().protected_spec())]
                && exists|k: usize, now: i64| #[trigger] d.inner@.nodes == map![
                    k => spec_root_view(k, actor_id@, d.inner@.root_pid, now),
                ],
    {
        let access = DriveAccess::initialize(rng, actor_id, actor_key);
        let inner = match InnerDrive::initialize(rng, actor_id, access) {
            Ok(i) => i,
            Err(e) => return Err(DriveError::OperationError(e)),
        };
        Ok(Drive { filesystem_id, private: true, current_actor: actor_id, inner })
    }

    /// A new private drive with a random ID, owned by `actor_id`.
    pub fn initialize_private(rng: &mut ChaCha20Rng, actor_id: ActorId, actor_key: VerifyingKey) -> (r: Result<Drive, DriveError>)
        ensures
            r matches Ok(d) && d.private && d.current_actor == actor_id && spec_inner_wf(d.inner@)
                && d.inner@.access.actors == seq![(actor_id@, AccessMask::full_access_spec().owner_spec().protected_spec())]
                && exists|k: usize, now: i64| #[trigger] d.inner@.nodes == map![
                    k => spec_root_view(k, actor_id@, d.inner@.root_pid, now),
                ],
    {
        let filesystem_id = FilesystemId::generate(rng);
        Self::initialize_private_with_id(rng, actor_id, actor_key, filesystem_id)
    }

    pub fn id(&self) -> (r: FilesystemId)
        ensures
            r == self.filesystem_id,
    {
        self.filesystem_id
    }

    pub fn has_maintenance_access(&self, actor_id: &ActorId) -> (r: bool)
        requires
            spec_inner_wf(self.inner@),
        ensures
            r == spec_has_maintenance_access(self.inner@.access.actors, actor_id@),
    {
        self.inner.access().has_maintenance_access(actor_id)
    }

    pub fn has_read_access(&self, actor_id: &ActorId) -> (r: bool)
        requires
            spec_inner_wf(self.inner@),
        ensures
            r == spec_has_read_access(self.inner@.access.actors, actor_id@),
    {
        self.inner.access().has_read_access(actor_id)
    }

    pub fn has_write_access(&self, actor_id: &ActorId) -> (r: bool)
        requires
            spec_inner_wf(self.inner@),
        ensures
            r == spec_has_write_access(self.inner@.access.actors, actor_id@),
    {
        self.inner.access().has_write_access(actor_id)
    }

    /// Gives the actor `actor_id` the permissions of `access_mask` (see
    /// [`DriveAccess::register_actor`]).
    pub fn authorize_key(&mut self, actor_id: ActorId, actor_key: VerifyingKey, access_mask: AccessMask) -> (r: Result<(), DriveAccessError>)
        requires
            spec_inner_wf(old(self).inner@),
        ensures
            spec_inner_wf(final(self).inner@),
            match spec_register_error(old(self).inner@.access, actor_id@, access_mask) {
                Some(e) => r == Err::<(), DriveAccessError>(e) && final(self).inner@ == old(self).inner@,
                None => r is Ok && final(self).inner@ == (InnerDriveView {
                    access: crate::filesystem::drive::access::DriveAccessView {
                        actors: old(self).inner@.access.actors.push((actor_id@, access_mask)),
                        keys: old(self).inner@.access.keys.push(actor_key@),
                        ..old(self).inner@.access
                    },
                    ..old(self).inner@
                }),
            },
    {
        self.inner.access.register_actor(actor_id, actor_key, access_mask)
    }

    /// Marks the actor `removal_id` as historical on behalf of `current_actor` (see
    /// [`DriveAccess::remove_actor`]).
    pub fn remove_key(&mut self, current_actor: &ActorId, removal_id: &ActorId) -> (r: Result<(), DriveAccessError>)
        requires
            spec_inner_wf(old(self).inner@),
        ensures
            spec_inner_wf(final(self).inner@),
            match spec_remove_error(old(self).inner@.access, *current_actor, *removal_id) {
                Some(e) => r == Err::<(), DriveAccessError>(e) && final(self).inner@ == old(self).inner@,
                None => r is Ok && final(self).inner@ == (InnerDriveView {
                    access: crate::filesystem::drive::access::DriveAccessView {
                        actors: crate::filesystem::drive::access::spec_mark_historical(old(self).inner@.access.actors, removal_id@),
                        ..old(self).inner@.access
                    },
                    ..old(self).inner@
                }),
            },
    {
        self.inner.access.remove_actor(current_actor, removal_id)
    }

    /// A handle on the directory with permanent ID `permanent_id`; a node without children is
    /// refused as not traversable.
    pub fn directory_by_id(&self, permanent_id: &PermanentId) -> (r: Result<DirectoryHandle, OperationError>)
        ensures
            match spec_by_perm_id(self.inner@, permanent_id@) {
                Err(e) => r matches Err(x) && x@ == e,
                Ok(n) => if n.data is Directory || n.data is File {
                    r matches Ok(h) && h.cwd_id == n.id && h.current_actor == self.current_actor
                } else {
                    r matches Err(x) && x@ == OperationErrorView::NotTraversable
                },
            },
    {
        let node = self.inner.by_perm_id(permanent_id)?;
        if !node.supports_children() {
            return Err(OperationError::NotTraversable);
        }
        Ok(DirectoryHandle::new(self.current_actor, node.id()))
    }

    /// The listing entry of the node with permanent ID `permanent_id`.
    pub fn entry_by_id(&self, permanent_id: &PermanentId) -> (r: Result<DirectoryEntry, OperationError>)
        requires
            spec_inner_wf(self.inner@),
        ensures
            match spec_by_perm_id(self.inner@, permanent_id@) {
                Err(e) => r matches Err(x) && x@ == e,
                Ok(n) => match spec_directory_entry(self.inner@, n) {
                    Ok(e) => r matches Ok(x) && x@ == e,
                    Err(e) => r matches Err(x) && x@ == e,
                },
            },
    {
        let node = self.inner.by_perm_id(permanent_id)?;
        proof {
            crate::filesystem::drive::inner::lemma_by_perm_id_in_table(self.inner@, permanent_id@);
        }
        DirectoryEntry::try_from(&self.inner, node)
    }

    /// A handle on the root directory.
    pub fn root(&self) -> (r: Result<DirectoryHandle, OperationError>)
        ensures
            match spec_by_perm_id(self.inner@, self.inner@.root_pid) {
                Err(e) => r matches Err(x) && x@ == e,
                Ok(n) => if n.data is Directory || n.data is File {
                    r matches Ok(h) && h.cwd_id == n.id && h.current_actor == self.current_actor
                } else {
                    r matches Err(x) && x@ == OperationErrorView::NotTraversable
                },
            },
    {
        let root_perm_id = self.inner.root_pid();
        self.directory_by_id(&root_perm_id)
    }

    /// The CID of the root node: the BLAKE3 digest of its encoded body.
    pub fn root_cid(&self) -> (r: Result<Cid, DriveError>)
        requires
            spec_inner_wf(self.inner@),
        ensures
            match spec_by_perm_id(self.inner@, self.inner@.root_pid) {
                Err(e) => r matches Err(DriveError::OperationError(x)) && x@ == e,
                Ok(n) => match spec_node_encode_error(n) {
                    Some(e) => r matches Err(DriveError::OperationError(x)) && x@ == OperationErrorView::Encoding(e),
                    None => r matches Ok(c) && c@ == blake3_hash(spec_node_body(n)),
                },
            },
    {
        let root_node = match self.inner.root_node() {
            Ok(n) => n,
            Err(e) => return Err(DriveError::OperationError(e)),
        };
        proof {
            crate::filesystem::drive::inner::lemma_by_perm_id_in_table(self.inner@, self.inner@.root_pid);
        }
        match root_node.cid() {
            Ok(c) => Ok(c),
            Err(e) => Err(DriveError::OperationError(OperationError::Encoding(e))),
        }
    }

    /// The names on the path from the root to the node with permanent ID `target`.
    pub fn full_path_from_root(&self, target: &PermanentId) -> (r: Result<Vec<String>, OperationError>)
        requires
            spec_inner_wf(self.inner@),
        ensures
            match spec_full_path(self.inner@, target@) {
                Ok(names) => r matches Ok(v) && v@.map_values(|s: String| s@) == names,
                Err(e) => r matches Err(x) && x@ == e,
            },
    {
        let ghost d = self.inner@;
        let mut target_node = match self.inner.by_perm_id(target) {
            Ok(n) => n,
            Err(_) => return Err(OperationError::MissingPermanentId(*target)),
        };
        let target_name = match target_node.name() {
            NodeName::Root => {
                let empty: Vec<String> = Vec::new();
                assert(empty@.map_values(|s: String| s@) =~= Seq::<Seq<char>>::empty());
                return Ok(empty);
            },
            NodeName::Named(name) => name,
        };
        let mut path: Vec<String> = Vec::new();
        path.push(target_name);
        let ghost mut down: Seq<Seq<char>> = seq![path@[0]@];
        let mut fuel = self.inner.node_count();
        assert(path@.map_values(|s: String| s@).reverse() =~= down);
        proof {
            match spec_names_above(d, target_node@, fuel as nat) {
                Ok(above) => {
                    assert(above.push(down[0]) =~= above + down);
                },
                Err(_) => {},
            }
        }
        loop
            invariant
                d == self.inner@,
                spec_inner_wf(d),
                spec_by_perm_id(d, target@) is Ok,
                path@.map_values(|s: String| s@).reverse() == down,
                spec_full_path(d, target@) == match spec_names_above(d, target_node@, fuel as nat) {
                    Ok(above) => Ok::<Seq<Seq<char>>, OperationErrorView>(above + down),
                    Err(e) => Err(e),
                },
            ensures
                spec_full_path(d, target@) == Ok::<Seq<Seq<char>>, OperationErrorView>(down),
                path@.map_values(|s: String| s@).reverse() == down,
            decreases fuel,
        {
            let parent_id = match target_node.parent_id() {
                None => {
                    assert(Seq::<Seq<char>>::empty() + down =~= down);
                    break;
                },
                Some(p) => p,
            };
            let parent_node = self.inner.by_perm_id(&parent_id)?;
            match parent_node.name() {
                NodeName::Root => {
                    assert(Seq::<Seq<char>>::empty() + down =~= down);
                    break;
                },
                NodeName::Named(name) => {
                    if fuel == 0 {
                        return Err(OperationError::InternalCorruption(target_node.id(), "parent chain does not end"));
                    }
                    let ghost before = path@.map_values(|s: String| s@);
                    let ghost name_view = name@;
                    path.push(name);
                    proof {
                        assert(path@.map_values(|s: String| s@) =~= before.push(name_view));
                        assert(before.push(name_view).reverse() =~= seq![name_view] + before.reverse());
                        match spec_names_above(d, parent_node@, (fuel - 1) as nat) {
                            Ok(above) => {
                                assert(above.push(name_view) + down =~= above + (seq![name_view] + down));
                            },
                            Err(_) => {},
                        }
                        down = seq![name_view] + down;
                    }
                    target_node = parent_node;
                    fuel = fuel - 1;
                },
            }
        }
        let mut result: Vec<String> = Vec::new();
        let ghost all = path@.map_values(|s: String| s@);
        while path.len() > 0
            invariant
                all.reverse() == down,
                path@.map_values(|s: String| s@) == all.take(path@.len() as int),
                path@.len() <= all.len(),
                result@.map_values(|s: String| s@) == down.take(all.len() - path@.len()),
            decreases path@.len(),
        {
            let ghost before_path = path@.map_values(|s: String| s@);
            let ghost before_result = result@.map_values(|s: String| s@);
            let ghost old_path = path@;
            let name = path.pop().unwrap();
            let ghost name_view = name@;
            result.push(name);
            proof {
                let k = path@.len();
                assert(name_view == old_path[k as int]@);
                assert(before_path[k as int] == old_path[k as int]@);
                assert(path@.map_values(|s: String| s@) =~= all.take(k as int));
                assert(name_view == all[k as int]);
                assert(result@.map_values(|s: String| s@) =~= before_result.push(name_view));
                assert(down[all.len() - 1 - k] == all[k as int]);
                assert(result@.map_values(|s: String| s@) =~= down.take(all.len() - k));
            }
        }
        assert(down.take(all.len() as int) =~= down);
        Ok(result)
    }
}

} // verus!
