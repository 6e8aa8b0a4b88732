use rand_chacha::ChaCha20Rng;
use vstd::prelude::*;

use crate::codec::crypto::AccessKey;
use crate::codec::ids::ActorId;
use crate::codec::order::seq_lt;

verus! {

broadcast use vstd::seq::group_seq_axioms;

/// The permissions of one actor of a drive: which of the drive's keys it holds, and its role.
#[derive(Debug, Clone, Copy, PartialEq, Eq, Structural)]
pub struct AccessMask {
    pub filesystem_key: bool,
    pub data_key: bool,
    pub maintenance_key: bool,
    pub owner: bool,
    pub protected: bool,
    pub historical: bool,
}

impl AccessMask {
    /// All three keys, with no role.
    pub fn full_access() -> (r: AccessMask)
        ensures
            r == (AccessMask {
                filesystem_key: true,
                data_key: true,
                maintenance_key: true,
                owner: false,
                protected: false,
                historical: false,
            }),
    {
        AccessMask {
            filesystem_key: true,
            data_key: true,
            maintenance_key: true,
            owner: false,
            protected: false,
            historical: false,
        }
    }

    pub fn owner(self) -> (r: AccessMask)
        ensures
            r == (AccessMask { owner: true, ..self }),
    {
        AccessMask { owner: true, ..self }
    }

    pub fn protected(self) -> (r: AccessMask)
        ensures
            r == (AccessMask { protected: true, ..self }),
    {
        AccessMask { protected: true, ..self }
    }

    pub fn has_filesystem_key(&self) -> (r: bool)
        ensures
            r == self.filesystem_key,
    {
        self.filesystem_key
    }

    pub fn has_data_key(&self) -> (r: bool)
        ensures
            r == self.data_key,
    {
        self.data_key
    }

    pub fn has_maintenance_key(&self) -> (r: bool)
        ensures
            r == self.maintenance_key,
    {
        self.maintenance_key
    }

    pub fn is_owner(&self) -> (r: bool)
        ensures
            r == self.owner,
    {
        self.owner
    }

    pub fn is_protected(&self) -> (r: bool)
        ensures
            r == self.protected,
    {
        self.protected
    }

    pub fn is_historical(&self) -> (r: bool)
        ensures
            r == self.historical,
    {
        self.historical
    }

    pub fn set_historical(&mut self, historical: bool)
        ensures
            *final(self) == (AccessMask { historical, ..*old(self) }),
    {
        self.historical = historical;
    }
}

/// The settings of one actor: its identity and permissions.
#[derive(Debug, Clone, Copy)]
pub struct ActorSettings {
    pub actor_id: ActorId,
    pub verifying_key: VerifyingKey,
    pub access: AccessMask,
}

/// The length of an actor's public key: a compressed SEC1 point on P-384.
pub const VERIFYING_KEY_LENGTH: usize = 49;

/// An actor's public key, as the compressed SEC1 encoding of its P-384 point.
#[derive(Clone, Copy, Debug)]
pub struct VerifyingKey(pub [u8; 49]);

impl View for VerifyingKey {
    type V = Seq<u8>;

    open spec fn view(&self) -> Seq<u8> {
        self.0@
    }
}

/// Why a change to the actors of a drive was refused.
#[derive(Debug, Clone, Copy, PartialEq, Eq)]
pub enum DriveAccessError {
    /// The acting actor lacks the permission for the change.
    AccessDenied(&'static str),
    /// The actor already has access.
    ActorAlreadyPresent,
    /// The permissions granted include a key the drive does not hold.
    PermissionEscalation,
    /// Actors can not remove themselves.
    SelfProtected,
    /// No actor has that ID.
    UnknownActorId(ActorId),
}

/// Who may do what in a drive: the permissions of each actor, and the drive keys held by the
/// current actor.
pub struct DriveAccess {
    pub actor_settings: Vec<ActorSettings>,
    pub filesystem_key: Option<AccessKey>,
    pub data_key: Option<AccessKey>,
    pub maintenance_key: Option<AccessKey>,
}

pub struct DriveAccessView {
    pub actors: Seq<(Seq<u8>, AccessMask)>,
    /// The public key of each actor, in the order of `actors`.
    pub keys: Seq<Seq<u8>>,
    pub filesystem_key: Option<Seq<u8>>,
    pub data_key: Option<Seq<u8>>,
    pub maintenance_key: Option<Seq<u8>>,
}

impl View for DriveAccess {
    type V = DriveAccessView;

    open spec fn view(&self) -> DriveAccessView {
        DriveAccessView {
            actors: self.actor_settings@.map_values(|s: ActorSettings| (s.actor_id@, s.access)),
            keys: self.actor_settings@.map_values(|s: ActorSettings| s.verifying_key@),
            filesystem_key: match self.filesystem_key {
                Some(k) => Some(k@),
                None => None,
            },
            data_key: match self.data_key {
                Some(k) => Some(k@),
                None => None,
            },
            maintenance_key: match self.maintenance_key {
                Some(k) => Some(k@),
                None => None,
            },
        }
    }
}

/// No actor is listed twice.
pub open spec fn spec_actors_unique(a: Seq<(Seq<u8>, AccessMask)>) -> bool {
    forall|i: int, j: int| 0 <= i < j < a.len() ==> #[trigger] a[i].0 != #[trigger] a[j].0
}

/// The permissions recorded for `actor`, historical ones included.
pub open spec fn spec_actor_access(a: Seq<(Seq<u8>, AccessMask)>, actor: Seq<u8>) -> Option<AccessMask> {
    if exists|i: int| 0 <= i < a.len() && #[trigger] a[i].0 == actor {
        Some(a[choose|i: int| 0 <= i < a.len() && #[trigger] a[i].0 == actor].1)
    } else {
        None
    }
}

/// The public key recorded for `actor`, historical actors included.
pub open spec fn spec_actor_key(d: DriveAccessView, actor: Seq<u8>) -> Option<Seq<u8>> {
    if exists|i: int| 0 <= i < d.actors.len() && #[trigger] d.actors[i].0 == actor {
        Some(d.keys[choose|i: int| 0 <= i < d.actors.len() && #[trigger] d.actors[i].0 == actor])
    } else {
        None
    }
}

/// The permissions of `actor` unless they were revoked.
pub open spec fn spec_active_access(a: Seq<(Seq<u8>, AccessMask)>, actor: Seq<u8>) -> Option<AccessMask> {
    match spec_actor_access(a, actor) {
        Some(m) => if m.historical {
            None
        } else {
            Some(m)
        },
        None => None,
    }
}

pub open spec fn spec_has_read_access(a: Seq<(Seq<u8>, AccessMask)>, actor: Seq<u8>) -> bool {
    spec_active_access(a, actor) matches Some(m) && m.filesystem_key
}

pub open spec fn spec_has_data_access(a: Seq<(Seq<u8>, AccessMask)>, actor: Seq<u8>) -> bool {
    spec_active_access(a, actor) matches Some(m) && m.filesystem_key && m.data_key
}

pub open spec fn spec_has_maintenance_access(a: Seq<(Seq<u8>, AccessMask)>, actor: Seq<u8>) -> bool {
    spec_active_access(a, actor) matches Some(m) && m.maintenance_key
}

pub open spec fn spec_has_write_access(a: Seq<(Seq<u8>, AccessMask)>, actor: Seq<u8>) -> bool {
    spec_active_access(a, actor) matches Some(m) && m.filesystem_key && m.data_key && m.maintenance_key
}

/// What registering an actor does: refuses a known actor, refuses a key the drive does not
/// hold (checked for the data, filesystem and maintenance keys in that order), else records the
/// actor.
pub open spec fn spec_register_error(d: DriveAccessView, actor: Seq<u8>, mask: AccessMask) -> Option<DriveAccessError> {
    if spec_actor_access(d.actors, actor) is Some {
        Some(DriveAccessError::ActorAlreadyPresent)
    } else if (mask.data_key && d.data_key is None) || (mask.filesystem_key && d.filesystem_key is None) || (
    mask.maintenance_key && d.maintenance_key is None) {
        Some(DriveAccessError::PermissionEscalation)
    } else {
        None
    }
}

/// Which rule, if any, forbids `current` to revoke `target`, checked in this order.
pub open spec fn spec_remove_error(d: DriveAccessView, current: ActorId, target: ActorId) -> Option<DriveAccessError> {
    if current@ == target@ {
        Some(DriveAccessError::SelfProtected)
    } else if spec_active_access(d.actors, current@) is None {
        Some(DriveAccessError::AccessDenied("current actor has no access"))
    } else if spec_actor_access(d.actors, target@) is None {
        Some(DriveAccessError::UnknownActorId(target))
    } else if spec_actor_access(d.actors, target@).unwrap().protected {
        Some(DriveAccessError::AccessDenied("protected keys can't be removed"))
    } else if !spec_active_access(d.actors, current@).unwrap().maintenance_key {
        Some(DriveAccessError::AccessDenied("must be able to record changes to remove an actor"))
    } else if spec_actor_access(d.actors, target@).unwrap().owner && !spec_active_access(d.actors, current@).unwrap().owner {
        Some(DriveAccessError::AccessDenied("only owners can remove owner keys"))
    } else {
        None
    }
}

/// The actors with `target` marked historical.
pub open spec fn spec_mark_historical(a: Seq<(Seq<u8>, AccessMask)>, target: Seq<u8>) -> Seq<(Seq<u8>, AccessMask)> {
    a.map_values(
        |p: (Seq<u8>, AccessMask)|
            if p.0 == target {
                (p.0, AccessMask { historical: true, ..p.1 })
            } else {
                p
            },
    )
}

proof fn lemma_actor_access_at(a: Seq<(Seq<u8>, AccessMask)>, i: int)
    requires
        spec_actors_unique(a),
        0 <= i < a.len(),
    ensures
        spec_actor_access(a, a[i].0) == Some(a[i].1),
{
    let k = choose|k: int| 0 <= k < a.len() && #[trigger] a[k].0 == a[i].0;
    assert(0 <= k < a.len() && a[k].0 == a[i].0);
    if k != i {
        if k < i {
            assert(a[k].0 != a[i].0);
        } else {
            assert(a[i].0 != a[k].0);
        }
    }
}

proof fn lemma_actor_key_at(d: DriveAccessView, i: int)
    requires
        spec_actors_unique(d.actors),
        0 <= i < d.actors.len(),
    ensures
        spec_actor_key(d, d.actors[i].0) == Some(d.keys[i]),
{
    let a = d.actors;
    let k = choose|k: int| 0 <= k < a.len() && #[trigger] a[k].0 == a[i].0;
    assert(0 <= k < a.len() && a[k].0 == a[i].0);
    if k != i {
        if k < i {
            assert(a[k].0 != a[i].0);
        } else {
            assert(a[i].0 != a[k].0);
        }
    }
}

proof fn lemma_actor_access_none(a: Seq<(Seq<u8>, AccessMask)>, actor: Seq<u8>)
    requires
        forall|i: int| 0 <= i < a.len() ==> a[i].0 != actor,
    ensures
        spec_actor_access(a, actor) is None,
{
}

impl DriveAccess {
    fn find_actor(&self, actor_id: &ActorId) -> (r: Option<usize>)
        requires
            spec_actors_unique(self@.actors),
        ensures
            match r {
                Some(i) => i < self@.actors.len() && self@.actors[i as int].0 == actor_id@ && spec_actor_access(
                    self@.actors,
                    actor_id@,
                ) == Some(self@.actors[i as int].1),
                None => spec_actor_access(self@.actors, actor_id@) is None,
            },
    {
        let mut i: usize = 0;
        while i < self.actor_settings.len()
            invariant
                i <= self@.actors.len(),
                self@.actors.len() == self.actor_settings@.len(),
                spec_actors_unique(self@.actors),
                forall|j: int| 0 <= j < i ==> self@.actors[j].0 != actor_id@,
            decreases self@.actors.len() - i,
        {
            assert(self@.actors[i as int] == (self.actor_settings@[i as int].actor_id@, self.actor_settings@[i as int].access));
            if self.actor_settings[i].actor_id.equals(actor_id) {
                proof {
                    lemma_actor_access_at(self@.actors, i as int);
                }
                return Some(i);
            }
            i = i + 1;
        }
        proof {
            lemma_actor_access_none(self@.actors, actor_id@);
        }
        None
    }

    /// The permissions recorded for the actor, historical ones included.
    pub fn actor_access(&self, actor_id: &ActorId) -> (r: Option<AccessMask>)
        requires
            spec_actors_unique(self@.actors),
        ensures
            r == spec_actor_access(self@.actors, actor_id@),
    {
        match self.find_actor(actor_id) {
            Some(i) => Some(self.actor_settings[i].access),
            None => None,
        }
    }

    /// The public key recorded for the actor, historical actors included.
    pub fn actor_key(&self, actor_id: &ActorId) -> (r: Option<VerifyingKey>)
        requires
            spec_actors_unique(self@.actors),
        ensures
            match spec_actor_key(self@, actor_id@) {
                Some(k) => r matches Some(x) && x@ == k,
                None => r is None,
            },
    {
        match self.find_actor(actor_id) {
            Some(i) => {
                proof {
                    lemma_actor_key_at(self@, i as int);
                }
                assert(self@.keys[i as int] == self.actor_settings@[i as int].verifying_key@);
                Some(self.actor_settings[i].verifying_key)
            },
            None => {
                assert(!(exists|j: int| 0 <= j < self@.actors.len() && #[trigger] self@.actors[j].0 == actor_id@)) by {
                    if exists|j: int| 0 <= j < self@.actors.len() && #[trigger] self@.actors[j].0 == actor_id@ {
                        let j = choose|j: int| 0 <= j < self@.actors.len() && #[trigger] self@.actors[j].0 == actor_id@;
                        assert(spec_actor_access(self@.actors, actor_id@) is Some);
                    }
                }
                None
            },
        }
    }

    /// The permissions of the actor unless they were revoked.
    pub fn active_actor_access(&self, actor_id: &ActorId) -> (r: Option<AccessMask>)
        requires
            spec_actors_unique(self@.actors),
        ensures
            r == spec_active_access(self@.actors, actor_id@),
    {
        match self.actor_access(actor_id) {
            Some(access) => if access.is_historical() {
                None
            } else {
                Some(access)
            },
            None => None,
        }
    }

    /// Whether the actor may read the filesystem's structure and attributes.
    pub fn has_read_access(&self, actor_id: &ActorId) -> (r: bool)
        requires
            spec_actors_unique(self@.actors),
        ensures
            r == spec_has_read_access(self@.actors, actor_id@),
    {
        match self.active_actor_access(actor_id) {
            Some(a) => a.has_filesystem_key(),
            None => false,
        }
    }

    /// Whether the actor may read file data: it needs the filesystem and the data key.
    pub fn has_data_access(&self, actor_id: &ActorId) -> (r: bool)
        requires
            spec_actors_unique(self@.actors),
        ensures
            r == spec_has_data_access(self@.actors, actor_id@),
    {
        match self.active_actor_access(actor_id) {
            Some(a) => a.has_filesystem_key() && a.has_data_key(),
            None => false,
        }
    }

    /// Whether the actor may read maintenance information.
    pub fn has_maintenance_access(&self, actor_id: &ActorId) -> (r: bool)
        requires
            spec_actors_unique(self@.actors),
        ensures
            r == spec_has_maintenance_access(self@.actors, actor_id@),
    {
        match self.active_actor_access(actor_id) {
            Some(a) => a.has_maintenance_key(),
            None => false,
        }
    }

    /// Whether the actor may change the filesystem: it needs all three keys.
    pub fn has_write_access(&self, actor_id: &ActorId) -> (r: bool)
        requires
            spec_actors_unique(self@.actors),
        ensures
            r == spec_has_write_access(self@.actors, actor_id@),
    {
        match self.active_actor_access(actor_id) {
            Some(a) => a.has_filesystem_key() && a.has_data_key() && a.has_maintenance_key(),
            None => false,
        }
    }

    /// An actor may fork the drive when it may read its data.
    pub fn can_fork(&self, actor_id: &ActorId) -> (r: bool)
        requires
            spec_actors_unique(self@.actors),
        ensures
            r == spec_has_data_access(self@.actors, actor_id@),
    {
        self.has_data_access(actor_id)
    }

    /// Whether the actor is marked historical. Only active permissions are consulted, and
    /// those are never historical, so this is false for every actor.
    pub fn is_historical(&self, actor_id: &ActorId) -> (r: bool)
        requires
            spec_actors_unique(self@.actors),
        ensures
            r == (spec_active_access(self@.actors, actor_id@) matches Some(m) && m.historical),
            !r,
    {
        match self.active_actor_access(actor_id) {
            Some(a) => a.is_historical(),
            None => false,
        }
    }

    /// Whether the actor is an active owner.
    pub fn is_owner(&self, actor_id: &ActorId) -> (r: bool)
        requires
            spec_actors_unique(self@.actors),
        ensures
            r == (spec_active_access(self@.actors, actor_id@) matches Some(m) && m.owner),
    {
        match self.active_actor_access(actor_id) {
            Some(a) => a.is_owner(),
            None => false,
        }
    }

    /// Whether the actor is active and protected.
    pub fn is_protected(&self, actor_id: &ActorId) -> (r: bool)
        requires
            spec_actors_unique(self@.actors),
        ensures
            r == (spec_active_access(self@.actors, actor_id@) matches Some(m) && m.protected),
    {
        match self.active_actor_access(actor_id) {
            Some(a) => a.is_protected(),
            None => false,
        }
    }

    pub fn data_key(&self) -> (r: Option<&AccessKey>)
        ensures
            match self@.data_key {
                Some(v) => r matches Some(k) && k@ == v,
                None => r is None,
            },
    {
        self.data_key.as_ref()
    }

    pub fn filesystem_key(&self) -> (r: Option<&AccessKey>)
        ensures
            match self@.filesystem_key {
                Some(v) => r matches Some(k) && k@ == v,
                None => r is None,
            },
    {
        self.filesystem_key.as_ref()
    }

    pub fn maintenance_key(&self) -> (r: Option<&AccessKey>)
        ensures
            match self@.maintenance_key {
                Some(v) => r matches Some(k) && k@ == v,
                None => r is None,
            },
    {
        self.maintenance_key.as_ref()
    }

    /// Records a new actor, with its public key and permissions. A known actor, or permissions
    /// with a key the drive does not hold, are refused and leave the access unchanged.
    pub fn register_actor(&mut self, actor_id: ActorId, verifying_key: VerifyingKey, access_mask: AccessMask) -> (r: Result<(), DriveAccessError>)
        requires
            spec_actors_unique(old(self)@.actors),
        ensures
            spec_actors_unique(final(self)@.actors),
            match spec_register_error(old(self)@, actor_id@, access_mask) {
                Some(e) => r == Err::<(), DriveAccessError>(e) && final(self)@ == old(self)@,
                None => r is Ok && final(self)@ == (DriveAccessView {
                    actors: old(self)@.actors.push((actor_id@, access_mask)),
                    keys: old(self)@.keys.push(verifying_key@),
                    ..old(self)@
                }),
            },
    {
        if self.find_actor(&actor_id).is_some() {
            return Err(DriveAccessError::ActorAlreadyPresent);
        }
        if access_mask.has_data_key() && self.data_key.is_none() {
            return Err(DriveAccessError::PermissionEscalation);
        }
        if access_mask.has_filesystem_key() && self.filesystem_key.is_none() {
            return Err(DriveAccessError::PermissionEscalation);
        }
        if access_mask.has_maintenance_key() && self.maintenance_key.is_none() {
            return Err(DriveAccessError::PermissionEscalation);
        }
        let ghost before = self@.actors;
        let ghost before_keys = self@.keys;
        self.actor_settings.push(ActorSettings { actor_id, verifying_key, access: access_mask });
        assert(self@.actors =~= before.push((actor_id@, access_mask)));
        assert(self@.keys =~= before_keys.push(verifying_key@));
        assert forall|i: int, j: int| 0 <= i < j < self@.actors.len() implies #[trigger] self@.actors[i].0
            != #[trigger] self@.actors[j].0 by {
            if j == before.len() {
                assert(self@.actors[i] == before[i]);
            }
        }
        Ok(())
    }

    /// Revokes `actor_id` on behalf of `current_actor_id` by marking it historical. An actor
    /// can not revoke itself, needs active access and the maintenance key, can not revoke a
    /// protected actor, and only an owner can revoke an owner.
    pub fn remove_actor(&mut self, current_actor_id: &ActorId, actor_id: &ActorId) -> (r: Result<(), DriveAccessError>)
        requires
            spec_actors_unique(old(self)@.actors),
        ensures
            spec_actors_unique(final(self)@.actors),
            match spec_remove_error(old(self)@, *current_actor_id, *actor_id) {
                Some(e) => r == Err::<(), DriveAccessError>(e) && final(self)@ == old(self)@,
                None => r is Ok && final(self)@ == (DriveAccessView {
                    actors: spec_mark_historical(old(self)@.actors, actor_id@),
                    ..old(self)@
                }),
            },
    {
        if current_actor_id.equals(actor_id) {
            return Err(DriveAccessError::SelfProtected);
        }
        let current_permissions = match self.active_actor_access(current_actor_id) {
            Some(p) => p,
            None => return Err(DriveAccessError::AccessDenied("current actor has no access")),
        };
        let target_index = match self.find_actor(actor_id) {
            Some(i) => i,
            None => return Err(DriveAccessError::UnknownActorId(*actor_id)),
        };
        let target_access = self.actor_settings[target_index].access;
        if target_access.is_protected() {
            return Err(DriveAccessError::AccessDenied("protected keys can't be removed"));
        }
        if !current_permissions.has_maintenance_key() {
            return Err(DriveAccessError::AccessDenied("must be able to record changes to remove an actor"));
        }
        if target_access.is_owner() && !current_permissions.is_owner() {
            return Err(DriveAccessError::AccessDenied("only owners can remove owner keys"));
        }
        let ghost before = self@.actors;
        let mut updated = self.actor_settings[target_index];
        updated.access.set_historical(true);
        self.actor_settings.set(target_index, updated);
        proof {
            assert forall|k: int| 0 <= k < before.len() implies #[trigger] self@.actors[k] == spec_mark_historical(
                before,
                actor_id@,
            )[k] by {
                if k != target_index {
                    assert(before[k].0 != before[target_index as int].0);
                }
            }
            assert(self@.actors =~= spec_mark_historical(before, actor_id@));
            assert(self@.keys =~= old(self)@.keys);
        }
        Ok(())
    }

    /// The drive's access for a new drive: three fresh keys and `owner` as the protected owner
    /// with all of them.
    pub fn initialize(rng: &mut ChaCha20Rng, owner: ActorId, owner_key: VerifyingKey) -> (r: DriveAccess)
        ensures
            spec_actors_unique(r@.actors),
            r@.filesystem_key is Some && r@.data_key is Some && r@.maintenance_key is Some,
            r@.actors == seq![(owner@, AccessMask::full_access_spec().owner_spec().protected_spec())],
            r@.keys == seq![owner_key@],
    {
        let mut access = DriveAccess {
            actor_settings: Vec::new(),
            filesystem_key: Some(AccessKey::generate(rng)),
            data_key: Some(AccessKey::generate(rng)),
            maintenance_key: Some(AccessKey::generate(rng)),
        };
        let mask = AccessMask::full_access().owner().protected();
        let _ = access.register_actor(owner, owner_key, mask);
        assert(access@.actors =~= seq![(owner@, mask)]);
        assert(access@.keys =~= seq![owner_key@]);
        access
    }

    /// The actors ordered by their actor ID.
    pub fn sorted_actor_settings(&self) -> (r: Vec<ActorSettings>)
        requires
            spec_actors_unique(self@.actors),
        ensures
            r@.len() == self@.actors.len(),
            forall|i: int, j: int| 0 <= i < j < r@.len() ==> seq_lt(#[trigger] r@[i].actor_id@, #[trigger] r@[j].actor_id@),
            forall|i: int| 0 <= i < r@.len() ==> #[trigger] self@.actors.contains((r@[i].actor_id@, r@[i].access)),
    {
        let mut out: Vec<ActorSettings> = Vec::new();
        let mut i: usize = 0;
        while i < self.actor_settings.len()
            invariant
                i <= self@.actors.len(),
                self@.actors.len() == self.actor_settings@.len(),
                spec_actors_unique(self@.actors),
                out@.len() == i,
                forall|a: int, b: int| 0 <= a < b < out@.len() ==> seq_lt(#[trigger] out@[a].actor_id@, #[trigger] out@[b].actor_id@),
                forall|a: int| 0 <= a < out@.len() ==> #[trigger] self@.actors.contains((out@[a].actor_id@, out@[a].access)),
                forall|a: int| #![trigger out@[a]] 0 <= a < out@.len() ==> exists|k: int| 0 <= k < i && #[trigger] self@.actors[k].0 == out@[a].actor_id@,
            decreases self@.actors.len() - i,
        {
            let item = self.actor_settings[i];
            assert(self@.actors[i as int] == (item.actor_id@, item.access));
            let mut p: usize = 0;
            while p < out.len() && out[p].actor_id.less_than(&item.actor_id)
                invariant
                    p <= out@.len(),
                    forall|a: int| 0 <= a < p ==> seq_lt(#[trigger] out@[a].actor_id@, item.actor_id@),
                decreases out@.len() - p,
            {
                p = p + 1;
            }
            proof {
                assert forall|a: int| p <= a < out@.len() implies seq_lt(item.actor_id@, #[trigger] out@[a].actor_id@) by {
                    let k = choose|k: int| 0 <= k < i && #[trigger] self@.actors[k].0 == out@[a].actor_id@;
                    assert(self@.actors[k].0 != self@.actors[i as int].0);
                    crate::codec::order::lemma_seq_lt_total(item.actor_id@, out@[p as int].actor_id@);
                    assert(!seq_lt(out@[p as int].actor_id@, item.actor_id@));
                    if a > p {
                        crate::codec::order::lemma_seq_lt_total(item.actor_id@, out@[a].actor_id@);
                        let kp = choose|k: int| 0 <= k < i && #[trigger] self@.actors[k].0 == out@[p as int].actor_id@;
                        assert(self@.actors[kp].0 != self@.actors[i as int].0);
                        crate::codec::order::lemma_seq_lt_transitive(item.actor_id@, out@[p as int].actor_id@, out@[a].actor_id@);
                    } else {
                        crate::codec::order::lemma_seq_lt_total(item.actor_id@, out@[a].actor_id@);
                    }
                }
            }
            let ghost prev = out@;
            out.insert(p, item);
            proof {
                assert(forall|a: int| 0 <= a < p ==> out@[a] == prev[a]);
                assert(forall|a: int| p < a < out@.len() ==> out@[a] == prev[a - 1]);
                assert(self@.actors.contains((item.actor_id@, item.access))) by {
                    assert(self@.actors[i as int] == (item.actor_id@, item.access));
                }
                assert forall|a: int| #![trigger out@[a]] 0 <= a < out@.len() implies exists|k: int| 0 <= k < i + 1 && #[trigger] self@.actors[k].0
                    == out@[a].actor_id@ by {
                    if a < p {
                        let k = choose|k: int| 0 <= k < i && #[trigger] self@.actors[k].0 == prev[a].actor_id@;
                        assert(self@.actors[k].0 == out@[a].actor_id@);
                    } else if a == p {
                        assert(self@.actors[i as int].0 == out@[a].actor_id@);
                    } else {
                        let k = choose|k: int| 0 <= k < i && #[trigger] self@.actors[k].0 == prev[a - 1].actor_id@;
                        assert(self@.actors[k].0 == out@[a].actor_id@);
                    }
                }
            }
            i = i + 1;
        }
        out
    }
}

impl AccessMask {
    pub open spec fn full_access_spec() -> AccessMask {
        AccessMask {
            filesystem_key: true,
            data_key: true,
            maintenance_key: true,
            owner: false,
            protected: false,
            historical: false,
        }
    }

    pub open spec fn owner_spec(self) -> AccessMask {
        AccessMask { owner: true, ..self }
    }

    pub open spec fn protected_spec(self) -> AccessMask {
        AccessMask { protected: true, ..self }
    }
}

/// After a successful registration the actor has exactly the registered permissions, and every
/// other actor keeps its own.
pub proof fn lemma_register_then_access(d: DriveAccessView, actor: Seq<u8>, mask: AccessMask, other: Seq<u8>)
    requires
        spec_actors_unique(d.actors),
        spec_register_error(d, actor, mask) is None,
    ensures
        spec_actor_access(d.actors.push((actor, mask)), actor) == Some(mask),
        other != actor ==> spec_actor_access(d.actors.push((actor, mask)), other) == spec_actor_access(d.actors, other),
{
    let a = d.actors.push((actor, mask));
    assert(forall|i: int| 0 <= i < d.actors.len() ==> d.actors[i].0 != actor);
    assert(spec_actors_unique(a)) by {
        assert forall|i: int, j: int| 0 <= i < j < a.len() implies #[trigger] a[i].0 != #[trigger] a[j].0 by {
            if j == d.actors.len() {
                assert(a[i] == d.actors[i]);
            }
        }
    }
    lemma_actor_access_at(a, d.actors.len() as int);
    if other != actor {
        if exists|i: int| 0 <= i < d.actors.len() && #[trigger] d.actors[i].0 == other {
            let i = choose|i: int| 0 <= i < d.actors.len() && #[trigger] d.actors[i].0 == other;
            lemma_actor_access_at(d.actors, i);
            lemma_actor_access_at(a, i);
        } else {
            assert forall|i: int| 0 <= i < a.len() implies a[i].0 != other by {
                if i < d.actors.len() {
                    assert(a[i] == d.actors[i]);
                }
            }
        }
    }
}

/// A revoked actor loses all access, and every other actor keeps its permissions; in
/// particular the revoking actor, so a revoking owner stays an owner.
pub proof fn lemma_revoked_actor_has_no_access(d: DriveAccessView, target: Seq<u8>, other: Seq<u8>)
    requires
        spec_actors_unique(d.actors),
    ensures
        spec_active_access(spec_mark_historical(d.actors, target), target) is None,
        !spec_has_read_access(spec_mark_historical(d.actors, target), target),
        !spec_has_write_access(spec_mark_historical(d.actors, target), target),
        other != target ==> spec_actor_access(spec_mark_historical(d.actors, target), other) == spec_actor_access(
            d.actors,
            other,
        ),
{
    let a = spec_mark_historical(d.actors, target);
    assert(spec_actors_unique(a)) by {
        assert forall|i: int, j: int| 0 <= i < j < a.len() implies #[trigger] a[i].0 != #[trigger] a[j].0 by {
            assert(a[i].0 == d.actors[i].0 && a[j].0 == d.actors[j].0);
        }
    }
    if exists|i: int| 0 <= i < a.len() && #[trigger] a[i].0 == target {
        let i = choose|i: int| 0 <= i < a.len() && #[trigger] a[i].0 == target;
        lemma_actor_access_at(a, i);
    }
    if other != target {
        if exists|i: int| 0 <= i < d.actors.len() && #[trigger] d.actors[i].0 == other {
            let i = choose|i: int| 0 <= i < d.actors.len() && #[trigger] d.actors[i].0 == other;
            lemma_actor_access_at(d.actors, i);
            lemma_actor_access_at(a, i);
        } else {
            assert forall|i: int| 0 <= i < a.len() implies a[i].0 != other by {
                assert(a[i].0 == d.actors[i].0);
            }
        }
    }
}


/// The access of a listed actor follows the keys its recorded permissions hold: unless it is
/// historical, it may read with the filesystem key, reach data with the filesystem and data
/// keys, read maintenance records with the maintenance key alone, and write with all three; a
/// historical actor has none of these.
pub proof fn lemma_listed_actor_access(a: Seq<(Seq<u8>, AccessMask)>, i: int)
    requires
        spec_actors_unique(a),
        0 <= i < a.len(),
    ensures
        spec_has_read_access(a, a[i].0) == (!a[i].1.historical && a[i].1.filesystem_key),
        spec_has_data_access(a, a[i].0) == (!a[i].1.historical && a[i].1.filesystem_key && a[i].1.data_key),
        spec_has_maintenance_access(a, a[i].0) == (!a[i].1.historical && a[i].1.maintenance_key),
        spec_has_write_access(a, a[i].0) == (!a[i].1.historical && a[i].1.filesystem_key && a[i].1.data_key
            && a[i].1.maintenance_key),
{
    lemma_actor_access_at(a, i);
}

/// An actor that is not listed has no access of any kind.
pub proof fn lemma_unlisted_actor_has_no_access(a: Seq<(Seq<u8>, AccessMask)>, actor: Seq<u8>)
    requires
        forall|i: int| 0 <= i < a.len() ==> #[trigger] a[i].0 != actor,
    ensures
        !spec_has_read_access(a, actor),
        !spec_has_data_access(a, actor),
        !spec_has_maintenance_access(a, actor),
        !spec_has_write_access(a, actor),
{
}

/// Once registered with permissions that are not historical, an actor has exactly the access
/// those permissions grant: maintenance access whenever they hold the maintenance key, whatever
/// the other keys, read access with the filesystem key, and so on.
pub proof fn lemma_registered_actor_access(d: DriveAccessView, actor: Seq<u8>, key: Seq<u8>, mask: AccessMask)
    requires
        spec_actors_unique(d.actors),
        spec_register_error(d, actor, mask) is None,
        !mask.historical,
    ensures
        ({
            let a = d.actors.push((actor, mask));
            &&& spec_has_read_access(a, actor) == mask.filesystem_key
            &&& spec_has_data_access(a, actor) == (mask.filesystem_key && mask.data_key)
            &&& spec_has_maintenance_access(a, actor) == mask.maintenance_key
            &&& spec_has_write_access(a, actor) == (mask.filesystem_key && mask.data_key && mask.maintenance_key)
        }),
{
    let a = d.actors.push((actor, mask));
    assert forall|i: int, j: int| 0 <= i < j < a.len() implies #[trigger] a[i].0 != #[trigger] a[j].0 by {
        if j == d.actors.len() {
            assert(a[i] == d.actors[i]);
            assert(spec_actor_access(d.actors, actor) is None);
            if a[i].0 == actor {
                assert(d.actors[i].0 == actor);
            }
        }
    }
    lemma_listed_actor_access(a, d.actors.len() as int);
}

/// A protected actor can never be revoked: whoever asks, removing it is refused, and with
/// `AccessDenied` whenever the request gets as far as looking at the target.
pub proof fn lemma_protected_actor_is_never_removed(d: DriveAccessView, current: ActorId, target: ActorId, i: int)
    requires
        spec_actors_unique(d.actors),
        0 <= i < d.actors.len(),
        d.actors[i].0 == target@,
        d.actors[i].1.protected,
    ensures
        spec_remove_error(d, current, target) is Some,
        (current@ != target@ && spec_active_access(d.actors, current@) is Some) ==> spec_remove_error(d, current, target)
            == Some(DriveAccessError::AccessDenied("protected keys can't be removed")),
{
    lemma_actor_access_at(d.actors, i);
}

/// A revocation that goes through leaves the target historical, so without any access, and
/// leaves every other actor's permissions as they were.
pub proof fn lemma_removed_actor_loses_access(d: DriveAccessView, current: ActorId, target: ActorId, other: Seq<u8>)
    requires
        spec_actors_unique(d.actors),
        spec_remove_error(d, current, target) is None,
        other != target@,
    ensures
        !spec_has_read_access(spec_mark_historical(d.actors, target@), target@),
        !spec_has_maintenance_access(spec_mark_historical(d.actors, target@), target@),
        spec_active_access(spec_mark_historical(d.actors, target@), other) == spec_active_access(d.actors, other),
{
    let a = d.actors;
    let b = spec_mark_historical(a, target@);
    assert(b.len() == a.len());
    assert forall|i: int, j: int| 0 <= i < j < b.len() implies #[trigger] b[i].0 != #[trigger] b[j].0 by {
        assert(b[i].0 == a[i].0 && b[j].0 == a[j].0);
    }
    let k = choose|k: int| 0 <= k < a.len() && #[trigger] a[k].0 == target@;
    lemma_actor_access_at(b, k);
    if exists|j: int| 0 <= j < a.len() && #[trigger] a[j].0 == other {
        let j = choose|j: int| 0 <= j < a.len() && #[trigger] a[j].0 == other;
        lemma_actor_access_at(a, j);
        lemma_actor_access_at(b, j);
    } else {
        assert forall|j: int| 0 <= j < b.len() implies #[trigger] b[j].0 != other by {
            assert(b[j].0 == a[j].0);
        }
    }
}


/// No actor can revoke itself, an actor without active access can revoke nobody, an unknown
/// actor can not be revoked, and only an owner can revoke an owner.
pub proof fn lemma_removal_rules(d: DriveAccessView, current: ActorId, target: ActorId)
    requires
        spec_actors_unique(d.actors),
    ensures
        current@ == target@ ==> spec_remove_error(d, current, target) == Some(DriveAccessError::SelfProtected),
        (current@ != target@ && spec_active_access(d.actors, current@) is None) ==> spec_remove_error(d, current, target) is Some,
        (forall|i: int| 0 <= i < d.actors.len() ==> #[trigger] d.actors[i].0 != target@) ==> spec_remove_error(
            d,
            current,
            target,
        ) is Some,
        (spec_actor_access(d.actors, target@) is Some && spec_actor_access(d.actors, target@).unwrap().owner && spec_active_access(
            d.actors,
            current@,
        ) is Some && !spec_active_access(d.actors, current@).unwrap().owner) ==> spec_remove_error(d, current, target) is Some,
        (spec_active_access(d.actors, current@) is Some && !spec_active_access(d.actors, current@).unwrap().maintenance_key)
            ==> spec_remove_error(
            d,
            current,
            target,
        ) is Some,
{
}

/// Registering records the actor: it then has the permissions and the public key it was
/// registered with. An actor already listed is refused, and so is a grant of a drive key the
/// granting side does not hold.
pub proof fn lemma_registration(d: DriveAccessView, actor: Seq<u8>, key: Seq<u8>, mask: AccessMask)
    requires
        spec_actors_unique(d.actors),
        d.actors.len() == d.keys.len(),
    ensures
        spec_register_error(d, actor, mask) is None ==> spec_actor_access(d.actors.push((actor, mask)), actor) == Some(mask)
            && spec_actor_key(
            DriveAccessView { actors: d.actors.push((actor, mask)), keys: d.keys.push(key), ..d },
            actor,
        ) == Some(key),
        (exists|i: int| 0 <= i < d.actors.len() && #[trigger] d.actors[i].0 == actor) ==> spec_register_error(d, actor, mask)
            == Some(DriveAccessError::ActorAlreadyPresent),
        (spec_actor_access(d.actors, actor) is None && ((mask.data_key && d.data_key is None) || (mask.filesystem_key
            && d.filesystem_key is None) || (mask.maintenance_key && d.maintenance_key is None))) ==> spec_register_error(
            d,
            actor,
            mask,
        ) == Some(DriveAccessError::PermissionEscalation),
{
    if spec_register_error(d, actor, mask) is None {
        let a = d.actors.push((actor, mask));
        assert forall|i: int, j: int| 0 <= i < j < a.len() implies #[trigger] a[i].0 != #[trigger] a[j].0 by {
            if j == d.actors.len() {
                assert(a[i] == d.actors[i]);
                if a[i].0 == actor {
                    assert(d.actors[i].0 == actor);
                }
            }
        }
        let n = d.actors.len() as int;
        lemma_actor_access_at(a, n);
        let dv = DriveAccessView { actors: a, keys: d.keys.push(key), ..d };
        assert(a[n].0 == actor);
        let k = choose|k: int| 0 <= k < dv.actors.len() && #[trigger] dv.actors[k].0 == actor;
        if k < n {
            assert(a[k].0 != a[n].0);
        }
        assert(k == n);
        assert(dv.keys[k] == key);
        assert(spec_actor_key(dv, actor) == Some(key));
    }
}

} // verus!
