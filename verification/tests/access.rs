use banyanfs::codec::ids::ActorId;
use banyanfs::filesystem::drive::access::{AccessMask, DriveAccess, DriveAccessError, VerifyingKey};
use rand::SeedableRng;

fn reader_mask() -> AccessMask {
    AccessMask {
        filesystem_key: true,
        data_key: false,
        maintenance_key: false,
        owner: false,
        protected: false,
        historical: false,
    }
}

#[test]
fn the_owner_of_a_new_drive_has_every_access() {
    let mut rng = rand_chacha::ChaCha20Rng::from_entropy();
    let owner = ActorId([1u8; 32]);
    let access = DriveAccess::initialize(&mut rng, owner, VerifyingKey([7u8; 49]));
    assert!(access.has_read_access(&owner));
    assert!(access.has_data_access(&owner));
    assert!(access.has_maintenance_access(&owner));
    assert!(access.has_write_access(&owner));
    assert!(access.can_fork(&owner));
    assert!(access.is_owner(&owner));
    assert!(access.is_protected(&owner));
    assert!(!access.is_historical(&owner));
    assert!(access.data_key().is_some() && access.filesystem_key().is_some() && access.maintenance_key().is_some());

    let stranger = ActorId([2u8; 32]);
    assert!(!access.has_read_access(&stranger));
    assert!(access.actor_access(&stranger).is_none());
}

#[test]
fn registering_grants_exactly_the_mask() {
    let mut rng = rand_chacha::ChaCha20Rng::from_entropy();
    let owner = ActorId([1u8; 32]);
    let reader = ActorId([3u8; 32]);
    let mut access = DriveAccess::initialize(&mut rng, owner, VerifyingKey([7u8; 49]));
    access.register_actor(reader, VerifyingKey([3u8; 49]), reader_mask()).unwrap();
    assert!(access.has_read_access(&reader));
    assert!(!access.has_data_access(&reader));
    assert!(!access.has_write_access(&reader));
    assert!(matches!(access.register_actor(reader, VerifyingKey([3u8; 49]), reader_mask()), Err(DriveAccessError::ActorAlreadyPresent)));
}

#[test]
fn revoking_follows_the_rules_in_order() {
    let mut rng = rand_chacha::ChaCha20Rng::from_entropy();
    let owner = ActorId([1u8; 32]);
    let reader = ActorId([3u8; 32]);
    let writer = ActorId([4u8; 32]);
    let mut access = DriveAccess::initialize(&mut rng, owner, VerifyingKey([7u8; 49]));
    access.register_actor(reader, VerifyingKey([3u8; 49]), reader_mask()).unwrap();
    access.register_actor(writer, VerifyingKey([3u8; 49]), AccessMask::full_access()).unwrap();

    assert!(matches!(access.remove_actor(&owner, &owner), Err(DriveAccessError::SelfProtected)));
    assert!(matches!(access.remove_actor(&ActorId([9u8; 32]), &reader), Err(DriveAccessError::AccessDenied(_))));
    assert!(matches!(
        access.remove_actor(&owner, &ActorId([9u8; 32])),
        Err(DriveAccessError::UnknownActorId(_))
    ));
    assert!(matches!(access.remove_actor(&writer, &owner), Err(DriveAccessError::AccessDenied(_))));
    assert!(matches!(access.remove_actor(&reader, &writer), Err(DriveAccessError::AccessDenied(_))));

    access.remove_actor(&owner, &reader).unwrap();
    assert!(!access.has_read_access(&reader));
    // The revoked actor is kept, marked historical; `is_historical` consults only active
    // permissions, so it answers false.
    assert!(access.actor_access(&reader).unwrap().is_historical());
    assert!(!access.is_historical(&reader));
    assert!(access.has_write_access(&writer));
}

#[test]
fn actors_are_listed_by_their_id() {
    let mut rng = rand_chacha::ChaCha20Rng::from_entropy();
    let mut access = DriveAccess::initialize(&mut rng, ActorId([5u8; 32]), VerifyingKey([7u8; 49]));
    access.register_actor(ActorId([1u8; 32]), VerifyingKey([3u8; 49]), reader_mask()).unwrap();
    access.register_actor(ActorId([9u8; 32]), VerifyingKey([3u8; 49]), reader_mask()).unwrap();
    let sorted = access.sorted_actor_settings();
    assert_eq!(sorted.len(), 3);
    assert!(sorted[0].actor_id == ActorId([1u8; 32]));
    assert!(sorted[1].actor_id == ActorId([5u8; 32]));
    assert!(sorted[2].actor_id == ActorId([9u8; 32]));
}

#[test]
fn test_removal_leaves_key_as_historical() {
    let mut rng = rand_chacha::ChaCha20Rng::from_entropy();
    let owner = ActorId([1u8; 32]);
    let second = ActorId([2u8; 32]);
    let second_key = VerifyingKey([0x22u8; 49]);
    let mut access = DriveAccess::initialize(&mut rng, owner, VerifyingKey([0x11u8; 49]));
    access.register_actor(second, second_key, AccessMask::full_access()).unwrap();
    assert!(access.has_write_access(&second));
    access.remove_actor(&owner, &second).unwrap();
    assert!(access.active_actor_access(&second).is_none());
    assert!(access.actor_access(&second).unwrap().is_historical());
    assert_eq!(access.actor_key(&second).unwrap().0, second_key.0);
    assert_eq!(access.actor_key(&owner).unwrap().0, [0x11u8; 49]);
    assert!(access.actor_key(&ActorId([9u8; 32])).is_none());
    assert!(access.has_write_access(&owner));
}
