use rand::SeedableRng;
use banyanfs::codec::ids::{ActorId, Cid};
use banyanfs::stores::memory_data_store::MemoryDataStore;
use banyanfs::stores::traits::DataStore;
use banyanfs::codec::node_kind::NodeKind;
use banyanfs::codec::parser::ParseError;
use banyanfs::filesystem::drive::access::{AccessMask, DriveAccess, DriveAccessError, VerifyingKey};
use banyanfs::filesystem::drive::directory_handle::DirectoryHandle;
use banyanfs::filesystem::drive::inner::InnerDrive;
use banyanfs::filesystem::drive::operations::OperationError;
use banyanfs::filesystem::drive::Drive;
use banyanfs::filesystem::nodes::node_builder::NodeBuilder;
use banyanfs::filesystem::nodes::node_name::NodeName;

fn initialize_inner_drive() -> (ActorId, InnerDrive) {
    let mut rng = rand_chacha::ChaCha20Rng::from_entropy();
    let actor_id = ActorId([7u8; 32]);
    let access = DriveAccess::initialize(&mut rng, actor_id, VerifyingKey([7u8; 49]));
    (actor_id, InnerDrive::initialize(&mut rng, actor_id, access).unwrap())
}

fn names_in(handle: &DirectoryHandle, inner: &InnerDrive, path: &[&str]) -> Vec<String> {
    let mut names: Vec<String> = handle
        .ls(inner, path)
        .unwrap()
        .iter()
        .map(|e| e.name().as_str().to_string())
        .collect();
    names.sort();
    names
}

#[test]
fn test_drive_initialization() {
    let (_, inner) = initialize_inner_drive();
    assert!(inner.node_capacity() == 32);
    assert!(inner.node_count() == 1);
}

#[test]
fn test_node_creation() {
    let mut rng = rand_chacha::ChaCha20Rng::from_entropy();
    let (actor_id, mut inner) = initialize_inner_drive();
    let root_pid = inner.root_pid();
    let builder = NodeBuilder::directory(NodeName::named("test".to_string()).unwrap());
    let node_pid = inner.create_node(&mut rng, actor_id, root_pid, builder).unwrap();
    let new_node = inner.by_perm_id(&node_pid).unwrap();
    assert_eq!(new_node.name().as_str(), "test");
    assert!(new_node.parent_id().unwrap() == root_pid);
    let root_children = inner.root_node().unwrap().ordered_child_pids();
    assert_eq!(root_children.len(), 1);
    assert!(root_children[0] == node_pid);
}

#[test]
fn creating_a_second_child_of_the_same_name_is_refused_without_change() {
    let mut rng = rand_chacha::ChaCha20Rng::from_entropy();
    let (actor_id, mut inner) = initialize_inner_drive();
    let root_pid = inner.root_pid();
    let name = NodeName::named("twice".to_string()).unwrap();
    inner.create_node(&mut rng, actor_id, root_pid, NodeBuilder::file(name.clone())).unwrap();
    let second = inner.create_node(&mut rng, actor_id, root_pid, NodeBuilder::file(name));
    assert!(second.is_err());
    assert_eq!(inner.node_count(), 2);
}

#[test]
fn mkdir_ls_cd_mv_rm_scenario() {
    let mut rng = rand_chacha::ChaCha20Rng::from_entropy();
    let (actor_id, mut inner) = initialize_inner_drive();
    let root_id = inner.root_node().unwrap().id();
    let mut handle = DirectoryHandle::new(actor_id, root_id);

    handle.mkdir(&mut inner, &mut rng, &["a", "b", "c"], true).unwrap();
    assert_eq!(names_in(&handle, &inner, &[]), vec!["a".to_string()]);
    assert_eq!(names_in(&handle, &inner, &["a"]), vec!["b".to_string()]);
    assert_eq!(names_in(&handle, &inner, &["a", "b"]), vec!["c".to_string()]);

    // An existing directory is accepted as it is.
    handle.mkdir(&mut inner, &mut rng, &["a", "b"], false).unwrap();
    assert_eq!(inner.node_count(), 4);

    // Without `recursive` only the last component may be missing.
    let refused = handle.mkdir(&mut inner, &mut rng, &["x", "y"], false);
    assert!(matches!(refused, Err(OperationError::PathNotFound)));
    assert_eq!(inner.node_count(), 4);

    handle.mkdir(&mut inner, &mut rng, &["d"], false).unwrap();

    // Move `a/b/c` into `d` under its own name.
    handle.mv(&mut inner, &["a", "b", "c"], &["d"]).unwrap();
    assert_eq!(names_in(&handle, &inner, &["d"]), vec!["c".to_string()]);
    assert!(names_in(&handle, &inner, &["a", "b"]).is_empty());

    // Move `d/c` back under a new name.
    handle.mv(&mut inner, &["d", "c"], &["a", "renamed"]).unwrap();
    assert_eq!(names_in(&handle, &inner, &["a"]), vec!["b".to_string(), "renamed".to_string()]);
    assert!(names_in(&handle, &inner, &["d"]).is_empty());

    // A move whose destination needs more than one missing directory is refused.
    let refused = handle.mv(&mut inner, &["d"], &["nowhere", "deeper", "deepest"]);
    assert!(matches!(refused, Err(OperationError::PathNotFound)));

    let sub = handle.cd(&inner, &["a"]).unwrap();
    assert_eq!(names_in(&sub, &inner, &[]), vec!["b".to_string(), "renamed".to_string()]);
    assert!(matches!(handle.cd(&inner, &["missing"]), Err(OperationError::NotTraversable)));

    handle.rm(&mut inner, &mut banyanfs::stores::memory_data_store::MemoryDataStore::new(), &["a"]).unwrap();
    assert_eq!(names_in(&handle, &inner, &[]), vec!["d".to_string()]);
    assert_eq!(inner.node_count(), 2);
    assert!(matches!(handle.rm(&mut inner, &mut banyanfs::stores::memory_data_store::MemoryDataStore::new(), &[]), Err(OperationError::UnexpectedEmptyPath)));
}

#[test]
fn mkdir_over_a_file_is_refused() {
    let mut rng = rand_chacha::ChaCha20Rng::from_entropy();
    let (actor_id, mut inner) = initialize_inner_drive();
    let root_pid = inner.root_pid();
    let root_id = inner.root_node().unwrap().id();
    let pid = inner
        .create_node(&mut rng, actor_id, root_pid, NodeBuilder::file(NodeName::named("f".to_string()).unwrap()))
        .unwrap();
    let file_id = inner.by_perm_id(&pid).unwrap().id();
    let mut handle = DirectoryHandle::new(actor_id, root_id);
    let r = handle.mkdir(&mut inner, &mut rng, &["f"], false);
    assert!(matches!(r, Err(OperationError::Exists(id)) if id == file_id));
    let entries = handle.ls(&inner, &["f"]).unwrap();
    assert_eq!(entries.len(), 1);
    assert!(entries[0].kind() == NodeKind::File);
}

#[test]
fn test_drive_round_tripping() {
    let mut rng = rand_chacha::ChaCha20Rng::from_entropy();
    let (actor_id, mut inner) = initialize_inner_drive();
    let root_id = inner.root_node().unwrap().id();
    let mut handle = DirectoryHandle::new(actor_id, root_id);
    handle.mkdir(&mut inner, &mut rng, &["dir_1", "dir_2", "dir_3"], true).unwrap();
    let root_pid = inner.root_pid();
    inner
        .create_node(&mut rng, actor_id, root_pid, NodeBuilder::file(NodeName::named("file_1".to_string()).unwrap()))
        .unwrap();

    let mut encoded = Vec::new();
    let written = inner.encode(&mut encoded).unwrap();
    assert_eq!(written, encoded.len());

    let access = DriveAccess::initialize(&mut rng, actor_id, VerifyingKey([7u8; 49]));
    let (remaining, parsed) = InnerDrive::parse(encoded.as_slice(), access).unwrap();
    assert!(remaining.is_empty());
    assert_eq!(inner.node_count(), parsed.node_count());
    assert!(parsed.root_pid() == inner.root_pid());
    for name in ["dir_1", "file_1"] {
        let pid = inner
            .root_node()
            .unwrap()
            .data()
            .children()
            .unwrap()
            .get(&NodeName::named(name.to_string()).unwrap())
            .unwrap()
            .permanent_id;
        assert!(parsed.lookup_internal_id(&pid).is_ok());
    }

    // Every proper prefix of the encoding is incomplete.
    let truncated = InnerDrive::parse(&encoded[..encoded.len() - 1], DriveAccess::initialize(&mut rng, actor_id, VerifyingKey([7u8; 49])));
    assert!(matches!(truncated, Err(ParseError::Incomplete)));
}

#[test]
fn a_tree_naming_a_node_twice_is_refused() {
    let (_, inner) = initialize_inner_drive();
    let mut encoded = Vec::new();
    inner.encode(&mut encoded).unwrap();
    // Claim two nodes and repeat the root's encoding.
    let node_bytes = encoded[24..].to_vec();
    encoded[16..24].copy_from_slice(&2u64.to_le_bytes());
    encoded.extend_from_slice(&node_bytes);
    let mut rng = rand_chacha::ChaCha20Rng::from_entropy();
    let parsed = InnerDrive::parse(encoded.as_slice(), DriveAccess::initialize(&mut rng, ActorId([1u8; 32]), VerifyingKey([7u8; 49])));
    assert!(matches!(parsed, Err(ParseError::Invalid(_))));
}

#[test]
fn full_path_from_root_names_each_directory_down_to_the_node() {
    let mut rng = rand_chacha::ChaCha20Rng::from_entropy();
    let actor = ActorId([9u8; 32]);
    let mut drive = Drive::initialize_private(&mut rng, actor, VerifyingKey([7u8; 49])).unwrap();
    assert!(drive.has_read_access(&actor));
    assert!(drive.has_write_access(&actor));
    assert!(!drive.has_read_access(&ActorId([8u8; 32])));

    let mut root = drive.root().unwrap();
    root.mkdir(&mut drive.inner, &mut rng, &["a", "b", "c"], true).unwrap();
    let entries = root.ls(&drive.inner, &["a", "b"]).unwrap();
    let c_pid = entries[0].permanent_id();
    assert_eq!(
        drive.full_path_from_root(&c_pid).unwrap(),
        vec!["a".to_string(), "b".to_string(), "c".to_string()]
    );
    let root_pid = drive.inner.root_pid();
    assert!(drive.full_path_from_root(&root_pid).unwrap().is_empty());
    let unknown = banyanfs::codec::ids::PermanentId([0xee; 16]);
    assert!(matches!(drive.full_path_from_root(&unknown), Err(OperationError::MissingPermanentId(_))));

    let entry = drive.entry_by_id(&c_pid).unwrap();
    assert_eq!(entry.name().as_str(), "c");
    let handle = drive.directory_by_id(&c_pid).unwrap();
    assert!(handle.ls(&drive.inner, &[]).unwrap().is_empty());
    let cid = drive.root_cid().unwrap();
    assert_eq!(cid.as_bytes().len(), 32);
}

#[test]
fn paths_can_not_climb_above_their_start() {
    let mut rng = rand_chacha::ChaCha20Rng::from_entropy();
    let (actor_id, mut inner) = initialize_inner_drive();
    let root_id = inner.root_node().unwrap().id();
    let mut handle = DirectoryHandle::new(actor_id, root_id);
    handle.mkdir(&mut inner, &mut rng, &["a"], false).unwrap();
    let sub = handle.cd(&inner, &["a"]).unwrap();
    assert!(matches!(sub.cd(&inner, &[".."]), Err(OperationError::NotTraversable)));
    assert!(matches!(sub.ls(&inner, &[".."]), Err(OperationError::NotTraversable)));
    let mut sub = sub;
    let refused = sub.mkdir(&mut inner, &mut rng, &["..", "b"], true);
    assert!(matches!(
        refused,
        Err(OperationError::InvalidName(banyanfs::filesystem::nodes::node_name::NodeNameError::ReservedDirectoryTraversal))
    ));
    assert_eq!(inner.node_count(), 2);
}

#[test]
fn sizes_are_recorded_in_parents_after_changes() {
    let mut rng = rand_chacha::ChaCha20Rng::from_entropy();
    let (actor_id, mut inner) = initialize_inner_drive();
    let root_id = inner.root_node().unwrap().id();
    let mut handle = DirectoryHandle::new(actor_id, root_id);
    handle.mkdir(&mut inner, &mut rng, &["a", "b"], true).unwrap();
    let root = inner.root_node().unwrap();
    let entry = root.data().children().unwrap().get(&NodeName::named("a".to_string()).unwrap()).unwrap();
    let a = inner.by_perm_id(entry.permanent_id()).unwrap();
    // The root records the current CID and size of `a`, which in turn records `b`.
    assert!(entry.cid() == &a.cid().unwrap());
    assert_eq!(entry.size(), a.size());
}

#[test]
fn drive_keys_are_authorized_and_then_revoked() {
    let mut rng = rand_chacha::ChaCha20Rng::from_entropy();
    let owner = ActorId([1u8; 32]);
    let reader = ActorId([2u8; 32]);
    let stranger = ActorId([3u8; 32]);
    let mut drive = Drive::initialize_private(&mut rng, owner, VerifyingKey([7u8; 49])).unwrap();
    assert!(!drive.has_read_access(&reader));

    let read_only = AccessMask {
        filesystem_key: true,
        data_key: true,
        maintenance_key: false,
        owner: false,
        protected: false,
        historical: false,
    };
    drive.authorize_key(reader, VerifyingKey([3u8; 49]), read_only).unwrap();
    assert!(drive.has_read_access(&reader));
    assert!(!drive.has_write_access(&reader));
    assert!(matches!(drive.authorize_key(reader, VerifyingKey([3u8; 49]), read_only), Err(DriveAccessError::ActorAlreadyPresent)));

    assert!(matches!(drive.remove_key(&owner, &owner), Err(DriveAccessError::SelfProtected)));
    assert!(matches!(drive.remove_key(&owner, &stranger), Err(DriveAccessError::UnknownActorId(_))));
    assert!(matches!(drive.remove_key(&reader, &owner), Err(DriveAccessError::AccessDenied(_))));
    drive.remove_key(&owner, &reader).unwrap();
    assert!(!drive.has_read_access(&reader));
    assert!(drive.has_maintenance_access(&owner));
}

#[test]
fn listing_sizes_are_content_sizes() {
    let mut rng = rand_chacha::ChaCha20Rng::from_entropy();
    let (actor_id, mut inner) = initialize_inner_drive();
    let root_id = inner.root_node().unwrap().id();
    let mut handle = DirectoryHandle::new(actor_id, root_id);
    handle.mkdir(&mut inner, &mut rng, &["docs", "deep"], true).unwrap();
    let root_pid = inner.root_pid();
    inner
        .create_node(&mut rng, actor_id, root_pid, NodeBuilder::file(NodeName::named("top".to_string()).unwrap()).with_size_hint(5))
        .unwrap();
    let docs = handle.cd(&inner, &["docs"]).unwrap();
    let docs_pid = inner.by_id(docs.cwd_id).unwrap().permanent_id();
    let deep = handle.cd(&inner, &["docs", "deep"]).unwrap();
    let deep_pid = inner.by_id(deep.cwd_id).unwrap().permanent_id();
    inner
        .create_node(&mut rng, actor_id, docs_pid, NodeBuilder::file(NodeName::named("a".to_string()).unwrap()).with_size_hint(100))
        .unwrap();
    inner
        .create_node(&mut rng, actor_id, deep_pid, NodeBuilder::file(NodeName::named("b".to_string()).unwrap()).with_size_hint(20))
        .unwrap();

    let entries = handle.ls(&inner, &[]).unwrap();
    let size_of = |n: &str| entries.iter().find(|e| e.name().as_str() == n).unwrap().size();
    assert_eq!(size_of("top"), 5);
    assert_eq!(size_of("docs"), 120);
    assert_eq!(handle.ls(&inner, &["docs", "a"]).unwrap()[0].size(), 100);
}

#[test]
fn directories_only_go_under_directories() {
    let mut rng = rand_chacha::ChaCha20Rng::from_entropy();
    let (actor_id, mut inner) = initialize_inner_drive();
    let root_pid = inner.root_pid();
    let root_id = inner.root_node().unwrap().id();
    inner
        .create_node(&mut rng, actor_id, root_pid, NodeBuilder::file(NodeName::named("f".to_string()).unwrap()))
        .unwrap();
    let mut handle = DirectoryHandle::new(actor_id, root_id);
    let count = inner.node_count();
    let r = handle.mkdir(&mut inner, &mut rng, &["f", "sub"], true);
    assert!(matches!(r, Err(OperationError::ParentMustBeDirectory)));
    let r = handle.mkdir(&mut inner, &mut rng, &["f", "sub"], false);
    assert!(matches!(r, Err(OperationError::ParentMustBeDirectory)));
    assert_eq!(inner.node_count(), count);
}

#[test]
fn mv_dir_from_dir_to_cwd_specify_name() {
    let mut rng = rand_chacha::ChaCha20Rng::from_entropy();
    let (actor_id, mut inner) = initialize_inner_drive();
    let root_id = inner.root_node().unwrap().id();
    let mut handle = DirectoryHandle::new(actor_id, root_id);
    handle.mkdir(&mut inner, &mut rng, &["dir_1", "dir_2", "dir_3"], true).unwrap();
    handle.mv(&mut inner, &["dir_1", "dir_2"], &["dir_2_new"]).unwrap();
    assert_eq!(names_in(&handle, &inner, &[]), vec!["dir_1".to_string(), "dir_2_new".to_string()]);
    assert!(names_in(&handle, &inner, &["dir_1"]).is_empty());
    assert_eq!(names_in(&handle, &inner, &["dir_2_new"]), vec!["dir_3".to_string()]);
}

#[test]
fn rm_leaves_unrelated_blocks_in_the_store() {
    let mut store = MemoryDataStore::new();
    let keep = Cid([9u8; 32]);
    store.store(keep, vec![1], false).unwrap();
    let (actor_id, mut inner) = initialize_inner_drive();
    let root_id = inner.root_node().unwrap().id();
    let mut rng = rand_chacha::ChaCha20Rng::from_entropy();
    let mut handle = DirectoryHandle::new(actor_id, root_id);
    handle.mkdir(&mut inner, &mut rng, &["gone"], false).unwrap();
    handle.rm(&mut inner, &mut store, &["gone"]).unwrap();
    assert!(matches!(handle.rm(&mut inner, &mut store, &["gone"]), Err(OperationError::PathNotFound)));
    assert!(store.contains_cid(keep).unwrap());
}

#[test]
fn written_files_read_back_as_written() {
    let mut rng = rand_chacha::ChaCha20Rng::from_entropy();
    let mut store = MemoryDataStore::new();
    let (actor_id, mut inner) = initialize_inner_drive();
    let root_id = inner.root_node().unwrap().id();
    let mut handle = DirectoryHandle::new(actor_id, root_id);
    handle.mkdir(&mut inner, &mut rng, &["docs"], false).unwrap();

    let small = b"hello encrypted world".to_vec();
    handle.write(&mut inner, &mut rng, &mut store, &["docs", "note.txt"], &small).unwrap();
    assert_eq!(handle.read(&inner, &store, &["docs", "note.txt"]).unwrap(), small);

    // Data larger than one block is cut into several blocks and put back together in order.
    let large: Vec<u8> = (0..600_000u32).map(|i| (i % 251) as u8).collect();
    handle.write(&mut inner, &mut rng, &mut store, &["big.bin"], &large).unwrap();
    assert_eq!(handle.read(&inner, &store, &["big.bin"]).unwrap(), large);

    let empty: Vec<u8> = Vec::new();
    handle.write(&mut inner, &mut rng, &mut store, &["empty"], &empty).unwrap();
    assert_eq!(handle.read(&inner, &store, &["empty"]).unwrap(), empty);

    let entries = handle.ls(&inner, &["docs"]).unwrap();
    assert_eq!(entries.len(), 1);
    assert_eq!(entries[0].name().as_str(), "note.txt");
}

#[test]
fn written_blocks_hold_no_plaintext() {
    let mut rng = rand_chacha::ChaCha20Rng::from_entropy();
    let mut store = MemoryDataStore::new();
    let (actor_id, mut inner) = initialize_inner_drive();
    let root_id = inner.root_node().unwrap().id();
    let mut handle = DirectoryHandle::new(actor_id, root_id);
    let secret = b"a secret that must not be stored in the clear".to_vec();
    handle.write(&mut inner, &mut rng, &mut store, &["secret"], &secret).unwrap();
    let node = inner.root_node().unwrap();
    let pid = node.ordered_child_pids()[0];
    let file = inner.by_perm_id(&pid).unwrap();
    let cids = file.data_cids().unwrap();
    assert_eq!(cids.len(), 1);
    let block = store.retrieve(cids[0]).unwrap();
    assert_eq!(block.len(), secret.len() + 40);
    assert!(!block.windows(secret.len()).any(|w| w == secret.as_slice()));
}

#[test]
fn write_and_read_refusals() {
    let mut rng = rand_chacha::ChaCha20Rng::from_entropy();
    let mut store = MemoryDataStore::new();
    let (actor_id, mut inner) = initialize_inner_drive();
    let root_id = inner.root_node().unwrap().id();
    let mut handle = DirectoryHandle::new(actor_id, root_id);
    assert!(matches!(handle.write(&mut inner, &mut rng, &mut store, &[], b"x"), Err(OperationError::UnexpectedEmptyPath)));
    assert!(matches!(
        handle.write(&mut inner, &mut rng, &mut store, &["missing", "file"], b"x"),
        Err(OperationError::PathNotFound)
    ));
    assert!(matches!(handle.read(&inner, &store, &[]), Err(OperationError::UnexpectedEmptyPath)));
    assert!(matches!(handle.read(&inner, &store, &["nothing"]), Err(OperationError::PathNotFound)));
    handle.mkdir(&mut inner, &mut rng, &["dir"], false).unwrap();
    assert!(matches!(handle.read(&inner, &store, &["dir"]), Err(OperationError::NotReadable)));

    handle.write(&mut inner, &mut rng, &mut store, &["file"], b"content").unwrap();
    // A second write to the same name is refused; the first content stays readable.
    assert!(handle.write(&mut inner, &mut rng, &mut store, &["file"], b"other").is_err());
    assert_eq!(handle.read(&inner, &store, &["file"]).unwrap(), b"content".to_vec());

    // Without its blocks the file can not be read.
    let empty_store = MemoryDataStore::new();
    assert!(matches!(handle.read(&inner, &empty_store, &["file"]), Err(OperationError::BlockUnavailable(_))));

    // A stub created without content is not available yet.
    let root_pid = inner.root_pid();
    let stub = NodeBuilder::file(NodeName::named("stub".to_string()).unwrap());
    inner.create_node(&mut rng, actor_id, root_pid, stub).unwrap();
    assert!(matches!(handle.read(&inner, &store, &["stub"]), Err(OperationError::NotAvailable)));

    // An actor without access is refused.
    let stranger = DirectoryHandle::new(ActorId([1u8; 32]), root_id);
    assert!(matches!(stranger.read(&inner, &store, &["file"]), Err(OperationError::AccessDenied)));
    let mut stranger = stranger;
    assert!(matches!(
        stranger.write(&mut inner, &mut rng, &mut store, &["other"], b"x"),
        Err(OperationError::AccessDenied)
    ));
}
