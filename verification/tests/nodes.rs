use banyanfs::codec::blocks::BlockKind;
use banyanfs::codec::crypto::AccessKey;
use banyanfs::codec::ids::{ActorId, Cid, PermanentId};
use banyanfs::codec::parser::ParseError;
use banyanfs::filesystem::content_reference::ContentLocation;
use banyanfs::filesystem::file_content::FileContent;
use banyanfs::filesystem::nodes::attributes::Attributes;
use banyanfs::filesystem::nodes::metadata::mime_type::{parse_vint, MediaType, MimeGuesser};
use banyanfs::filesystem::nodes::metadata::MetadataKey;
use banyanfs::filesystem::nodes::node::Node;
use banyanfs::filesystem::nodes::node_builder::NodeBuilder;
use banyanfs::filesystem::nodes::node_data::child_map::{ChildMap, ChildMapEntry};
use banyanfs::filesystem::nodes::node_data::{NodeData, NodeDataError};
use banyanfs::filesystem::nodes::node_name::{NodeName, NodeNameError};
use banyanfs::filesystem::permissions::Permissions;
use banyanfs::utils::calculate_cid;
use rand::SeedableRng;

fn name(s: &str) -> NodeName {
    NodeName::named(s.to_string()).unwrap()
}

#[test]
fn node_names_are_validated_in_order() {
    assert!(matches!(NodeName::named(String::new()), Err(NodeNameError::Empty)));
    assert!(matches!(NodeName::named("a".repeat(256)), Err(NodeNameError::TooLong(256))));
    assert!(matches!(NodeName::named(".".to_string()), Err(NodeNameError::ReservedDirectoryTraversal)));
    assert!(matches!(NodeName::named("..".to_string()), Err(NodeNameError::ReservedDirectoryTraversal)));
    assert!(matches!(NodeName::named("{:root:}".to_string()), Err(NodeNameError::ReservedRoot)));
    assert!(matches!(NodeName::named("a/b".to_string()), Err(NodeNameError::ContainsSlash)));
    assert_eq!(name("ünïcode").as_str(), "ünïcode");
    assert!(NodeName::root().is_root());
    assert!(!name("x").is_root());
}

#[test]
fn node_names_encode_with_a_type_and_length_byte() {
    let mut out = Vec::new();
    assert_eq!(name("abc").encode(&mut out).unwrap(), 5);
    assert_eq!(out, vec![0x01, 3, b'a', b'b', b'c']);
    let (rest, parsed) = NodeName::parse(&out).unwrap();
    assert!(rest.is_empty());
    assert_eq!(parsed.as_str(), "abc");

    let mut root = Vec::new();
    NodeName::root().encode(&mut root).unwrap();
    assert_eq!(root, vec![0x00]);
    assert!(NodeName::parse(&root).unwrap().1.is_root());

    assert!(matches!(NodeName::parse(&[0x01, 4, b'a']), Err(ParseError::Incomplete)));
    assert!(matches!(NodeName::parse(&[0x07]), Err(ParseError::Invalid(_))));
    assert!(matches!(NodeName::parse(&[0x01, 1, 0xff]), Err(ParseError::Invalid(_))));
}

#[test]
fn calculate_cid_is_the_blake3_digest() {
    let cid = calculate_cid(b"");
    let expected: [u8; 32] = [
        0xaf, 0x13, 0x49, 0xb9, 0xf5, 0xf9, 0xa1, 0xa6, 0xa0, 0x40, 0x4d, 0xea, 0x36, 0xdc, 0xc9, 0x49, 0x9b, 0xcb, 0x25,
        0xc9, 0xad, 0xc1, 0x12, 0xb7, 0xcc, 0x9a, 0x93, 0xca, 0xe4, 0x1f, 0x32, 0x62,
    ];
    assert_eq!(cid.as_bytes(), &expected);
    assert!(calculate_cid(b"a") != cid);
}

#[test]
fn mime_types_come_from_magic_bytes_then_structure_then_extension() {
    let png = MimeGuesser::default().with_data(&[0x89, b'P', b'N', b'G', 0x0d, 0x0a, 0x1a, 0x0a, 0, 0]);
    assert!(matches!(png.guess_mime_type(), Some(MediaType::ImagePng)));

    let mut mp4 = vec![0, 0, 0, 0x18];
    mp4.extend_from_slice(b"ftypmp42");
    mp4.extend_from_slice(&[0, 0, 0, 0]);
    mp4.extend_from_slice(b"mp42isom");
    let guessed = MimeGuesser::default().with_data(&mp4).guess_mime_type();
    assert!(matches!(guessed, Some(MediaType::VideoMp4)));

    let by_name = MimeGuesser::default().with_name(name("notes.txt")).with_data(b"plain words");
    match by_name.guess_mime_type() {
        Some(MediaType::Other(t)) => assert_eq!(t, "text/plain"),
        other => panic!("unexpected guess {other:?}"),
    }

    let unknown = MimeGuesser::default().with_data(b"zzzz");
    assert!(unknown.guess_mime_type().is_none());
}

#[test]
fn metadata_keys_read_from_text_and_bytes() {
    assert!(matches!("mime".parse::<MetadataKey>(), Ok(MetadataKey::MimeType)));
    assert_eq!("color".parse::<MetadataKey>().unwrap().as_str(), "color");
    assert!("x".repeat(256).parse::<MetadataKey>().is_err());
    assert!(matches!(MetadataKey::from_bytes(b"mime"), Some(MetadataKey::MimeType)));
    assert_eq!(MetadataKey::from_bytes(b"tag").unwrap().as_bytes(), b"tag".to_vec());
    assert!(MetadataKey::from_bytes(&[0xff, 0xfe]).is_none());
}

#[test]
fn permissions_pack_into_one_byte() {
    let p = Permissions { creator_write_only: true, executable: false, immutable: true };
    let mut out = Vec::new();
    p.encode(&mut out);
    assert_eq!(out, vec![0b101]);
    let (_, back) = Permissions::parse(&out).unwrap();
    assert!(back.creator_write_only() && !back.executable() && back.immutable());
    assert!(matches!(Permissions::parse(&[0b1000]), Err(ParseError::Invalid(_))));
}

#[test]
fn attributes_are_kept_sorted_and_round_trip() {
    let mut attrs = Attributes::new();
    assert!(attrs.insert("zeta".to_string(), vec![1]).is_none());
    assert!(attrs.insert("alpha".to_string(), vec![2, 3]).is_none());
    assert_eq!(attrs.insert("zeta".to_string(), vec![4]).unwrap(), vec![1]);
    assert_eq!(attrs.len(), 2);
    assert_eq!(attrs.get("zeta").unwrap(), &vec![4]);
    assert!(attrs.get("missing").is_none());

    let mut out = Vec::new();
    let written = attrs.encode(&mut out).unwrap();
    assert_eq!(written, out.len());
    assert_eq!(written, attrs.size() + 1);
    assert_eq!(out, vec![2, 5, b'a', b'l', b'p', b'h', b'a', 2, 2, 3, 4, b'z', b'e', b't', b'a', 1, 4]);
    let (rest, back) = Attributes::parse(&out).unwrap();
    assert!(rest.is_empty());
    assert_eq!(back.get("alpha").unwrap(), &vec![2, 3]);
}

#[test]
fn child_maps_find_by_name_and_permanent_id() {
    let mut map = ChildMap::new();
    let a = PermanentId([1u8; 16]);
    let b = PermanentId([2u8; 16]);
    map.insert(name("b"), ChildMapEntry::new(b, Cid([9u8; 32]), 7));
    map.insert(name("a"), ChildMapEntry::new(a, Cid([8u8; 32]), 3));
    assert_eq!(map.len(), 2);
    let ordered = map.ordered_pids();
    assert!(ordered[0] == a && ordered[1] == b);
    assert_eq!(map.get(&name("b")).unwrap().size(), 7);
    assert!(map.update_permanent_id(&a, Cid([7u8; 32]), 30));
    assert_eq!(map.get(&name("a")).unwrap().size(), 30);
    assert!(!map.update_permanent_id(&PermanentId([3u8; 16]), Cid([7u8; 32]), 1));

    let mut out = Vec::new();
    map.encode(&mut out).unwrap();
    let (rest, back) = ChildMap::parse(&out).unwrap();
    assert!(rest.is_empty());
    assert_eq!(back.len(), 2);
    assert!(back.get(&name("a")).unwrap().permanent_id() == &a);

    assert!(map.remove(&name("a")).is_some());
    assert!(map.get(&name("a")).is_none());
    assert!(map.remove(&name("a")).is_none());
}

#[test]
fn node_data_children_rules() {
    let mut dir = NodeData::new_directory();
    dir.add_child(name("x"), PermanentId([5u8; 16]), Cid([1u8; 32]), 10).unwrap();
    assert!(matches!(
        dir.add_child(name("x"), PermanentId([6u8; 16]), Cid([1u8; 32]), 10),
        Err(NodeDataError::ChildNameExists)
    ));
    assert_eq!(dir.ordered_child_pids().len(), 1);
    assert!(matches!(dir.remove_child(&name("y")), Err(NodeDataError::ChildNameMissing)));
    assert!(dir.remove_child(&name("x")).unwrap() == PermanentId([5u8; 16]));
    assert!(dir.ordered_child_pids().is_empty());

    let stub = NodeData::stub_file(1234);
    assert!(stub.data_cids().is_none());
    let mut out = Vec::new();
    stub.encode(&mut out).unwrap();
    let (rest, back) = NodeData::parse(&out).unwrap();
    assert!(rest.is_empty());
    assert_eq!(back.size(), stub.size());
}

#[test]
fn nodes_round_trip_through_their_encoding() {
    let owner = ActorId([4u8; 32]);
    let parent = PermanentId([2u8; 16]);
    let node: Node = NodeBuilder::file(name("report.pdf"))
        .with_parent(parent)
        .with_owner(owner)
        .with_id(3)
        .build_with(PermanentId([9u8; 16]), 1_700_000_000_000)
        .unwrap();
    let mut out = Vec::new();
    let written = node.encode(&mut out).unwrap();
    assert_eq!(written, out.len());
    out.extend_from_slice(b"tail");

    let (rest, back) = Node::parse(&out, 11).unwrap();
    assert_eq!(rest, b"tail");
    assert_eq!(back.id(), 11);
    assert!(back.permanent_id() == node.permanent_id());
    assert!(back.parent_id().unwrap() == parent);
    assert!(back.owner_id() == owner);
    assert_eq!(back.name().as_str(), "report.pdf");
    assert_eq!(back.created_at(), 1_700_000_000_000);
    assert!(back.cid().unwrap() == node.cid().unwrap());
    assert!(node.cid().unwrap() == calculate_cid(&out[36..written]));

    // A body whose recorded length disagrees with what was read is refused.
    let mut bad = out.clone();
    bad[32] = bad[32].wrapping_add(1);
    assert!(matches!(Node::parse(&bad, 0), Err(ParseError::Invalid(_))));
    assert!(matches!(Node::parse(&out[..40], 0), Err(ParseError::Incomplete)));
}

#[test]
fn locked_keys_open_only_with_the_wrapping_key() {
    let mut rng = rand_chacha::ChaCha20Rng::from_entropy();
    let key = AccessKey::generate(&mut rng);
    let wrapping = AccessKey::generate(&mut rng);
    let locked = key.lock_with(&mut rng, &wrapping);
    let opened = locked.unlock(&wrapping).unwrap();
    assert_eq!(opened.as_bytes(), key.as_bytes());
    let other = AccessKey::from_bytes([0x42; 32]);
    assert!(locked.unlock(&other).is_err());

    let mut out = Vec::new();
    locked.encode(&mut out);
    let (rest, parsed) = banyanfs::codec::crypto::SymLockedAccessKey::parse(&out).unwrap();
    assert!(rest.is_empty());
    assert_eq!(parsed.unlock(&wrapping).unwrap().as_bytes(), key.as_bytes());
}

#[test]
fn file_content_reports_its_kind() {
    let mut rng = rand_chacha::ChaCha20Rng::from_entropy();
    let wrapping = AccessKey::generate(&mut rng);
    let locked = AccessKey::generate(&mut rng).lock_with(&mut rng, &wrapping);
    let content = FileContent::encrypted(locked, Cid([1u8; 32]), 99, Vec::new());
    assert!(content.is_encrypted());
    assert!(!content.is_stub());
    assert_eq!(content.size(), 99);
    assert!(content.cid().unwrap() == Cid([1u8; 32]));
    assert!(content.data_key().is_ok());
    let mut out = Vec::new();
    content.encode(&mut out).unwrap();
    let (rest, back) = FileContent::parse(&out).unwrap();
    assert!(rest.is_empty());
    assert_eq!(back.size(), 99);

    let stub = FileContent::Stub { data_size: 5 };
    assert!(stub.is_stub());
    assert!(stub.content_references().is_err());
}

#[test]
fn content_locations_round_trip() {
    let loc = ContentLocation::data(Cid([6u8; 32]), 12);
    assert_eq!(loc.block_index(), 12);
    assert!(matches!(loc.block_kind(), BlockKind::Data));
    let mut out = Vec::new();
    let n = loc.encode(&mut out);
    assert_eq!(n, out.len());
    assert_eq!(n, loc.size());
    let (rest, back) = ContentLocation::parse(&out).unwrap();
    assert!(rest.is_empty());
    assert_eq!(back.block_index(), 12);
    assert!(back.content_cid() == &Cid([6u8; 32]));
}

#[test]
fn built_nodes_take_a_fresh_permanent_id_and_the_builder_settings() {
    let mut rng = rand_chacha::ChaCha20Rng::from_entropy();
    let owner = ActorId([4u8; 32]);
    let parent = PermanentId([2u8; 16]);
    let node = NodeBuilder::file(name("notes.txt"))
        .with_parent(parent)
        .with_owner(owner)
        .with_id(5)
        .with_size_hint(42)
        .build(&mut rng)
        .unwrap();
    assert_eq!(node.id(), 5);
    assert!(node.owner_id() == owner);
    assert!(node.parent_id().unwrap() == parent);
    assert_eq!(node.name().as_str(), "notes.txt");
    assert_eq!(node.data().size(), Permissions::size() as u64 + 42);
    assert_eq!(node.created_at(), node.modified_at());

    let other = NodeBuilder::file(name("notes.txt")).with_parent(parent).with_owner(owner).with_id(6).build(&mut rng).unwrap();
    assert!(other.permanent_id() != node.permanent_id());

    let missing_owner = NodeBuilder::file(name("x")).with_parent(parent).with_id(1).build(&mut rng);
    assert!(missing_owner.is_err());
}

#[test]
fn setting_an_attribute_returns_the_value_it_replaces() {
    let mut node = NodeBuilder::directory(name("docs"))
        .with_parent(PermanentId([2u8; 16]))
        .with_owner(ActorId([4u8; 32]))
        .with_id(3)
        .build_with(PermanentId([9u8; 16]), 1_000)
        .unwrap();
    assert!(node.set_attribute("color".to_string(), vec![1, 2]).is_none());
    assert_eq!(node.set_attribute("color".to_string(), vec![3]).unwrap(), vec![1, 2]);
    assert!(node.modified_at() >= 1_000);
}

#[test]
fn empty_and_full_files_start_with_default_permissions() {
    let empty = NodeData::empty_file();
    assert!(empty.data_cids().is_none());
    assert_eq!(empty.size(), Permissions::size() as u64);
    let full = NodeData::full_file(FileContent::Stub { data_size: 77 });
    assert_eq!(full.size(), Permissions::size() as u64 + 77);
}

#[test]
fn vints_take_their_length_from_the_leading_zero_bits() {
    assert_eq!(parse_vint(&[0x40, 0x02], 0), (2, 2));
    assert_eq!(parse_vint(&[0x81], 0), (1, 1));
    assert_eq!(parse_vint(&[0xff, 0x20, 0x01, 0x02], 1), (0x0102, 3));
    assert_eq!(parse_vint(&[0x20, 0x01], 0), (0, 3));
    assert_eq!(parse_vint(&[0x00; 8], 0), (0, 8));
    assert_eq!(parse_vint(&[0x01, 1, 2, 3, 4, 5, 6, 7], 0), (0x01020304050607, 8));
    assert_eq!(parse_vint(&[], 0), (0, 1));
}

#[test]
fn an_eot_font_has_lp_after_any_34_bytes() {
    let mut d = vec![0x01u8; 34];
    d.extend_from_slice(b"LP");
    let g = MimeGuesser::default().with_data(&d);
    assert!(matches!(g.guess_mime_type(), Some(MediaType::ApplicationVndMsFontobject)));
    let short = MimeGuesser::default().with_data(&d[..35]);
    assert!(short.guess_mime_type().is_none());
}

#[test]
fn truncated_mp4_and_webm_data_is_neither() {
    let webm = MimeGuesser::default().with_data(&[0x1A, 0x45, 0xDF, 0xA3, 0x42, 0x82]);
    assert!(!webm.is_webm());
    let mp4 = MimeGuesser::default().with_data(&[0, 0, 0, 12, b'f', b't', b'y', b'p', b'i', b's', b'o', b'm']);
    assert!(!mp4.is_mp4());

    let mut full = vec![0x1A, 0x45, 0xDF, 0xA3, 0x42, 0x82, 0x84];
    full.extend_from_slice(b"webm");
    assert!(MimeGuesser::default().with_data(&full).is_webm());
    let mut two_byte_size = vec![0x1A, 0x45, 0xDF, 0xA3, 0x42, 0x82, 0x40, 0x04];
    two_byte_size.extend_from_slice(b"webm");
    assert!(MimeGuesser::default().with_data(&two_byte_size).is_webm());
}

#[test]
fn the_extension_is_what_follows_the_last_dot() {
    let guess = |n: &str| MimeGuesser::default().with_name(name(n)).guess_mime_type();
    assert!(matches!(guess("photo.png"), Some(MediaType::Other(t)) if t == "image/png"));
    assert!(matches!(guess("archive.tar.PNG"), Some(MediaType::Other(t)) if t == "image/png"));
    assert!(guess("a.png\\").is_none());
    assert!(guess(".png").is_none());
    assert!(guess("png").is_none());
    assert!(guess("trailing.").is_none());
}
