use banyanfs::codec::crypto::{Nonce, NONCE_LENGTH};
use banyanfs::codec::header::{banyan_fs_magic_tag, fs_version_one, IdentityHeader};
use banyanfs::codec::parser::{ErrorKind, ParseError};
use rand::{Rng, SeedableRng};

#[test]
fn test_nonce_parsing() {
    let mut rng = rand::thread_rng();
    let input: [u8; NONCE_LENGTH + 4] = rng.gen();
    let (remaining, nonce) = Nonce::parse(&input).unwrap();

    assert_eq!(remaining, &input[NONCE_LENGTH..]);
    assert_eq!(nonce.as_bytes(), &input[..NONCE_LENGTH]);

    assert!(Nonce::parse_complete(&input).is_err());
    assert!(Nonce::parse_complete(&input[..NONCE_LENGTH]).is_ok());
}

#[test]
fn test_nonce_parsing_stream_too_short() {
    let input = [0u8; NONCE_LENGTH - 1];
    let result = Nonce::parse(&input);
    assert!(matches!(result, Err(ParseError::Incomplete)));
}

#[test]
fn a_complete_nonce_rejects_trailing_bytes_and_waits_for_missing_ones() {
    let input = [7u8; NONCE_LENGTH + 1];
    assert!(matches!(Nonce::parse_complete(&input), Err(ParseError::Invalid(ErrorKind::Eof))));
    assert!(matches!(Nonce::parse_complete(&input[..3]), Err(ParseError::Incomplete)));
    let nonce = Nonce::parse_complete(&input[..NONCE_LENGTH]).unwrap();
    assert_eq!(nonce.as_bytes(), &[7u8; NONCE_LENGTH]);
}

#[test]
fn generated_nonces_differ() {
    let mut rng = rand_chacha::ChaCha20Rng::from_entropy();
    let a = Nonce::generate(&mut rng);
    let b = Nonce::generate(&mut rng);
    assert_ne!(a.as_bytes(), b.as_bytes());
}

#[test]
fn the_magic_tag_is_matched_byte_by_byte() {
    let (rest, magic) = banyan_fs_magic_tag(b"BYFS!").unwrap();
    assert_eq!(magic, b"BYFS");
    assert_eq!(rest, b"!");
    assert!(matches!(banyan_fs_magic_tag(b"BY"), Err(ParseError::Incomplete)));
    assert!(matches!(banyan_fs_magic_tag(b"BX"), Err(ParseError::Invalid(ErrorKind::Tag))));
    assert!(matches!(banyan_fs_magic_tag(b"BYFD"), Err(ParseError::Invalid(ErrorKind::Tag))));
}

#[test]
fn only_version_one_is_accepted_whatever_the_reserved_bit() {
    assert_eq!(fs_version_one(&[0x01, 0xaa]).unwrap(), (&[0xaa][..], ()));
    assert!(fs_version_one(&[0x81]).is_ok());
    assert!(matches!(fs_version_one(&[0x02]), Err(ParseError::Invalid(ErrorKind::Tag))));
    assert!(matches!(fs_version_one(&[]), Err(ParseError::Incomplete)));
}

#[test]
fn the_identity_header_holds_its_length_after_the_magic() {
    let input = [b'B', b'Y', b'F', b'S', 0x10, 0x02, 0x00, 0x00, 0xff];
    let (rest, header) = IdentityHeader::parse_with_magic(&input).unwrap();
    assert_eq!(header.header_length, 0x0210);
    assert_eq!(rest, &[0xff]);
    assert!(matches!(IdentityHeader::parse_with_magic(&input[..6]), Err(ParseError::Incomplete)));
    assert!(matches!(IdentityHeader::parse_with_magic(b"XYFS\x00\x00\x00\x00"), Err(ParseError::Invalid(_))));
}
