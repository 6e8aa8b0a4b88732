use vstd::prelude::*;
use vstd::slice::*;

use crate::codec::parser::{le_u32, le_u8, parse_agrees, parsed_then, spec_le_u32, take, ErrorKind, ParseError, Parsed};

verus! {

broadcast use vstd::seq::group_seq_axioms, vstd::slice::group_slice_axioms, vstd::array::group_array_axioms;

/// The four bytes `BYFS` that open every encoded filesystem.
pub open spec fn spec_fs_magic() -> Seq<u8> {
    seq![0x42u8, 0x59u8, 0x46u8, 0x53u8]
}

/// Matching the magic bytes on a stream: any differing byte rejects the input for good, while
/// a short input that agrees so far needs more data.
pub open spec fn spec_magic_tag(s: Seq<u8>) -> Parsed<Seq<u8>> {
    if s.len() >= 4 {
        if s.take(4) == spec_fs_magic() {
            Parsed::Done(4, spec_fs_magic())
        } else {
            Parsed::Invalid
        }
    } else if s == spec_fs_magic().take(s.len() as int) {
        Parsed::Incomplete
    } else {
        Parsed::Invalid
    }
}

/// The format version byte: its low seven bits must be one; the top bit is reserved and
/// ignored.
pub open spec fn spec_fs_version_one(s: Seq<u8>) -> Parsed<()> {
    if s.len() < 1 {
        Parsed::Incomplete
    } else if s[0] % 128 == 1 {
        Parsed::Done(1, ())
    } else {
        Parsed::Invalid
    }
}

/// The identity header: the magic bytes followed by the little-endian header length.
pub open spec fn spec_parse_identity_header(s: Seq<u8>) -> Parsed<u32> {
    parsed_then(spec_magic_tag(s), s, |_m: Seq<u8>, rest: Seq<u8>| spec_le_u32(rest))
}

/// Reads the magic bytes that open an encoded filesystem.
pub fn banyan_fs_magic_tag(input: &[u8]) -> (res: Result<(&[u8], &[u8]), ParseError>)
    ensures
        parse_agrees(input@, res, spec_magic_tag(input@), |m: &[u8]| m@),
{
    let magic: [u8; 4] = [0x42u8, 0x59u8, 0x46u8, 0x53u8];
    assert(magic@ =~= spec_fs_magic());
    let n: usize = if input.len() < 4 { input.len() } else { 4 };
    let mut i: usize = 0;
    while i < n
        invariant
            i <= n,
            n <= 4,
            n <= input@.len(),
            n == 4 || n == input@.len(),
            magic@ == spec_fs_magic(),
            forall|j: int| 0 <= j < i ==> input@[j] == magic@[j],
        decreases n - i,
    {
        if input[i] != magic[i] {
            proof {
                if input@.len() >= 4 {
                    assert(input@.take(4)[i as int] != spec_fs_magic()[i as int]);
                } else {
                    assert(spec_fs_magic().take(input@.len() as int)[i as int] != input@[i as int]);
                }
            }
            return Err(ParseError::Invalid(ErrorKind::Tag));
        }
        i = i + 1;
    }
    if input.len() < 4 {
        assert(input@ =~= spec_fs_magic().take(input@.len() as int));
        return Err(ParseError::Incomplete);
    }
    let (rest, head) = take(input, 4)?;
    assert(input@.take(4) =~= spec_fs_magic());
    Ok((rest, head))
}

/// Reads the format version byte, accepting version one only.
pub fn fs_version_one(input: &[u8]) -> (res: Result<(&[u8], ()), ParseError>)
    ensures
        parse_agrees(input@, res, spec_fs_version_one(input@), |u: ()| u),
{
    let (rest, version_byte) = le_u8(input)?;
    let version = version_byte & 0x7f;
    assert(version == version_byte % 128) by (bit_vector)
        requires
            version == version_byte & 0x7f,
    ;
    if version == 1 {
        Ok((rest, ()))
    } else {
        Err(ParseError::Invalid(ErrorKind::Tag))
    }
}

/// The first header of an encoded filesystem.
#[derive(Clone, Copy, Debug, PartialEq, Eq)]
pub struct IdentityHeader {
    pub header_length: u32,
}

impl IdentityHeader {
    /// Reads the magic bytes and the header length that follows them.
    pub fn parse_with_magic(input: &[u8]) -> (res: Result<(&[u8], IdentityHeader), ParseError>)
        ensures
            parse_agrees(input@, res, spec_parse_identity_header(input@), |h: IdentityHeader| h.header_length),
    {
        let (rest, _magic) = banyan_fs_magic_tag(input)?;
        let (rest, header_length) = le_u32(rest)?;
        assert(input@.skip(4).skip(4) =~= input@.skip(8));
        Ok((rest, IdentityHeader { header_length }))
    }
}

} // verus!
