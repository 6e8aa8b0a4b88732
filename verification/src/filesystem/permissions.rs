use vstd::prelude::*;

use crate::codec::parser::{le_u8, parse_agrees, ErrorKind, ParseError, Parsed};

verus! {

/// The permission flags of a file or directory.
#[derive(Debug, Clone, Copy, PartialEq, Eq, Structural)]
pub struct Permissions {
    pub creator_write_only: bool,
    pub executable: bool,
    pub immutable: bool,
}

/// Files and directories carry the same set of flags.
pub type FilePermissions = Permissions;

pub type DirectoryPermissions = Permissions;

/// The flag byte: bit 0 marks creator-only writes, bit 1 executable, bit 2 immutable; the other
/// bits are reserved and must be clear.
pub open spec fn spec_permissions_byte(p: Permissions) -> u8 {
    ((if p.creator_write_only { 1int } else { 0int }) + (if p.executable { 2int } else { 0int }) + (
    if p.immutable { 4int } else { 0int })) as u8
}

pub open spec fn spec_permissions_from_byte(b: u8) -> Permissions {
    Permissions { creator_write_only: b % 2 == 1, executable: (b / 2) % 2 == 1, immutable: (b / 4) % 2 == 1 }
}

pub open spec fn spec_parse_permissions(s: Seq<u8>) -> Parsed<Permissions> {
    if s.len() < 1 {
        Parsed::Incomplete
    } else if s[0] >= 8 {
        Parsed::Invalid
    } else {
        Parsed::Done(1, spec_permissions_from_byte(s[0]))
    }
}

impl Default for Permissions {
    fn default() -> (r: Self)
        ensures
            r == (Permissions { creator_write_only: false, executable: false, immutable: false }),
    {
        Permissions { creator_write_only: false, executable: false, immutable: false }
    }
}

impl Permissions {
    pub fn creator_write_only(&self) -> (r: bool)
        ensures
            r == self.creator_write_only,
    {
        self.creator_write_only
    }

    pub fn executable(&self) -> (r: bool)
        ensures
            r == self.executable,
    {
        self.executable
    }

    pub fn immutable(&self) -> (r: bool)
        ensures
            r == self.immutable,
    {
        self.immutable
    }

    pub fn size() -> (r: usize)
        ensures
            r == 1,
    {
        1
    }

    pub fn encode(&self, out: &mut Vec<u8>)
        ensures
            final(out)@ == old(out)@.push(spec_permissions_byte(*self)),
    {
        let mut b: u8 = 0;
        if self.creator_write_only {
            b = b + 1;
        }
        if self.executable {
            b = b + 2;
        }
        if self.immutable {
            b = b + 4;
        }
        out.push(b);
    }

    pub fn parse(input: &[u8]) -> (res: Result<(&[u8], Permissions), ParseError>)
        ensures
            parse_agrees(input@, res, spec_parse_permissions(input@), |p: Permissions| p),
    {
        let (rest, b) = le_u8(input)?;
        if b >= 8 {
            return Err(ParseError::Invalid(ErrorKind::Verify));
        }
        Ok((rest, Permissions { creator_write_only: b % 2 == 1, executable: (b / 2) % 2 == 1, immutable: (b / 4) % 2 == 1 }))
    }
}

/// The flag byte of any permissions reads back as the same permissions.
pub proof fn lemma_permissions_roundtrip(p: Permissions, rest: Seq<u8>)
    ensures
        spec_parse_permissions(seq![spec_permissions_byte(p)] + rest) == Parsed::Done(1, p),
{
    let s = seq![spec_permissions_byte(p)] + rest;
    assert(s[0] == spec_permissions_byte(p));
}

} // verus!
