use vstd::prelude::*;
use vstd::slice::*;

use crate::codec::order::{bytes_eq, bytes_lt, seq_lt};
use crate::codec::parser::{parse_agrees, put_bytes, spec_take, take, ParseError, Parsed};

verus! {

broadcast use vstd::seq::group_seq_axioms, vstd::slice::group_slice_axioms, vstd::array::group_array_axioms;

/// Copies a slice of exactly `N` bytes into an array.
pub fn array_from_slice<const N: usize>(s: &[u8]) -> (a: [u8; N])
    requires
        s@.len() == N,
    ensures
        a@ == s@,
{
    let mut a: [u8; N] = vstd::array::array_fill_for_copy_types::<u8, N>(0u8);
    let mut i: usize = 0;
    while i < N
        invariant
            i <= N,
            s@.len() == N,
            a@.len() == N,
            forall|j: int| 0 <= j < i ==> a@[j] == s@[j],
        decreases N - i,
    {
        a[i] = s[i];
        i = i + 1;
    }
    assert(a@ =~= s@);
    a
}

/// Parses exactly `N` raw bytes into an array.
pub fn parse_array<const N: usize>(input: &[u8]) -> (res: Result<(&[u8], [u8; N]), ParseError>)
    ensures
        parse_agrees(input@, res, spec_take(input@, N as nat), |a: [u8; N]| a@),
{
    let (rest, head) = take(input, N)?;
    Ok((rest, array_from_slice::<N>(head)))
}

pub const CID_LENGTH: usize = 32;

pub const PERMANENT_ID_LENGTH: usize = 16;

pub const ACTOR_ID_LENGTH: usize = 32;

pub const FILESYSTEM_ID_LENGTH: usize = 16;

/// Content identifier: the 32 byte BLAKE3 digest of some data.
#[derive(Clone, Copy, Debug, PartialEq, Eq, Hash, PartialOrd, Ord)]
pub struct Cid(pub [u8; 32]);

/// Identifier of a filesystem entry that stays the same across renames and moves.
#[derive(Clone, Copy, Debug, PartialEq, Eq, Hash, PartialOrd, Ord)]
pub struct PermanentId(pub [u8; 16]);

/// Identifier of an actor (a key holder) of a drive: a digest of its public key.
#[derive(Clone, Copy, Debug, PartialEq, Eq, Hash, PartialOrd, Ord)]
pub struct ActorId(pub [u8; 32]);

/// Random identifier of a drive.
#[derive(Clone, Copy, Debug, PartialEq, Eq, Hash)]
pub struct FilesystemId(pub [u8; 16]);

impl View for Cid {
    type V = Seq<u8>;

    open spec fn view(&self) -> Seq<u8> {
        self.0@
    }
}

impl View for PermanentId {
    type V = Seq<u8>;

    open spec fn view(&self) -> Seq<u8> {
        self.0@
    }
}

impl View for ActorId {
    type V = Seq<u8>;

    open spec fn view(&self) -> Seq<u8> {
        self.0@
    }
}

impl View for FilesystemId {
    type V = Seq<u8>;

    open spec fn view(&self) -> Seq<u8> {
        self.0@
    }
}

impl Cid {
    pub fn as_bytes(&self) -> (r: &[u8; 32])
        ensures
            r@ == self@,
    {
        &self.0
    }

    pub fn size() -> (r: usize)
        ensures
            r == CID_LENGTH,
    {
        CID_LENGTH
    }

    pub fn parse(input: &[u8]) -> (res: Result<(&[u8], Cid), ParseError>)
        ensures
            parse_agrees(input@, res, spec_take(input@, CID_LENGTH as nat), |c: Cid| c@),
    {
        let (rest, bytes) = parse_array::<32>(input)?;
        Ok((rest, Cid(bytes)))
    }

    pub fn encode(&self, out: &mut Vec<u8>)
        ensures
            final(out)@ == old(out)@ + self@,
    {
        put_bytes(out, self.0.as_slice());
    }

    pub fn equals(&self, other: &Cid) -> (r: bool)
        ensures
            r == (self@ == other@),
    {
        bytes_eq(self.0.as_slice(), other.0.as_slice())
    }

    pub fn less_than(&self, other: &Cid) -> (r: bool)
        ensures
            r == seq_lt(self@, other@),
    {
        bytes_lt(self.0.as_slice(), other.0.as_slice())
    }
}

impl PermanentId {
    pub fn size() -> (r: usize)
        ensures
            r == PERMANENT_ID_LENGTH,
    {
        PERMANENT_ID_LENGTH
    }

    pub fn as_bytes(&self) -> (r: &[u8; 16])
        ensures
            r@ == self@,
    {
        &self.0
    }

    pub fn parse(input: &[u8]) -> (res: Result<(&[u8], PermanentId), ParseError>)
        ensures
            parse_agrees(input@, res, spec_take(input@, PERMANENT_ID_LENGTH as nat), |c: PermanentId| c@),
    {
        let (rest, bytes) = parse_array::<16>(input)?;
        Ok((rest, PermanentId(bytes)))
    }

    pub fn encode(&self, out: &mut Vec<u8>)
        ensures
            final(out)@ == old(out)@ + self@,
    {
        put_bytes(out, self.0.as_slice());
    }

    /// A fresh random permanent ID.
    pub fn generate(rng: &mut rand_chacha::ChaCha20Rng) -> (r: PermanentId) {
        PermanentId(crate::codec::crypto::random_bytes_16(rng))
    }

    pub fn equals(&self, other: &PermanentId) -> (r: bool)
        ensures
            r == (self@ == other@),
    {
        bytes_eq(self.0.as_slice(), other.0.as_slice())
    }

    pub fn less_than(&self, other: &PermanentId) -> (r: bool)
        ensures
            r == seq_lt(self@, other@),
    {
        bytes_lt(self.0.as_slice(), other.0.as_slice())
    }
}

impl ActorId {
    pub fn size() -> (r: usize)
        ensures
            r == ACTOR_ID_LENGTH,
    {
        ACTOR_ID_LENGTH
    }

    pub fn parse(input: &[u8]) -> (res: Result<(&[u8], ActorId), ParseError>)
        ensures
            parse_agrees(input@, res, spec_take(input@, ACTOR_ID_LENGTH as nat), |c: ActorId| c@),
    {
        let (rest, bytes) = parse_array::<32>(input)?;
        Ok((rest, ActorId(bytes)))
    }

    pub fn encode(&self, out: &mut Vec<u8>)
        ensures
            final(out)@ == old(out)@ + self@,
    {
        put_bytes(out, self.0.as_slice());
    }

    pub fn equals(&self, other: &ActorId) -> (r: bool)
        ensures
            r == (self@ == other@),
    {
        bytes_eq(self.0.as_slice(), other.0.as_slice())
    }

    pub fn less_than(&self, other: &ActorId) -> (r: bool)
        ensures
            r == seq_lt(self@, other@),
    {
        bytes_lt(self.0.as_slice(), other.0.as_slice())
    }
}

impl FilesystemId {
    /// A fresh random filesystem ID.
    pub fn generate(rng: &mut rand_chacha::ChaCha20Rng) -> (r: FilesystemId) {
        FilesystemId(crate::codec::crypto::random_bytes_16(rng))
    }

    pub fn parse(input: &[u8]) -> (res: Result<(&[u8], FilesystemId), ParseError>)
        ensures
            parse_agrees(input@, res, spec_take(input@, FILESYSTEM_ID_LENGTH as nat), |c: FilesystemId| c@),
    {
        let (rest, bytes) = parse_array::<16>(input)?;
        Ok((rest, FilesystemId(bytes)))
    }

    pub fn encode(&self, out: &mut Vec<u8>)
        ensures
            final(out)@ == old(out)@ + self@,
    {
        put_bytes(out, self.0.as_slice());
    }
}

} // verus!
