use vstd::prelude::*;

use crate::codec::parser::{le_u8, parse_agrees, take, ErrorKind, ParseError, Parsed};

verus! {

broadcast use vstd::seq::group_seq_axioms, vstd::slice::group_slice_axioms;

pub const BLOCK_KIND_DATA: u8 = 0x00;

pub const BLOCK_KIND_INDIRECT: u8 = 0x01;

/// What a referenced block holds: file data, or a list of further references.
#[derive(Debug, Clone, Copy, PartialEq, Eq, Structural)]
pub enum BlockKind {
    Data,
    IndirectReference,
}

pub open spec fn spec_block_kind_byte(k: BlockKind) -> u8 {
    match k {
        BlockKind::Data => BLOCK_KIND_DATA,
        BlockKind::IndirectReference => BLOCK_KIND_INDIRECT,
    }
}

pub open spec fn spec_parse_block_kind(s: Seq<u8>) -> Parsed<BlockKind> {
    if s.len() < 1 {
        Parsed::Incomplete
    } else if s[0] == BLOCK_KIND_DATA {
        Parsed::Done(1, BlockKind::Data)
    } else if s[0] == BLOCK_KIND_INDIRECT {
        Parsed::Done(1, BlockKind::IndirectReference)
    } else {
        Parsed::Invalid
    }
}

impl BlockKind {
    pub fn size(&self) -> (r: usize)
        ensures
            r == 1,
    {
        1
    }

    pub fn encode(&self, out: &mut Vec<u8>)
        ensures
            final(out)@ == old(out)@.push(spec_block_kind_byte(*self)),
    {
        match self {
            BlockKind::Data => out.push(BLOCK_KIND_DATA),
            BlockKind::IndirectReference => out.push(BLOCK_KIND_INDIRECT),
        }
    }

    pub fn parse(input: &[u8]) -> (res: Result<(&[u8], BlockKind), ParseError>)
        ensures
            parse_agrees(input@, res, spec_parse_block_kind(input@), |k: BlockKind| k),
    {
        let (rest, b) = le_u8(input)?;
        if b == BLOCK_KIND_DATA {
            Ok((rest, BlockKind::Data))
        } else if b == BLOCK_KIND_INDIRECT {
            Ok((rest, BlockKind::IndirectReference))
        } else {
            Err(ParseError::Invalid(ErrorKind::Tag))
        }
    }
}

/// The geometry of a data block: its total space is `2^block_power` bytes, cut into chunks of
/// `2^chunk_power` bytes. A chunk is never larger than its block.
#[derive(Debug, Clone, Copy, PartialEq, Eq, Structural)]
pub struct BlockSize {
    pub block_power: u8,
    pub chunk_power: u8,
}

pub open spec fn spec_block_size_valid(b: BlockSize) -> bool {
    b.chunk_power <= b.block_power
}

pub open spec fn spec_encode_block_size(b: BlockSize) -> Seq<u8> {
    seq![b.block_power, b.chunk_power]
}

pub open spec fn spec_parse_block_size(s: Seq<u8>) -> Parsed<BlockSize> {
    if s.len() < 2 {
        Parsed::Incomplete
    } else if s[1] > s[0] {
        Parsed::Invalid
    } else {
        Parsed::Done(2, BlockSize { block_power: s[0], chunk_power: s[1] })
    }
}

impl BlockSize {
    pub fn size() -> (r: usize)
        ensures
            r == 2,
    {
        2
    }

    pub fn encode(&self, out: &mut Vec<u8>)
        ensures
            final(out)@ == old(out)@ + spec_encode_block_size(*self),
    {
        out.push(self.block_power);
        out.push(self.chunk_power);
        assert(out@ =~= old(out)@ + spec_encode_block_size(*self));
    }

    pub fn parse(input: &[u8]) -> (res: Result<(&[u8], BlockSize), ParseError>)
        ensures
            parse_agrees(input@, res, spec_parse_block_size(input@), |b: BlockSize| b),
    {
        let (rest, bytes) = take(input, 2)?;
        if bytes[1] > bytes[0] {
            return Err(ParseError::Invalid(ErrorKind::Verify));
        }
        Ok((rest, BlockSize { block_power: bytes[0], chunk_power: bytes[1] }))
    }
}

} // verus!
