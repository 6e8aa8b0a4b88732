use vstd::prelude::*;

use crate::codec::parser::{le_u8, parse_agrees, ErrorKind, ParseError, Parsed};

verus! {

/// The kind of a node, the first byte of its data.
#[derive(Debug, Clone, Copy, PartialEq, Eq, Structural)]
pub enum NodeKind {
    File,
    AssociatedData,
    Directory,
}

pub const NODE_KIND_FILE: u8 = 0x00;

pub const NODE_KIND_ASSOCIATED_DATA: u8 = 0x01;

pub const NODE_KIND_DIRECTORY: u8 = 0x02;

pub open spec fn spec_node_kind_byte(k: NodeKind) -> u8 {
    match k {
        NodeKind::File => NODE_KIND_FILE,
        NodeKind::AssociatedData => NODE_KIND_ASSOCIATED_DATA,
        NodeKind::Directory => NODE_KIND_DIRECTORY,
    }
}

pub open spec fn spec_parse_node_kind(s: Seq<u8>) -> Parsed<NodeKind> {
    if s.len() < 1 {
        Parsed::Incomplete
    } else if s[0] == NODE_KIND_FILE {
        Parsed::Done(1, NodeKind::File)
    } else if s[0] == NODE_KIND_ASSOCIATED_DATA {
        Parsed::Done(1, NodeKind::AssociatedData)
    } else if s[0] == NODE_KIND_DIRECTORY {
        Parsed::Done(1, NodeKind::Directory)
    } else {
        Parsed::Invalid
    }
}

impl NodeKind {
    pub fn encode(&self, out: &mut Vec<u8>) -> (r: usize)
        ensures
            final(out)@ == old(out)@.push(spec_node_kind_byte(*self)),
            r == 1,
    {
        let b = match self {
            NodeKind::File => NODE_KIND_FILE,
            NodeKind::AssociatedData => NODE_KIND_ASSOCIATED_DATA,
            NodeKind::Directory => NODE_KIND_DIRECTORY,
        };
        out.push(b);
        1
    }

    pub fn parse(input: &[u8]) -> (res: Result<(&[u8], NodeKind), ParseError>)
        ensures
            parse_agrees(input@, res, spec_parse_node_kind(input@), |k: NodeKind| k),
    {
        let (rest, b) = le_u8(input)?;
        if b == NODE_KIND_FILE {
            Ok((rest, NodeKind::File))
        } else if b == NODE_KIND_ASSOCIATED_DATA {
            Ok((rest, NodeKind::AssociatedData))
        } else if b == NODE_KIND_DIRECTORY {
            Ok((rest, NodeKind::Directory))
        } else {
            Err(ParseError::Invalid(ErrorKind::Tag))
        }
    }
}

/// Reading back an encoded kind gives the same kind.
pub proof fn lemma_node_kind_roundtrip(k: NodeKind, rest: Seq<u8>)
    ensures
        spec_parse_node_kind(seq![spec_node_kind_byte(k)] + rest) == Parsed::Done(1, k),
{
}

} // verus!
