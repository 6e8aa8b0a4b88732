use vstd::prelude::*;
use vstd::string::*;
use vstd::utf8::*;

use crate::codec::parser::{le_u8, parse_agrees, take, ErrorKind, ParseError, Parsed};
use crate::codec::text::{str_byte_len, string_bytes, string_from_utf8};

verus! {

broadcast use vstd::seq::group_seq_axioms, vstd::slice::group_slice_axioms;

pub const NAME_TYPE_ROOT_ID: u8 = 0x00;

pub const NAME_TYPE_NAMED_ID: u8 = 0x01;

/// The name of a node: the root directory has no name of its own, every other node has one.
#[derive(Debug, Hash)]
pub enum NodeName {
    Root,
    Named(String),
}

/// The mathematical value of a [`NodeName`].
pub enum NodeNameView {
    Root,
    Named(Seq<char>),
}

impl View for NodeName {
    type V = NodeNameView;

    open spec fn view(&self) -> NodeNameView {
        match self {
            NodeName::Root => NodeNameView::Root,
            NodeName::Named(s) => NodeNameView::Named(s@),
        }
    }
}

/// Reasons a string can not name a node.
#[derive(Debug, Clone, Copy, PartialEq, Eq, Structural)]
pub enum NodeNameError {
    ContainsSlash,
    Empty,
    ReservedRoot,
    ReservedDirectoryTraversal,
    TooLong(usize),
}

/// The bytes `{:root:}`, the text reserved for the root in listings.
pub open spec fn root_marker_bytes() -> Seq<u8> {
    seq![0x7bu8, 0x3au8, 0x72u8, 0x6fu8, 0x6fu8, 0x74u8, 0x3au8, 0x7du8]
}

pub open spec fn root_marker_chars() -> Seq<char> {
    seq!['{', ':', 'r', 'o', 'o', 't', ':', '}']
}

/// Which rule, if any, a candidate name breaks, checked in this order: it must not be empty,
/// be at most 255 bytes of UTF-8, be neither `.` nor `..`, not be `{:root:}` and hold no `/`.
pub open spec fn spec_name_error(name: Seq<char>) -> Option<NodeNameError> {
    let b = encode_utf8(name);
    if b.len() == 0 {
        Some(NodeNameError::Empty)
    } else if b.len() > 255 {
        Some(NodeNameError::TooLong(b.len() as usize))
    } else if b == seq![0x2eu8] || b == seq![0x2eu8, 0x2eu8] {
        Some(NodeNameError::ReservedDirectoryTraversal)
    } else if b == root_marker_bytes() {
        Some(NodeNameError::ReservedRoot)
    } else if b.contains(0x2fu8) {
        Some(NodeNameError::ContainsSlash)
    } else {
        None
    }
}

/// The encoded form of a name: a type byte, then for named nodes a length byte and the UTF-8
/// bytes of the name.
pub open spec fn spec_encode_name(n: NodeNameView) -> Seq<u8> {
    match n {
        NodeNameView::Root => seq![NAME_TYPE_ROOT_ID],
        NodeNameView::Named(c) => seq![NAME_TYPE_NAMED_ID, encode_utf8(c).len() as u8] + encode_utf8(c),
    }
}

/// A name can be encoded when its UTF-8 form fits the one byte length field.
pub open spec fn spec_name_encodable(n: NodeNameView) -> bool {
    match n {
        NodeNameView::Root => true,
        NodeNameView::Named(c) => encode_utf8(c).len() <= 255,
    }
}

pub open spec fn spec_parse_name(s: Seq<u8>) -> Parsed<NodeNameView> {
    if s.len() < 1 {
        Parsed::Incomplete
    } else if s[0] == NAME_TYPE_ROOT_ID {
        Parsed::Done(1, NodeNameView::Root)
    } else if s[0] == NAME_TYPE_NAMED_ID {
        if s.len() < 2 {
            Parsed::Incomplete
        } else if s.len() < 2 + s[1] {
            Parsed::Incomplete
        } else if valid_utf8(s.subrange(2, 2 + s[1])) {
            Parsed::Done((2 + s[1]) as nat, NodeNameView::Named(decode_utf8(s.subrange(2, 2 + s[1]))))
        } else {
            Parsed::Invalid
        }
    } else {
        Parsed::Invalid
    }
}

/// The number of bytes of the encoded name.
pub open spec fn spec_name_size(n: NodeNameView) -> nat {
    match n {
        NodeNameView::Root => 1,
        NodeNameView::Named(c) => 2 + encode_utf8(c).len(),
    }
}

impl Clone for NodeName {
    fn clone(&self) -> (r: Self)
        ensures
            r@ == self@,
    {
        match self {
            NodeName::Root => NodeName::Root,
            NodeName::Named(s) => NodeName::Named(s.clone()),
        }
    }
}

impl NodeName {
    /// The text of the name; the root reads as `{:root:}`.
    pub fn as_str(&self) -> (r: &str)
        ensures
            match self@ {
                NodeNameView::Root => r@ == root_marker_chars(),
                NodeNameView::Named(c) => r@ == c,
            },
    {
        match self {
            NodeName::Root => {
                let r = "{:root:}";
                proof {
                    reveal_strlit("{:root:}");
                }
                assert(r@ =~= root_marker_chars());
                r
            },
            NodeName::Named(name) => name.as_str(),
        }
    }

    pub fn root() -> (r: NodeName)
        ensures
            r@ == NodeNameView::Root,
    {
        NodeName::Root
    }

    pub fn is_root(&self) -> (r: bool)
        ensures
            r == (self@ is Root),
    {
        matches!(self, NodeName::Root)
    }

    /// Validates `name` and wraps it as the name of a node.
    pub fn named(name: String) -> (r: Result<NodeName, NodeNameError>)
        ensures
            match spec_name_error(name@) {
                Some(e) => r == Err::<NodeName, NodeNameError>(e),
                None => r matches Ok(n) && n@ == NodeNameView::Named(name@),
            },
    {
        let bytes = string_bytes(&name);
        let len = bytes.len();
        if len == 0 {
            return Err(NodeNameError::Empty);
        }
        if len > 255 {
            return Err(NodeNameError::TooLong(len));
        }
        if (len == 1 && bytes[0] == 0x2e) || (len == 2 && bytes[0] == 0x2e && bytes[1] == 0x2e) {
            assert(len == 1 ==> bytes@ =~= seq![0x2eu8]);
            assert(len == 2 ==> bytes@ =~= seq![0x2eu8, 0x2eu8]);
            return Err(NodeNameError::ReservedDirectoryTraversal);
        }
        assert(bytes@ != seq![0x2eu8] && bytes@ != seq![0x2eu8, 0x2eu8]) by {
            if bytes@ == seq![0x2eu8] {
                assert(bytes@[0] == 0x2e);
            }
            if bytes@ == seq![0x2eu8, 0x2eu8] {
                assert(bytes@[0] == 0x2e && bytes@[1] == 0x2e);
            }
        }
        if len == 8 && bytes[0] == 0x7b && bytes[1] == 0x3a && bytes[2] == 0x72 && bytes[3] == 0x6f
            && bytes[4] == 0x6f && bytes[5] == 0x74 && bytes[6] == 0x3a && bytes[7] == 0x7d {
            assert(bytes@ =~= root_marker_bytes());
            return Err(NodeNameError::ReservedRoot);
        }
        assert(bytes@ != root_marker_bytes()) by {
            if bytes@ == root_marker_bytes() {
                assert(bytes@[0] == 0x7b && bytes@[1] == 0x3a && bytes@[2] == 0x72 && bytes@[3] == 0x6f);
                assert(bytes@[4] == 0x6f && bytes@[5] == 0x74 && bytes@[6] == 0x3a && bytes@[7] == 0x7d);
            }
        }
        let mut i: usize = 0;
        while i < len
            invariant
                i <= len,
                len == bytes@.len(),
                bytes@ == encode_utf8(name@),
                0 < len <= 255,
                bytes@ != seq![0x2eu8] && bytes@ != seq![0x2eu8, 0x2eu8],
                bytes@ != root_marker_bytes(),
                forall|j: int| 0 <= j < i ==> bytes@[j] != 0x2fu8,
            decreases len - i,
        {
            if bytes[i] == 0x2f {
                assert(bytes@.contains(0x2fu8));
                return Err(NodeNameError::ContainsSlash);
            }
            i = i + 1;
        }
        assert(!bytes@.contains(0x2fu8));
        Ok(NodeName::Named(name))
    }

    /// The number of bytes this name takes once encoded.
    pub fn size(&self) -> (r: usize)
        requires
            spec_name_size(self@) <= usize::MAX,
        ensures
            r == spec_name_size(self@),
            spec_name_encodable(self@) ==> r == spec_encode_name(self@).len(),
    {
        match self {
            NodeName::Root => 1,
            NodeName::Named(name) => 2 + str_byte_len(name.as_str()),
        }
    }

    /// Appends the encoding of this name. Names longer than 255 bytes can not be encoded and
    /// leave the output untouched.
    pub fn encode(&self, out: &mut Vec<u8>) -> (r: Result<usize, NodeNameError>)
        ensures
            spec_name_encodable(self@) ==> r == Ok::<usize, NodeNameError>(spec_encode_name(self@).len() as usize)
                && final(out)@ == old(out)@ + spec_encode_name(self@),
            !spec_name_encodable(self@) ==> final(out)@ == old(out)@ && (self@ matches NodeNameView::Named(c)
                && r == Err::<usize, NodeNameError>(NodeNameError::TooLong(encode_utf8(c).len() as usize))),
    {
        match self {
            NodeName::Root => {
                out.push(NAME_TYPE_ROOT_ID);
                assert(out@ =~= old(out)@ + spec_encode_name(self@));
                Ok(1)
            },
            NodeName::Named(name) => {
                let bytes = string_bytes(name);
                let len = bytes.len();
                if len > 255 {
                    return Err(NodeNameError::TooLong(len));
                }
                let ghost start = out@;
                out.push(NAME_TYPE_NAMED_ID);
                out.push(len as u8);
                crate::codec::parser::put_bytes(out, bytes.as_slice());
                assert(out@ =~= start + spec_encode_name(self@));
                Ok(2 + len)
            },
        }
    }

    /// Parses an encoded name from the front of `input`.
    pub fn parse(input: &[u8]) -> (res: Result<(&[u8], NodeName), ParseError>)
        ensures
            parse_agrees(input@, res, spec_parse_name(input@), |n: NodeName| n@),
    {
        let (rest, name_type) = le_u8(input)?;
        if name_type == NAME_TYPE_ROOT_ID {
            return Ok((rest, NodeName::Root));
        }
        if name_type != NAME_TYPE_NAMED_ID {
            return Err(ParseError::Invalid(ErrorKind::Verify));
        }
        let (rest, name_length) = le_u8(rest)?;
        let (rest, name_bytes) = take(rest, name_length as usize)?;
        assert(name_bytes@ =~= input@.subrange(2, 2 + input@[1]));
        assert(rest@ =~= input@.skip(2 + input@[1]));
        match string_from_utf8(name_bytes) {
            Some(name) => Ok((rest, NodeName::Named(name))),
            None => Err(ParseError::Invalid(ErrorKind::Verify)),
        }
    }
}

/// Reading back an encoded name yields the same name, and consumes exactly its encoding,
/// whatever follows it.
pub proof fn lemma_name_roundtrip(n: NodeNameView, rest: Seq<u8>)
    requires
        spec_name_encodable(n),
    ensures
        spec_parse_name(spec_encode_name(n) + rest) == Parsed::Done(spec_encode_name(n).len(), n),
        spec_name_size(n) == spec_encode_name(n).len(),
{
    let s = spec_encode_name(n) + rest;
    match n {
        NodeNameView::Root => {},
        NodeNameView::Named(c) => {
            let b = encode_utf8(c);
            assert(s[1] == b.len() as u8);
            assert(s.subrange(2, 2 + s[1]) =~= b);
            encode_utf8_valid_utf8(c);
            encode_utf8_decode_utf8(c);
        },
    }
}


/// Names up to 255 bytes are accepted: every name whose UTF-8 form is not empty, at most 255
/// bytes long, neither `.` nor `..` nor `{:root:}`, and free of `/` is valid; a name is refused
/// as too long exactly when its UTF-8 form is longer than 255 bytes, and the refusal carries
/// that length.
pub proof fn lemma_name_rules(name: Seq<char>)
    ensures
        ({
            let b = encode_utf8(name);
            &&& 0 < b.len() <= 255
            &&& b != seq![0x2eu8]
            &&& b != seq![0x2eu8, 0x2eu8]
            &&& b != seq![0x7bu8, 0x3au8, 0x72u8, 0x6fu8, 0x6fu8, 0x74u8, 0x3au8, 0x7du8]
            &&& !b.contains(0x2fu8)
        }) ==> spec_name_error(name) is None,
        spec_name_error(name) matches Some(NodeNameError::TooLong(n)) ==> encode_utf8(name).len() > 255,
        encode_utf8(name).len() <= usize::MAX ==> (spec_name_error(name) matches Some(NodeNameError::TooLong(n)) ==> n
            == encode_utf8(name).len()),
        encode_utf8(name).len() > 255 ==> spec_name_error(name) matches Some(NodeNameError::TooLong(_)),
{
    assert(root_marker_bytes() =~= seq![0x7bu8, 0x3au8, 0x72u8, 0x6fu8, 0x6fu8, 0x74u8, 0x3au8, 0x7du8]);
}


/// Each refusal of a name has its own cause: an empty name is refused as empty, `.` and `..` as
/// directory traversal, `{:root:}` as reserved for the root, and a name of at most 255 bytes
/// holding a `/` as containing a slash.
pub proof fn lemma_name_refusals(name: Seq<char>)
    ensures
        encode_utf8(name).len() == 0 <==> spec_name_error(name) == Some(NodeNameError::Empty),
        (encode_utf8(name) == seq![0x2eu8] || encode_utf8(name) == seq![0x2eu8, 0x2eu8]) <==> spec_name_error(name) == Some(
            NodeNameError::ReservedDirectoryTraversal,
        ),
        encode_utf8(name) == seq![0x7bu8, 0x3au8, 0x72u8, 0x6fu8, 0x6fu8, 0x74u8, 0x3au8, 0x7du8] <==> spec_name_error(name)
            == Some(NodeNameError::ReservedRoot),
        (encode_utf8(name).len() <= 255 && encode_utf8(name).contains(0x2fu8)) ==> spec_name_error(name) == Some(
            NodeNameError::ContainsSlash,
        ),
        spec_name_error(name) == Some(NodeNameError::ContainsSlash) ==> encode_utf8(name).contains(0x2fu8),
{
    let b = encode_utf8(name);
    assert(root_marker_bytes() =~= seq![0x7bu8, 0x3au8, 0x72u8, 0x6fu8, 0x6fu8, 0x74u8, 0x3au8, 0x7du8]);
    if b.contains(0x2fu8) {
        let k = choose|k: int| 0 <= k < b.len() && b[k] == 0x2fu8;
        assert(b != seq![0x2eu8] && b != seq![0x2eu8, 0x2eu8]) by {
            if b == seq![0x2eu8] || b == seq![0x2eu8, 0x2eu8] {
                assert(b[k] == 0x2eu8);
            }
        }
        assert(b != root_marker_bytes()) by {
            if b == root_marker_bytes() {
                assert(b[k] != 0x2fu8);
            }
        }
    }
}

} // verus!
