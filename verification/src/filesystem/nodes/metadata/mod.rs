//! Attributes attached to nodes, and content sniffing for the media type of files.

pub mod mime_type;

use vstd::prelude::*;
use vstd::string::*;
use vstd::utf8::*;

use crate::codec::parser::ErrorKind;
use crate::codec::text::{string_bytes, string_from_utf8};

verus! {

broadcast use vstd::seq::group_seq_axioms, vstd::slice::group_slice_axioms;

/// The key of a metadata entry: the well known media type key, or any other key.
#[derive(Debug, Hash)]
pub enum MetadataKey {
    MimeType,
    Custom(String),
}

pub enum MetadataKeyView {
    MimeType,
    Custom(Seq<char>),
}

impl View for MetadataKey {
    type V = MetadataKeyView;

    open spec fn view(&self) -> MetadataKeyView {
        match self {
            MetadataKey::MimeType => MetadataKeyView::MimeType,
            MetadataKey::Custom(s) => MetadataKeyView::Custom(s@),
        }
    }
}

/// The bytes of `mime`, the key under which the media type is stored.
pub open spec fn mime_key_bytes() -> Seq<u8> {
    seq![0x6du8, 0x69u8, 0x6du8, 0x65u8]
}

pub open spec fn mime_key_chars() -> Seq<char> {
    seq!['m', 'i', 'm', 'e']
}

/// The bytes of a key as stored.
pub open spec fn spec_key_bytes(k: MetadataKeyView) -> Seq<u8> {
    match k {
        MetadataKeyView::MimeType => mime_key_bytes(),
        MetadataKeyView::Custom(c) => encode_utf8(c),
    }
}

/// Reading a stored key: `mime` is the media type key; other keys must be at most 255 bytes
/// of valid UTF-8.
pub open spec fn spec_key_from_bytes(b: Seq<u8>) -> Option<MetadataKeyView> {
    if b == mime_key_bytes() {
        Some(MetadataKeyView::MimeType)
    } else if b.len() > 255 {
        None
    } else if valid_utf8(b) {
        Some(MetadataKeyView::Custom(decode_utf8(b)))
    } else {
        None
    }
}

fn is_mime_key(b: &[u8]) -> (r: bool)
    ensures
        r == (b@ == mime_key_bytes()),
{
    let r = b.len() == 4 && b[0] == 0x6d && b[1] == 0x69 && b[2] == 0x6d && b[3] == 0x65;
    proof {
        if r {
            assert(b@ =~= mime_key_bytes());
        } else if b@ == mime_key_bytes() {
            assert(b@[0] == 0x6d && b@[1] == 0x69 && b@[2] == 0x6d && b@[3] == 0x65);
        }
    }
    r
}

impl MetadataKey {
    pub fn as_str(&self) -> (r: &str)
        ensures
            match self@ {
                MetadataKeyView::MimeType => r@ == mime_key_chars(),
                MetadataKeyView::Custom(c) => r@ == c,
            },
    {
        match self {
            MetadataKey::MimeType => {
                let r = "mime";
                proof {
                    reveal_strlit("mime");
                }
                assert(r@ =~= mime_key_chars());
                r
            },
            MetadataKey::Custom(s) => s.as_str(),
        }
    }

    pub fn as_bytes(&self) -> (r: Vec<u8>)
        ensures
            r@ == spec_key_bytes(self@),
    {
        match self {
            MetadataKey::MimeType => {
                let v: Vec<u8> = vec![0x6du8, 0x69, 0x6d, 0x65];
                assert(v@ =~= mime_key_bytes());
                v
            },
            MetadataKey::Custom(s) => string_bytes(s),
        }
    }

    pub fn from_bytes(key: &[u8]) -> (r: Option<MetadataKey>)
        ensures
            match spec_key_from_bytes(key@) {
                Some(k) => r matches Some(m) && m@ == k,
                None => r is None,
            },
    {
        if is_mime_key(key) {
            return Some(MetadataKey::MimeType);
        }
        if key.len() > 255 {
            return None;
        }
        match string_from_utf8(key) {
            Some(s) => Some(MetadataKey::Custom(s)),
            None => None,
        }
    }

    /// Reads a key from text: `mime` is the media type key, other keys are at most 255 bytes.
    pub fn parse_str(s: &str) -> (r: Result<MetadataKey, ErrorKind>)
        ensures
            s.spec_bytes() == mime_key_bytes() ==> (r matches Ok(k) && k@ is MimeType),
            s.spec_bytes() != mime_key_bytes() && s.spec_bytes().len() > 255 ==> r == Err::<MetadataKey, ErrorKind>(ErrorKind::Verify),
            s.spec_bytes() != mime_key_bytes() && s.spec_bytes().len() <= 255 ==> (r matches Ok(k) && k@ == MetadataKeyView::Custom(s@)),
    {
        let bytes = s.as_bytes_vec();
        if is_mime_key(bytes.as_slice()) {
            return Ok(MetadataKey::MimeType);
        }
        if bytes.len() > 255 {
            return Err(ErrorKind::Verify);
        }
        Ok(MetadataKey::Custom(String::from_str(s)))
    }
}

impl core::str::FromStr for MetadataKey {
    type Err = ErrorKind;

    fn from_str(s: &str) -> (r: Result<MetadataKey, ErrorKind>)
        ensures
            s.spec_bytes() == mime_key_bytes() ==> (r matches Ok(k) && k@ is MimeType),
            s.spec_bytes() != mime_key_bytes() && s.spec_bytes().len() > 255 ==> r == Err::<MetadataKey, ErrorKind>(ErrorKind::Verify),
            s.spec_bytes() != mime_key_bytes() && s.spec_bytes().len() <= 255 ==> (r matches Ok(k) && k@ == MetadataKeyView::Custom(s@)),
    {
        MetadataKey::parse_str(s)
    }
}

} // verus!
