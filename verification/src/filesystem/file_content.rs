use vstd::bytes::*;
use vstd::prelude::*;

use crate::codec::crypto::{
    lemma_locked_key_roundtrip, spec_encode_locked_key, spec_locked_key_wf, spec_parse_locked_key,
    SymLockedAccessKey, SymLockedAccessKeyView,
};
use crate::codec::ids::{Cid, CID_LENGTH};
use crate::codec::parser::{
    lemma_concat_push, lemma_le_roundtrips, lemma_repeat_roundtrip, le_u64, le_u8, parse_agrees,
    put_u64, spec_concat_encodings, spec_le_u64, spec_repeat, EncodingError, ErrorKind, ParseError,
    Parsed,
};
use crate::filesystem::content_reference::{
    lemma_reference_roundtrip, reference_encoder, reference_parser, reference_wf, references_view,
    spec_encode_reference, spec_parse_reference, spec_reference_wf, ContentReference,
    ContentReferenceView,
};

verus! {

broadcast use vstd::seq::group_seq_axioms, vstd::slice::group_slice_axioms, vstd::array::group_array_axioms;

pub const FILE_CONTENT_TYPE_STUB: u8 = 0x01;

pub const FILE_CONTENT_TYPE_PUBLIC: u8 = 0x02;

pub const FILE_CONTENT_TYPE_ENCRYPTED: u8 = 0x03;

pub const FILE_CONTENT_TYPE_EMPTY: u8 = 0x04;

/// The content of a file: encrypted or public data stored in blocks, a stub that only knows the
/// size of data not yet stored, or an empty file.
#[derive(Debug)]
pub enum FileContent {
    Encrypted { locked_access_key: SymLockedAccessKey, cid: Cid, data_size: u64, content: Vec<ContentReference> },
    Public { cid: Cid, data_size: u64, content: Vec<ContentReference> },
    Stub { data_size: u64 },
    EmptyFile,
}

pub enum FileContentView {
    Encrypted {
        locked_access_key: SymLockedAccessKeyView,
        cid: Seq<u8>,
        data_size: u64,
        content: Seq<ContentReferenceView>,
    },
    Public { cid: Seq<u8>, data_size: u64, content: Seq<ContentReferenceView> },
    Stub { data_size: u64 },
    EmptyFile,
}

impl View for FileContent {
    type V = FileContentView;

    open spec fn view(&self) -> FileContentView {
        match self {
            FileContent::Encrypted { locked_access_key, cid, data_size, content } => FileContentView::Encrypted {
                locked_access_key: locked_access_key@,
                cid: cid@,
                data_size: *data_size,
                content: references_view(content@),
            },
            FileContent::Public { cid, data_size, content } => FileContentView::Public {
                cid: cid@,
                data_size: *data_size,
                content: references_view(content@),
            },
            FileContent::Stub { data_size } => FileContentView::Stub { data_size: *data_size },
            FileContent::EmptyFile => FileContentView::EmptyFile,
        }
    }
}

/// Why file content can not answer a request.
#[derive(Debug, Clone, Copy, PartialEq, Eq, Structural)]
pub enum FileContentError {
    /// The content holds no data references (a stub or an empty file).
    NoContent,
    /// A key was requested from content that is not encrypted.
    NotEncrypted,
}

pub open spec fn spec_references_encode(refs: Seq<ContentReferenceView>) -> Seq<u8> {
    seq![refs.len() as u8] + spec_concat_encodings(refs, reference_encoder())
}

pub open spec fn spec_encode_file_content(c: FileContentView) -> Seq<u8> {
    match c {
        FileContentView::Stub { data_size } => seq![FILE_CONTENT_TYPE_STUB] + spec_u64_to_le_bytes(data_size),
        FileContentView::Public { cid, data_size, content } => seq![FILE_CONTENT_TYPE_PUBLIC] + cid
            + spec_u64_to_le_bytes(data_size) + spec_references_encode(content),
        FileContentView::Encrypted { locked_access_key, cid, data_size, content } => seq![
            FILE_CONTENT_TYPE_ENCRYPTED,
        ] + cid + spec_u64_to_le_bytes(data_size) + spec_encode_locked_key(locked_access_key)
            + spec_references_encode(content),
        FileContentView::EmptyFile => seq![FILE_CONTENT_TYPE_EMPTY],
    }
}

pub open spec fn spec_content_references(c: FileContentView) -> Seq<ContentReferenceView> {
    match c {
        FileContentView::Public { content, .. } => content,
        FileContentView::Encrypted { content, .. } => content,
        _ => Seq::empty(),
    }
}

/// The content can be encoded when its reference count fits a byte and each reference's chunk
/// count fits 16 bits.
pub open spec fn spec_file_content_encodable(c: FileContentView) -> bool {
    &&& spec_content_references(c).len() <= u8::MAX
    &&& forall|i: int| 0 <= i < spec_content_references(c).len() ==> #[trigger] spec_content_references(c)[i].chunks.len() <= u16::MAX
}

pub open spec fn spec_file_content_wf(c: FileContentView) -> bool {
    &&& spec_file_content_encodable(c)
    &&& forall|i: int| 0 <= i < spec_content_references(c).len() ==> #[trigger] spec_reference_wf(spec_content_references(c)[i])
    &&& match c {
        FileContentView::Public { cid, .. } => cid.len() == CID_LENGTH,
        FileContentView::Encrypted { cid, locked_access_key, .. } => cid.len() == CID_LENGTH && spec_locked_key_wf(locked_access_key),
        _ => true,
    }
}

/// Parses a one byte reference count and that many content references.
pub open spec fn spec_parse_references(s: Seq<u8>) -> Parsed<Seq<ContentReferenceView>> {
    if s.len() < 1 {
        Parsed::Incomplete
    } else {
        match spec_repeat(s.skip(1), s[0] as nat, reference_parser()) {
            Parsed::Done(n, refs) => Parsed::Done(1 + n, refs),
            Parsed::Incomplete => Parsed::Incomplete,
            Parsed::Invalid => Parsed::Invalid,
        }
    }
}

pub open spec fn spec_parse_file_content(s: Seq<u8>) -> Parsed<FileContentView> {
    if s.len() < 1 {
        Parsed::Incomplete
    } else if s[0] == FILE_CONTENT_TYPE_STUB {
        match spec_le_u64(s.skip(1)) {
            Parsed::Done(_, data_size) => Parsed::Done(9, FileContentView::Stub { data_size }),
            _ => Parsed::Incomplete,
        }
    } else if s[0] == FILE_CONTENT_TYPE_PUBLIC {
        if s.len() < 41 {
            Parsed::Incomplete
        } else {
            match spec_parse_references(s.skip(41)) {
                Parsed::Done(n, content) => Parsed::Done(
                    41 + n,
                    FileContentView::Public {
                        cid: s.subrange(1, 33),
                        data_size: spec_u64_from_le_bytes(s.subrange(33, 41)),
                        content,
                    },
                ),
                Parsed::Incomplete => Parsed::Incomplete,
                Parsed::Invalid => Parsed::Invalid,
            }
        }
    } else if s[0] == FILE_CONTENT_TYPE_ENCRYPTED {
        if s.len() < 113 {
            Parsed::Incomplete
        } else {
            match spec_parse_references(s.skip(113)) {
                Parsed::Done(n, content) => Parsed::Done(
                    113 + n,
                    FileContentView::Encrypted {
                        locked_access_key: SymLockedAccessKeyView {
                            nonce: s.subrange(41, 65),
                            cipher_text: s.subrange(65, 97),
                            tag: s.subrange(97, 113),
                        },
                        cid: s.subrange(1, 33),
                        data_size: spec_u64_from_le_bytes(s.subrange(33, 41)),
                        content,
                    },
                ),
                Parsed::Incomplete => Parsed::Incomplete,
                Parsed::Invalid => Parsed::Invalid,
            }
        }
    } else if s[0] == FILE_CONTENT_TYPE_EMPTY {
        Parsed::Done(1, FileContentView::EmptyFile)
    } else {
        Parsed::Invalid
    }
}

/// The first reason, in encoding order, the content can not be encoded.
pub open spec fn spec_file_content_encode_error(c: FileContentView) -> Option<EncodingError> {
    if spec_content_references(c).len() > u8::MAX {
        Some(EncodingError::TooManyContentReferences)
    } else if exists|i: int| 0 <= i < spec_content_references(c).len() && #[trigger] spec_content_references(c)[i].chunks.len() > u16::MAX {
        Some(EncodingError::TooManyChunks)
    } else {
        None
    }
}

/// The size in bytes of the file's data, as recorded.
pub open spec fn spec_file_content_size(c: FileContentView) -> u64 {
    match c {
        FileContentView::Encrypted { data_size, .. } => data_size,
        FileContentView::Public { data_size, .. } => data_size,
        FileContentView::Stub { data_size } => data_size,
        FileContentView::EmptyFile => 0,
    }
}

fn encode_content_list(out: &mut Vec<u8>, content: &Vec<ContentReference>) -> (r: Result<usize, EncodingError>)
    ensures
        old(out)@.is_prefix_of(final(out)@),
        content@.len() > u8::MAX ==> r == Err::<usize, EncodingError>(EncodingError::TooManyContentReferences),
        content@.len() <= u8::MAX && (exists|i: int| 0 <= i < content@.len() && #[trigger] references_view(content@)[i].chunks.len() > u16::MAX)
            ==> r == Err::<usize, EncodingError>(EncodingError::TooManyChunks),
        content@.len() <= u8::MAX && (forall|i: int| 0 <= i < content@.len() ==> #[trigger] references_view(content@)[i].chunks.len() <= u16::MAX)
            ==> r is Ok && final(out)@ == old(out)@ + spec_references_encode(references_view(content@))
                && r.unwrap() == spec_references_encode(references_view(content@)).len(),
{
    if content.len() > 255 {
        return Err(EncodingError::TooManyContentReferences);
    }
    let ghost start = out@;
    let start_len = out.len();
    let ghost refs = references_view(content@);
    out.push(content.len() as u8);
    let mut i: usize = 0;
    assert(refs.take(0) =~= Seq::<ContentReferenceView>::empty());
    while i < content.len()
        invariant
            i <= content@.len() <= u8::MAX,
            refs == references_view(content@),
            forall|j: int| 0 <= j < i ==> #[trigger] refs[j].chunks.len() <= u16::MAX,
            out@ == start + seq![content@.len() as u8] + spec_concat_encodings(refs.take(i as int), reference_encoder()),
            start_len == start.len(),
            start == old(out)@,
            start.is_prefix_of(out@),
        decreases content@.len() - i,
    {
        let ghost before = out@;
        match content[i].encode(out) {
            Ok(n) => {
                assert(refs[i as int].chunks.len() <= u16::MAX);
                proof {
                    lemma_concat_push(refs.take(i as int), refs[i as int], reference_encoder());
                    assert(refs.take(i + 1) =~= refs.take(i as int).push(refs[i as int]));
                }
                i = i + 1;
            },
            Err(e) => {
                assert(content@[i as int].chunks@.len() > u16::MAX);
                assert(refs[i as int].chunks.len() > u16::MAX);
                assert(out@ == before);
                assert(start.is_prefix_of(out@));
                return Err(e);
            },
        }
    }
    assert(refs.take(i as int) =~= refs);
    assert(out@ =~= start + spec_references_encode(refs));
    Ok(out.len() - start_len)
}


/// Parses a one byte count followed by that many content references.
fn parse_references(input: &[u8]) -> (res: Result<(&[u8], Vec<ContentReference>), ParseError>)
    ensures
        parse_agrees(input@, res, spec_parse_references(input@), |v: Vec<ContentReference>| references_view(v@)),
{
    let (rest, count) = le_u8(input)?;
    let (rest2, refs) = ContentReference::parse_many(rest, count)?;
    assert(rest2@ =~= input@.skip(1 + (rest@.len() - rest2@.len())));
    Ok((rest2, refs))
}

fn copy_references(v: &Vec<ContentReference>) -> (r: Vec<ContentReference>)
    ensures
        references_view(r@) == references_view(v@),
{
    let mut out: Vec<ContentReference> = Vec::new();
    let mut i: usize = 0;
    while i < v.len()
        invariant
            i <= v@.len(),
            references_view(out@) == references_view(v@).take(i as int),
        decreases v@.len() - i,
    {
        let ghost prev = out@;
        out.push(v[i].clone());
        assert(references_view(out@) =~= references_view(prev).push(v@[i as int]@));
        i = i + 1;
        assert(references_view(out@) =~= references_view(v@).take(i as int));
    }
    assert(references_view(v@).take(i as int) =~= references_view(v@));
    out
}

impl Clone for FileContent {
    fn clone(&self) -> (r: Self)
        ensures
            r@ == self@,
    {
        match self {
            FileContent::Encrypted { locked_access_key, cid, data_size, content } => FileContent::Encrypted {
                locked_access_key: *locked_access_key,
                cid: *cid,
                data_size: *data_size,
                content: copy_references(content),
            },
            FileContent::Public { cid, data_size, content } => FileContent::Public {
                cid: *cid,
                data_size: *data_size,
                content: copy_references(content),
            },
            FileContent::Stub { data_size } => FileContent::Stub { data_size: *data_size },
            FileContent::EmptyFile => FileContent::EmptyFile,
        }
    }
}

impl FileContent {
    pub fn encrypted(access_key: SymLockedAccessKey, cid: Cid, data_size: u64, content: Vec<ContentReference>) -> (r: FileContent)
        ensures
            r@ == (FileContentView::Encrypted {
                locked_access_key: access_key@,
                cid: cid@,
                data_size,
                content: references_view(content@),
            }),
    {
        FileContent::Encrypted { locked_access_key: access_key, cid, data_size, content }
    }

    /// The CID of the plaintext content of the file, when the file has stored content.
    pub fn cid(&self) -> (r: Option<Cid>)
        ensures
            match self@ {
                FileContentView::Encrypted { cid, .. } => r matches Some(c) && c@ == cid,
                FileContentView::Public { cid, .. } => r matches Some(c) && c@ == cid,
                _ => r is None,
            },
    {
        match self {
            FileContent::Encrypted { cid, .. } => Some(*cid),
            FileContent::Public { cid, .. } => Some(*cid),
            _ => None,
        }
    }

    pub fn content_references(&self) -> (r: Result<&[ContentReference], FileContentError>)
        ensures
            match self@ {
                FileContentView::Encrypted { content, .. } => r matches Ok(s) && references_view(s@) == content,
                FileContentView::Public { content, .. } => r matches Ok(s) && references_view(s@) == content,
                _ => r == Err::<&[ContentReference], FileContentError>(FileContentError::NoContent),
            },
    {
        match self {
            FileContent::Encrypted { content, .. } => Ok(content.as_slice()),
            FileContent::Public { content, .. } => Ok(content.as_slice()),
            _ => Err(FileContentError::NoContent),
        }
    }

    /// The CIDs of the data blocks holding the content, in order.
    pub fn data_cids(&self) -> (r: Option<Vec<Cid>>)
        ensures
            match self@ {
                FileContentView::Encrypted { content, .. } => r matches Some(v) && v@.len() == content.len()
                    && forall|i: int| 0 <= i < content.len() ==> #[trigger] v@[i]@ == content[i].cid,
                FileContentView::Public { content, .. } => r matches Some(v) && v@.len() == content.len()
                    && forall|i: int| 0 <= i < content.len() ==> #[trigger] v@[i]@ == content[i].cid,
                _ => r is None,
            },
    {
        let content = match self {
            FileContent::Encrypted { content, .. } => content,
            FileContent::Public { content, .. } => content,
            _ => return None,
        };
        let mut cids: Vec<Cid> = Vec::new();
        let mut i: usize = 0;
        while i < content.len()
            invariant
                i <= content@.len(),
                cids@.len() == i,
                forall|j: int| 0 <= j < i ==> #[trigger] cids@[j]@ == content@[j].data_block_cid@,
            decreases content@.len() - i,
        {
            cids.push(content[i].data_block_cid());
            i = i + 1;
        }
        Some(cids)
    }

    /// The sealed data key of encrypted content.
    pub fn data_key(&self) -> (r: Result<&SymLockedAccessKey, FileContentError>)
        ensures
            match self@ {
                FileContentView::Encrypted { locked_access_key, .. } => r matches Ok(k) && k@ == locked_access_key,
                _ => r == Err::<&SymLockedAccessKey, FileContentError>(FileContentError::NotEncrypted),
            },
    {
        match self {
            FileContent::Encrypted { locked_access_key, .. } => Ok(locked_access_key),
            _ => Err(FileContentError::NotEncrypted),
        }
    }

    pub fn is_encrypted(&self) -> (r: bool)
        ensures
            r == (self@ is Encrypted),
    {
        matches!(self, FileContent::Encrypted { .. })
    }

    pub fn is_stub(&self) -> (r: bool)
        ensures
            r == (self@ is Stub),
    {
        matches!(self, FileContent::Stub { .. })
    }

    /// The size of the file's data in bytes.
    pub fn size(&self) -> (r: u64)
        ensures
            r == spec_file_content_size(self@),
    {
        match self {
            FileContent::Encrypted { data_size, .. } => *data_size,
            FileContent::Public { data_size, .. } => *data_size,
            FileContent::Stub { data_size } => *data_size,
            FileContent::EmptyFile => 0,
        }
    }

    /// Appends the encoding of the content. Content with more than 255 references, or with a
    /// reference of more than 65535 chunks, can not be encoded.
    pub fn encode(&self, out: &mut Vec<u8>) -> (r: Result<usize, EncodingError>)
        ensures
            old(out)@.is_prefix_of(final(out)@),
            match spec_file_content_encode_error(self@) {
                Some(e) => r == Err::<usize, EncodingError>(e),
                None => r == Ok::<usize, EncodingError>(spec_encode_file_content(self@).len() as usize)
                    && final(out)@ == old(out)@ + spec_encode_file_content(self@),
            },
    {
        proof {
            lemma_le_roundtrips();
        }
        let ghost start = out@;
        let start_len = out.len();
        match self {
            FileContent::Stub { data_size } => {
                out.push(FILE_CONTENT_TYPE_STUB);
                put_u64(out, *data_size);
                assert(out@ =~= start + spec_encode_file_content(self@));
            },
            FileContent::Public { cid, data_size, content } => {
                out.push(FILE_CONTENT_TYPE_PUBLIC);
                cid.encode(out);
                put_u64(out, *data_size);
                let ghost mid = out@;
                encode_content_list(out, content)?;
                assert(out@ =~= start + spec_encode_file_content(self@));
            },
            FileContent::Encrypted { locked_access_key, cid, data_size, content } => {
                out.push(FILE_CONTENT_TYPE_ENCRYPTED);
                cid.encode(out);
                put_u64(out, *data_size);
                locked_access_key.encode(out);
                let ghost mid = out@;
                encode_content_list(out, content)?;
                assert(out@ =~= start + spec_encode_file_content(self@));
            },
            FileContent::EmptyFile => {
                out.push(FILE_CONTENT_TYPE_EMPTY);
                assert(out@ =~= start + spec_encode_file_content(self@));
            },
        }
        proof {
            lemma_le_roundtrips();
        }
        Ok(out.len() - start_len)
    }

    pub fn parse(input: &[u8]) -> (res: Result<(&[u8], FileContent), ParseError>)
        ensures
            parse_agrees(input@, res, spec_parse_file_content(input@), |c: FileContent| c@),
    {
        let (rest, content_type) = le_u8(input)?;
        assert(rest@ =~= input@.skip(1));
        if content_type == FILE_CONTENT_TYPE_STUB {
            let (rest, data_size) = le_u64(rest)?;
            assert(rest@ =~= input@.skip(9));
            Ok((rest, FileContent::Stub { data_size }))
        } else if content_type == FILE_CONTENT_TYPE_PUBLIC {
            if input.len() < 41 {
                return Err(ParseError::Incomplete);
            }
            let (rest, cid) = Cid::parse(rest)?;
            let (rest, data_size) = le_u64(rest)?;
            assert(cid@ =~= input@.subrange(1, 33));
            assert(input@.skip(1).skip(32).take(8) =~= input@.subrange(33, 41));
            assert(rest@ =~= input@.skip(41));
            let (rest2, content) = parse_references(rest)?;
            assert(rest2@ =~= input@.skip(41 + (rest@.len() - rest2@.len())));
            Ok((rest2, FileContent::Public { cid, data_size, content }))
        } else if content_type == FILE_CONTENT_TYPE_ENCRYPTED {
            if input.len() < 113 {
                return Err(ParseError::Incomplete);
            }
            let (rest, cid) = Cid::parse(rest)?;
            let (rest, data_size) = le_u64(rest)?;
            assert(cid@ =~= input@.subrange(1, 33));
            assert(input@.skip(1).skip(32).take(8) =~= input@.subrange(33, 41));
            assert(rest@ =~= input@.skip(41));
            let (rest, locked_access_key) = SymLockedAccessKey::parse(rest)?;
            assert(locked_access_key.nonce@ =~= input@.subrange(41, 65));
            assert(locked_access_key.cipher_text@ =~= input@.subrange(65, 97));
            assert(locked_access_key.tag@ =~= input@.subrange(97, 113));
            assert(rest@ =~= input@.skip(113));
            let (rest2, content) = parse_references(rest)?;
            assert(rest2@ =~= input@.skip(113 + (rest@.len() - rest2@.len())));
            Ok((rest2, FileContent::Encrypted { locked_access_key, cid, data_size, content }))
        } else if content_type == FILE_CONTENT_TYPE_EMPTY {
            Ok((rest, FileContent::EmptyFile))
        } else {
            Err(ParseError::Invalid(ErrorKind::Tag))
        }
    }
}

proof fn lemma_references_roundtrip(refs: Seq<ContentReferenceView>, rest: Seq<u8>)
    requires
        refs.len() <= u8::MAX,
        forall|i: int| 0 <= i < refs.len() ==> #[trigger] spec_reference_wf(refs[i]),
    ensures
        spec_parse_references(spec_references_encode(refs) + rest) == Parsed::Done(spec_references_encode(refs).len(), refs),
{
    assert forall|v: ContentReferenceView, r: Seq<u8>|
        reference_wf()(v) implies #[trigger] reference_parser()(reference_encoder()(v) + r) == Parsed::Done(
            reference_encoder()(v).len(),
            v,
        ) by {
        lemma_reference_roundtrip(v, r);
    }
    assert forall|i: int| 0 <= i < refs.len() implies #[trigger] reference_wf()(refs[i]) by {
        assert(spec_reference_wf(refs[i]));
    }
    lemma_repeat_roundtrip(refs, rest, reference_encoder(), reference_parser(), reference_wf());
    let s = spec_references_encode(refs) + rest;
    assert(s[0] == refs.len() as u8);
    assert(s.skip(1) =~= spec_concat_encodings(refs, reference_encoder()) + rest);
}

#[verifier::spinoff_prover]
#[verifier::rlimit(40)]
proof fn lemma_public_roundtrip(cid: Seq<u8>, data_size: u64, content: Seq<ContentReferenceView>, rest: Seq<u8>)
    requires
        cid.len() == CID_LENGTH,
        content.len() <= u8::MAX,
        forall|i: int| 0 <= i < content.len() ==> #[trigger] spec_reference_wf(content[i]),
    ensures
        ({
            let c = FileContentView::Public { cid, data_size, content };
            spec_parse_file_content(spec_encode_file_content(c) + rest) == Parsed::Done(spec_encode_file_content(c).len(), c)
        }),
{
    lemma_le_roundtrips();
    let c = FileContentView::Public { cid, data_size, content };
    let s = spec_encode_file_content(c) + rest;
    lemma_references_roundtrip(content, rest);
    assert(s.subrange(1, 33) =~= cid);
    assert(s.subrange(33, 41) =~= spec_u64_to_le_bytes(data_size));
    assert(s.skip(41) =~= spec_references_encode(content) + rest);
}

#[verifier::spinoff_prover]
#[verifier::rlimit(40)]
proof fn lemma_encrypted_roundtrip(
    locked_access_key: SymLockedAccessKeyView,
    cid: Seq<u8>,
    data_size: u64,
    content: Seq<ContentReferenceView>,
    rest: Seq<u8>,
)
    requires
        cid.len() == CID_LENGTH,
        spec_locked_key_wf(locked_access_key),
        content.len() <= u8::MAX,
        forall|i: int| 0 <= i < content.len() ==> #[trigger] spec_reference_wf(content[i]),
    ensures
        ({
            let c = FileContentView::Encrypted { locked_access_key, cid, data_size, content };
            spec_parse_file_content(spec_encode_file_content(c) + rest) == Parsed::Done(spec_encode_file_content(c).len(), c)
        }),
{
    lemma_le_roundtrips();
    let c = FileContentView::Encrypted { locked_access_key, cid, data_size, content };
    let s = spec_encode_file_content(c) + rest;
    lemma_references_roundtrip(content, rest);
    assert(s.subrange(1, 33) =~= cid);
    assert(s.subrange(33, 41) =~= spec_u64_to_le_bytes(data_size));
    assert(s.subrange(41, 65) =~= locked_access_key.nonce);
    assert(s.subrange(65, 97) =~= locked_access_key.cipher_text);
    assert(s.subrange(97, 113) =~= locked_access_key.tag);
    assert(s.skip(113) =~= spec_references_encode(content) + rest);
    let refs_part = spec_parse_references(s.skip(113));
    assert(refs_part == Parsed::Done(spec_references_encode(content).len(), content));
}

/// Encoded file content reads back as the same content, whatever follows it.
pub proof fn lemma_file_content_roundtrip(c: FileContentView, rest: Seq<u8>)
    requires
        spec_file_content_wf(c),
    ensures
        spec_file_content_encode_error(c) is None,
        spec_parse_file_content(spec_encode_file_content(c) + rest) == Parsed::Done(
            spec_encode_file_content(c).len(),
            c,
        ),
{
    match c {
        FileContentView::Stub { data_size } => {
            lemma_le_roundtrips();
            let s = spec_encode_file_content(c) + rest;
            assert(s.skip(1).take(8) =~= spec_u64_to_le_bytes(data_size));
        },
        FileContentView::Public { cid, data_size, content } => {
            lemma_public_roundtrip(cid, data_size, content, rest);
        },
        FileContentView::Encrypted { locked_access_key, cid, data_size, content } => {
            lemma_encrypted_roundtrip(locked_access_key, cid, data_size, content, rest);
        },
        FileContentView::EmptyFile => {},
    }
}

} // verus!
