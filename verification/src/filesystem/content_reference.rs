use vstd::bytes::*;
use vstd::prelude::*;

use crate::codec::blocks::{
    spec_block_kind_byte, spec_block_size_valid, spec_encode_block_size, spec_parse_block_kind, spec_parse_block_size,
    BlockKind, BlockSize,
};
use crate::codec::ids::{Cid, CID_LENGTH};
use crate::codec::parser::{
    lemma_le_roundtrips, lemma_prefix_outcome_empty, lemma_repeat_fail, lemma_repeat_roundtrip,
    lemma_concat_push, lemma_repeat_step, le_u16, le_u64, parse_agrees, prefix_outcome, put_u16, put_u64,
    spec_concat_encodings, spec_le_u16, spec_repeat, EncodingError, ParseError, Parsed,
};

verus! {

broadcast use vstd::seq::group_seq_axioms, vstd::slice::group_slice_axioms, vstd::array::group_array_axioms;

/// Where one chunk of content lives: the kind of block, the CID of the chunk and its position
/// within the block.
#[derive(Debug, Clone, Copy)]
pub struct ContentLocation {
    pub block_kind: BlockKind,
    pub content_cid: Cid,
    pub block_index: u64,
}

pub struct ContentLocationView {
    pub kind: BlockKind,
    pub cid: Seq<u8>,
    pub index: u64,
}

impl View for ContentLocation {
    type V = ContentLocationView;

    open spec fn view(&self) -> ContentLocationView {
        ContentLocationView { kind: self.block_kind, cid: self.content_cid@, index: self.block_index }
    }
}

/// The encoded size of a content location: kind byte, CID and 64 bit index.
pub const CONTENT_LOCATION_SIZE: usize = 41;

pub open spec fn spec_location_wf(l: ContentLocationView) -> bool {
    l.cid.len() == CID_LENGTH
}

pub open spec fn spec_encode_location(l: ContentLocationView) -> Seq<u8> {
    seq![spec_block_kind_byte(l.kind)] + l.cid + spec_u64_to_le_bytes(l.index)
}

pub open spec fn spec_parse_location(s: Seq<u8>) -> Parsed<ContentLocationView> {
    match spec_parse_block_kind(s) {
        Parsed::Done(_, kind) => if s.len() < CONTENT_LOCATION_SIZE {
            Parsed::Incomplete
        } else {
            Parsed::Done(
                CONTENT_LOCATION_SIZE as nat,
                ContentLocationView {
                    kind,
                    cid: s.subrange(1, 33),
                    index: spec_u64_from_le_bytes(s.subrange(33, 41)),
                },
            )
        },
        Parsed::Incomplete => Parsed::Incomplete,
        Parsed::Invalid => Parsed::Invalid,
    }
}

pub open spec fn location_parser() -> spec_fn(Seq<u8>) -> Parsed<ContentLocationView> {
    |s: Seq<u8>| spec_parse_location(s)
}

pub open spec fn location_encoder() -> spec_fn(ContentLocationView) -> Seq<u8> {
    |l: ContentLocationView| spec_encode_location(l)
}

pub open spec fn locations_view(v: Seq<ContentLocation>) -> Seq<ContentLocationView> {
    v.map_values(|l: ContentLocation| l@)
}

/// A reference to the content held by one data block: the block's CID, its geometry and the
/// locations of the chunks used from it, in order.
#[derive(Debug)]
pub struct ContentReference {
    pub data_block_cid: Cid,
    pub block_size: BlockSize,
    pub chunks: Vec<ContentLocation>,
}

pub struct ContentReferenceView {
    pub cid: Seq<u8>,
    pub block_size: BlockSize,
    pub chunks: Seq<ContentLocationView>,
}

impl View for ContentReference {
    type V = ContentReferenceView;

    open spec fn view(&self) -> ContentReferenceView {
        ContentReferenceView {
            cid: self.data_block_cid@,
            block_size: self.block_size,
            chunks: locations_view(self.chunks@),
        }
    }
}

pub open spec fn spec_reference_wf(r: ContentReferenceView) -> bool {
    &&& r.cid.len() == CID_LENGTH
    &&& spec_block_size_valid(r.block_size)
    &&& r.chunks.len() <= u16::MAX
    &&& forall|i: int| 0 <= i < r.chunks.len() ==> #[trigger] spec_location_wf(r.chunks[i])
}

pub open spec fn spec_encode_reference(r: ContentReferenceView) -> Seq<u8> {
    r.cid + spec_encode_block_size(r.block_size) + spec_u16_to_le_bytes(r.chunks.len() as u16)
        + spec_concat_encodings(r.chunks, location_encoder())
}

pub open spec fn spec_parse_reference(s: Seq<u8>) -> Parsed<ContentReferenceView> {
    if s.len() < CID_LENGTH {
        Parsed::Incomplete
    } else {
        match spec_parse_block_size(s.skip(32)) {
            Parsed::Done(_, block_size) => match spec_le_u16(s.skip(34)) {
                Parsed::Done(_, count) => match spec_repeat(s.skip(36), count as nat, location_parser()) {
                    Parsed::Done(n, chunks) => Parsed::Done(
                        36 + n,
                        ContentReferenceView { cid: s.take(32), block_size, chunks },
                    ),
                    Parsed::Incomplete => Parsed::Incomplete,
                    Parsed::Invalid => Parsed::Invalid,
                },
                Parsed::Incomplete => Parsed::Incomplete,
                Parsed::Invalid => Parsed::Invalid,
            },
            Parsed::Incomplete => Parsed::Incomplete,
            Parsed::Invalid => Parsed::Invalid,
        }
    }
}

pub open spec fn reference_parser() -> spec_fn(Seq<u8>) -> Parsed<ContentReferenceView> {
    |s: Seq<u8>| spec_parse_reference(s)
}

pub open spec fn reference_encoder() -> spec_fn(ContentReferenceView) -> Seq<u8> {
    |r: ContentReferenceView| spec_encode_reference(r)
}

pub open spec fn references_view(v: Seq<ContentReference>) -> Seq<ContentReferenceView> {
    v.map_values(|r: ContentReference| r@)
}

/// The encoded size of a content reference with `chunks` chunk locations.
pub open spec fn spec_reference_size(chunks: nat) -> nat {
    36 + 41 * chunks
}

impl ContentLocation {
    /// The location of chunk `block_index` of the data block `cid`.
    pub fn data(cid: Cid, block_index: u64) -> (r: ContentLocation)
        ensures
            r@ == (ContentLocationView { kind: BlockKind::Data, cid: cid@, index: block_index }),
    {
        ContentLocation { block_kind: BlockKind::Data, content_cid: cid, block_index }
    }

    pub fn block_index(&self) -> (r: u64)
        ensures
            r == self.block_index,
    {
        self.block_index
    }

    pub fn block_kind(&self) -> (r: &BlockKind)
        ensures
            *r == self.block_kind,
    {
        &self.block_kind
    }

    pub fn content_cid(&self) -> (r: &Cid)
        ensures
            *r == self.content_cid,
    {
        &self.content_cid
    }

    /// The number of bytes of the encoded location.
    pub fn size(&self) -> (r: usize)
        ensures
            r == CONTENT_LOCATION_SIZE,
            r == spec_encode_location(self@).len(),
    {
        proof {
            lemma_le_roundtrips();
        }
        Cid::size() + 8 + self.block_kind.size()
    }

    pub fn encode(&self, out: &mut Vec<u8>) -> (r: usize)
        ensures
            final(out)@ == old(out)@ + spec_encode_location(self@),
            r == spec_encode_location(self@).len(),
    {
        proof {
            lemma_le_roundtrips();
        }
        let ghost start = out@;
        self.block_kind.encode(out);
        self.content_cid.encode(out);
        put_u64(out, self.block_index);
        assert(out@ =~= start + spec_encode_location(self@));
        CONTENT_LOCATION_SIZE
    }

    pub fn parse(input: &[u8]) -> (res: Result<(&[u8], ContentLocation), ParseError>)
        ensures
            parse_agrees(input@, res, spec_parse_location(input@), |l: ContentLocation| l@),
    {
        let (rest, block_kind) = BlockKind::parse(input)?;
        if input.len() < CONTENT_LOCATION_SIZE {
            return Err(ParseError::Incomplete);
        }
        assert(rest@ =~= input@.skip(1));
        let (rest, content_cid) = Cid::parse(rest)?;
        assert(input@.skip(1).take(32) =~= input@.subrange(1, 33));
        assert(input@.skip(1).skip(32) =~= input@.skip(33));
        let (rest, block_index) = le_u64(rest)?;
        assert(content_cid@ =~= input@.subrange(1, 33));
        assert(input@.skip(33).take(8) =~= input@.subrange(33, 41));
        assert(rest@ =~= input@.skip(41));
        Ok((rest, ContentLocation { block_kind, content_cid, block_index }))
    }

    /// Parses `count` consecutive locations.
    pub fn parse_many(input: &[u8], count: u16) -> (res: Result<(&[u8], Vec<ContentLocation>), ParseError>)
        ensures
            parse_agrees(
                input@,
                res,
                spec_repeat(input@, count as nat, location_parser()),
                |v: Vec<ContentLocation>| locations_view(v@),
            ),
    {
        let mut out: Vec<ContentLocation> = Vec::new();
        let mut rest = input;
        let mut i: u16 = 0;
        let ghost mut m: nat = 0;
        proof {
            lemma_prefix_outcome_empty(spec_repeat(input@, count as nat, location_parser()));
            assert(input@.skip(0) =~= input@);
            assert(locations_view(out@) =~= Seq::<ContentLocationView>::empty());
        }
        while i < count
            invariant
                i <= count,
                m <= input@.len(),
                rest@ == input@.skip(m as int),
                spec_repeat(input@, count as nat, location_parser()) == prefix_outcome(
                    m,
                    locations_view(out@),
                    spec_repeat(input@.skip(m as int), (count - i) as nat, location_parser()),
                ),
            decreases count - i,
        {
            match ContentLocation::parse(rest) {
                Ok((next, loc)) => {
                    let ghost k = (rest@.len() - next@.len()) as nat;
                    proof {
                        assert(location_parser()(input@.skip(m as int)) == spec_parse_location(rest@));
                        lemma_repeat_step(input@, m, locations_view(out@), (count - i) as nat, location_parser(), k, loc@);
                    }
                    let ghost prev = out@;
                    out.push(loc);
                    proof {
                        assert(locations_view(out@) =~= locations_view(prev).push(loc@));
                        m = m + k;
                        assert(next@ =~= input@.skip(m as int));
                    }
                    rest = next;
                    i = i + 1;
                },
                Err(e) => {
                    proof {
                        assert(location_parser()(input@.skip(m as int)) == spec_parse_location(rest@));
                        lemma_repeat_fail(input@.skip(m as int), (count - i) as nat, location_parser());
                    }
                    return Err(e);
                },
            }
        }
        proof {
            assert(locations_view(out@) + Seq::<ContentLocationView>::empty() =~= locations_view(out@));
        }
        Ok((rest, out))
    }
}


pub open spec fn location_wf() -> spec_fn(ContentLocationView) -> bool {
    |l: ContentLocationView| spec_location_wf(l)
}

pub open spec fn reference_wf() -> spec_fn(ContentReferenceView) -> bool {
    |r: ContentReferenceView| spec_reference_wf(r)
}

/// An encoded content location reads back as the same location, whatever follows it.
pub proof fn lemma_location_roundtrip(l: ContentLocationView, rest: Seq<u8>)
    requires
        spec_location_wf(l),
    ensures
        spec_parse_location(spec_encode_location(l) + rest) == Parsed::Done(
            spec_encode_location(l).len(),
            l,
        ),
        spec_encode_location(l).len() == CONTENT_LOCATION_SIZE,
{
    lemma_le_roundtrips();
    let s = spec_encode_location(l) + rest;
    assert(s[0] == spec_block_kind_byte(l.kind));
    assert(s.subrange(1, 33) =~= l.cid);
    assert(s.subrange(33, 41) =~= spec_u64_to_le_bytes(l.index));
}

proof fn lemma_locations_roundtrip_all()
    ensures
        forall|v: ContentLocationView, r: Seq<u8>|
            location_wf()(v) ==> #[trigger] location_parser()(location_encoder()(v) + r) == Parsed::Done(
                location_encoder()(v).len(),
                v,
            ),
{
    assert forall|v: ContentLocationView, r: Seq<u8>|
        location_wf()(v) implies #[trigger] location_parser()(location_encoder()(v) + r) == Parsed::Done(
            location_encoder()(v).len(),
            v,
        ) by {
        lemma_location_roundtrip(v, r);
    }
}

/// The encoding of `n` locations takes 41 bytes each.
pub proof fn lemma_locations_length(ls: Seq<ContentLocationView>)
    requires
        forall|i: int| 0 <= i < ls.len() ==> #[trigger] spec_location_wf(ls[i]),
    ensures
        spec_concat_encodings(ls, location_encoder()).len() == 41 * ls.len(),
    decreases ls.len(),
{
    if ls.len() > 0 {
        lemma_le_roundtrips();
        let tail = ls.drop_first();
        assert(spec_location_wf(ls[0]));
        assert forall|i: int| 0 <= i < tail.len() implies #[trigger] spec_location_wf(tail[i]) by {
            assert(spec_location_wf(ls[i + 1]));
        }
        lemma_locations_length(tail);
    }
}

/// An encoded content reference reads back as the same reference, whatever follows it, and
/// its encoding is as long as `ContentReference::size` says.
pub proof fn lemma_reference_roundtrip(r: ContentReferenceView, rest: Seq<u8>)
    requires
        spec_reference_wf(r),
    ensures
        spec_parse_reference(spec_encode_reference(r) + rest) == Parsed::Done(
            spec_encode_reference(r).len(),
            r,
        ),
        spec_encode_reference(r).len() == spec_reference_size(r.chunks.len()),
{
    lemma_le_roundtrips();
    lemma_locations_roundtrip_all();
    lemma_locations_length(r.chunks);
    let body = spec_concat_encodings(r.chunks, location_encoder());
    let s = spec_encode_reference(r) + rest;
    assert forall|i: int| 0 <= i < r.chunks.len() implies #[trigger] location_wf()(r.chunks[i]) by {
        assert(spec_location_wf(r.chunks[i]));
    }
    lemma_repeat_roundtrip(r.chunks, rest, location_encoder(), location_parser(), location_wf());
    assert(s.take(32) =~= r.cid);
    assert(s.skip(32).take(2) =~= spec_encode_block_size(r.block_size));
    assert(s.skip(34).take(2) =~= spec_u16_to_le_bytes(r.chunks.len() as u16));
    assert(s.skip(36) =~= body + rest);
    assert(spec_parse_block_size(s.skip(32)) == Parsed::Done(2, r.block_size));
    assert(spec_le_u16(s.skip(34)) == Parsed::Done(2, r.chunks.len() as u16));
}

impl Clone for ContentReference {
    fn clone(&self) -> (r: Self)
        ensures
            r@ == self@,
    {
        ContentReference {
            data_block_cid: self.data_block_cid,
            block_size: self.block_size,
            chunks: copy_locations(&self.chunks),
        }
    }
}

fn copy_locations(v: &Vec<ContentLocation>) -> (r: Vec<ContentLocation>)
    ensures
        r@ == v@,
{
    let mut out: Vec<ContentLocation> = Vec::new();
    let mut i: usize = 0;
    while i < v.len()
        invariant
            i <= v@.len(),
            out@ == v@.take(i as int),
        decreases v@.len() - i,
    {
        out.push(v[i]);
        i = i + 1;
        assert(out@ =~= v@.take(i as int));
    }
    assert(v@.take(i as int) =~= v@);
    out
}

impl ContentReference {
    pub fn new(data_block_cid: Cid, block_size: BlockSize, chunks: Vec<ContentLocation>) -> (r: ContentReference)
        ensures
            r.data_block_cid == data_block_cid,
            r.block_size == block_size,
            r.chunks == chunks,
    {
        ContentReference { data_block_cid, block_size, chunks }
    }

    pub fn chunks(&self) -> (r: &[ContentLocation])
        ensures
            r@ == self.chunks@,
    {
        self.chunks.as_slice()
    }

    pub fn data_block_cid(&self) -> (r: Cid)
        ensures
            r == self.data_block_cid,
    {
        self.data_block_cid
    }

    /// The number of bytes of the encoded reference.
    pub fn size(&self) -> (r: usize)
        requires
            spec_reference_size(self.chunks@.len()) <= usize::MAX,
        ensures
            r == spec_reference_size(self.chunks@.len()),
    {
        let base_size = Cid::size() + BlockSize::size() + 2;
        let mut chunk_size: usize = 0;
        let mut i: usize = 0;
        while i < self.chunks.len()
            invariant
                i <= self.chunks@.len(),
                chunk_size == 41 * i,
                spec_reference_size(self.chunks@.len()) <= usize::MAX,
            decreases self.chunks@.len() - i,
        {
            chunk_size = chunk_size + self.chunks[i].size();
            i = i + 1;
        }
        base_size + chunk_size
    }

    /// Appends the encoding of this reference; a reference with more chunks than a 16 bit
    /// count holds can not be encoded and leaves the output untouched.
    pub fn encode(&self, out: &mut Vec<u8>) -> (r: Result<usize, EncodingError>)
        ensures
            self.chunks@.len() <= u16::MAX ==> r == Ok::<usize, EncodingError>(spec_encode_reference(self@).len() as usize)
                && final(out)@ == old(out)@ + spec_encode_reference(self@),
            self.chunks@.len() > u16::MAX ==> r == Err::<usize, EncodingError>(EncodingError::TooManyChunks)
                && final(out)@ == old(out)@,
    {
        if self.chunks.len() > 65535 {
            return Err(EncodingError::TooManyChunks);
        }
        proof {
            lemma_le_roundtrips();
        }
        let ghost start = out@;
        self.data_block_cid.encode(out);
        self.block_size.encode(out);
        put_u16(out, self.chunks.len() as u16);
        let mut written: usize = 36;
        let mut i: usize = 0;
        assert(self@.chunks.take(0) =~= Seq::<ContentLocationView>::empty());
        while i < self.chunks.len()
            invariant
                i <= self.chunks@.len() <= u16::MAX,
                written == 36 + 41 * i,
                out@ == start + self@.cid + spec_encode_block_size(self@.block_size)
                    + spec_u16_to_le_bytes(self@.chunks.len() as u16)
                    + spec_concat_encodings(self@.chunks.take(i as int), location_encoder()),
            decreases self.chunks@.len() - i,
        {
            proof {
                lemma_le_roundtrips();
            }
            let n = self.chunks[i].encode(out);
            proof {
                lemma_concat_push(self@.chunks.take(i as int), self@.chunks[i as int], location_encoder());
                assert(self@.chunks.take(i + 1) =~= self@.chunks.take(i as int).push(self@.chunks[i as int]));
            }
            written = written + n;
            i = i + 1;
        }
        assert(self@.chunks.take(i as int) =~= self@.chunks);
        proof {
            lemma_locations_length(self@.chunks);
        }
        assert(out@ =~= start + spec_encode_reference(self@));
        Ok(written)
    }

    pub fn parse(input: &[u8]) -> (res: Result<(&[u8], ContentReference), ParseError>)
        ensures
            parse_agrees(input@, res, spec_parse_reference(input@), |r: ContentReference| r@),
    {
        let (rest, data_block_cid) = Cid::parse(input)?;
        let (rest, block_size) = BlockSize::parse(rest)?;
        assert(input@.skip(32).skip(2) =~= input@.skip(34));
        let (rest, chunk_count) = le_u16(rest)?;
        assert(input@.skip(34).skip(2) =~= input@.skip(36));
        let (rest2, chunks) = ContentLocation::parse_many(rest, chunk_count)?;
        assert(rest2@ =~= input@.skip(36 + (rest@.len() - rest2@.len())));
        Ok((rest2, ContentReference { data_block_cid, block_size, chunks }))
    }

    /// Parses `ref_count` consecutive references.
    pub fn parse_many(input: &[u8], ref_count: u8) -> (res: Result<(&[u8], Vec<ContentReference>), ParseError>)
        ensures
            parse_agrees(
                input@,
                res,
                spec_repeat(input@, ref_count as nat, reference_parser()),
                |v: Vec<ContentReference>| references_view(v@),
            ),
    {
        let mut out: Vec<ContentReference> = Vec::new();
        let mut rest = input;
        let mut i: u8 = 0;
        let ghost mut m: nat = 0;
        proof {
            lemma_prefix_outcome_empty(spec_repeat(input@, ref_count as nat, reference_parser()));
            assert(input@.skip(0) =~= input@);
            assert(references_view(out@) =~= Seq::<ContentReferenceView>::empty());
        }
        while i < ref_count
            invariant
                i <= ref_count,
                m <= input@.len(),
                rest@ == input@.skip(m as int),
                spec_repeat(input@, ref_count as nat, reference_parser()) == prefix_outcome(
                    m,
                    references_view(out@),
                    spec_repeat(input@.skip(m as int), (ref_count - i) as nat, reference_parser()),
                ),
            decreases ref_count - i,
        {
            match ContentReference::parse(rest) {
                Ok((next, r)) => {
                    let ghost k = (rest@.len() - next@.len()) as nat;
                    proof {
                        assert(reference_parser()(input@.skip(m as int)) == spec_parse_reference(rest@));
                        lemma_repeat_step(input@, m, references_view(out@), (ref_count - i) as nat, reference_parser(), k, r@);
                    }
                    let ghost prev = out@;
                    out.push(r);
                    proof {
                        assert(references_view(out@) =~= references_view(prev).push(r@));
                        m = m + k;
                        assert(next@ =~= input@.skip(m as int));
                    }
                    rest = next;
                    i = i + 1;
                },
                Err(e) => {
                    proof {
                        assert(reference_parser()(input@.skip(m as int)) == spec_parse_reference(rest@));
                        lemma_repeat_fail(input@.skip(m as int), (ref_count - i) as nat, reference_parser());
                    }
                    return Err(e);
                },
            }
        }
        proof {
            assert(references_view(out@) + Seq::<ContentReferenceView>::empty() =~= references_view(out@));
        }
        Ok((rest, out))
    }
}

} // verus!
