use vstd::bytes::*;
use vstd::prelude::*;
use vstd::slice::*;

verus! {

broadcast use vstd::seq::group_seq_axioms, vstd::slice::group_slice_axioms;

/// Why an input was rejected.
#[derive(Debug, Clone, Copy, PartialEq, Eq)]
pub enum ErrorKind {
    /// A type tag or magic value did not match any known one.
    Tag,
    /// A value was read completely but failed validation.
    Verify,
    /// A single marker byte held an unexpected value.
    Token,
    /// Bytes remained after a value that must fill the whole input.
    Eof,
}

/// Failure of a streaming parser.
#[derive(Debug, Clone, Copy, PartialEq, Eq)]
pub enum ParseError {
    /// The input ended before the value was complete; more data may make it parse.
    Incomplete,
    /// The input can never start a valid value, whatever follows.
    Invalid(ErrorKind),
}

/// The mathematical outcome of parsing a prefix of a byte sequence.
pub enum Parsed<V> {
    /// The first `n` bytes encode the value.
    Done(nat, V),
    /// Every byte seen so far was acceptable but more are needed.
    Incomplete,
    /// The input can not begin an encoding of a value.
    Invalid,
}

/// Ties the result of an executable parser to its mathematical outcome: on success the
/// remaining slice is what follows the consumed prefix, failures carry the matching error.
pub open spec fn parse_agrees<'a, T, V>(
    input: Seq<u8>,
    res: Result<(&'a [u8], T), ParseError>,
    outcome: Parsed<V>,
    view_of: spec_fn(T) -> V,
) -> bool {
    match outcome {
        Parsed::Done(n, v) => match res {
            Ok((rest, t)) => n <= input.len() && rest@ == input.skip(n as int) && view_of(t) == v,
            Err(_) => false,
        },
        Parsed::Incomplete => res matches Err(ParseError::Incomplete),
        Parsed::Invalid => res matches Err(ParseError::Invalid(_)),
    }
}

/// Sequencing of two parse outcomes: when the first completes with `n` bytes, the second is
/// run on what remains and their lengths add up.
pub open spec fn parsed_then<A, B>(
    first: Parsed<A>,
    input: Seq<u8>,
    next: spec_fn(A, Seq<u8>) -> Parsed<B>,
) -> Parsed<B> {
    match first {
        Parsed::Done(n, a) => match next(a, input.skip(n as int)) {
            Parsed::Done(m, b) => Parsed::Done(n + m, b),
            Parsed::Incomplete => Parsed::Incomplete,
            Parsed::Invalid => Parsed::Invalid,
        },
        Parsed::Incomplete => Parsed::Incomplete,
        Parsed::Invalid => Parsed::Invalid,
    }
}

/// Parsing `count` values one after another with the parser `one`.
pub open spec fn spec_repeat<V>(s: Seq<u8>, count: nat, one: spec_fn(Seq<u8>) -> Parsed<V>) -> Parsed<Seq<V>>
    decreases count,
{
    if count == 0 {
        Parsed::Done(0, Seq::empty())
    } else {
        match one(s) {
            Parsed::Done(n, v) => prefix_outcome(n, seq![v], spec_repeat(s.skip(n as int), (count - 1) as nat, one)),
            Parsed::Incomplete => Parsed::Incomplete,
            Parsed::Invalid => Parsed::Invalid,
        }
    }
}

/// The outcome of parsing the rest of an input once `m` bytes holding `vs` were read.
pub open spec fn prefix_outcome<V>(m: nat, vs: Seq<V>, o: Parsed<Seq<V>>) -> Parsed<Seq<V>> {
    match o {
        Parsed::Done(n, w) => Parsed::Done(m + n, vs + w),
        Parsed::Incomplete => Parsed::Incomplete,
        Parsed::Invalid => Parsed::Invalid,
    }
}

/// The encodings of a sequence of values, one after another.
pub open spec fn spec_concat_encodings<V>(vs: Seq<V>, enc: spec_fn(V) -> Seq<u8>) -> Seq<u8>
    decreases vs.len(),
{
    if vs.len() == 0 {
        Seq::empty()
    } else {
        enc(vs[0]) + spec_concat_encodings(vs.drop_first(), enc)
    }
}

/// Nothing read yet: the outcome is that of the whole input.
pub proof fn lemma_prefix_outcome_empty<V>(o: Parsed<Seq<V>>)
    ensures
        prefix_outcome(0, Seq::<V>::empty(), o) == o,
{
    match o {
        Parsed::Done(n, w) => {
            assert(Seq::<V>::empty() + w =~= w);
        },
        _ => {},
    }
}

/// A repeated parse that stops on a failing element fails the same way.
pub proof fn lemma_repeat_fail<V>(s: Seq<u8>, count: nat, one: spec_fn(Seq<u8>) -> Parsed<V>)
    requires
        count > 0,
        !(one(s) is Done),
    ensures
        spec_repeat(s, count, one) == (match one(s) {
            Parsed::Incomplete => Parsed::<Seq<V>>::Incomplete,
            _ => Parsed::<Seq<V>>::Invalid,
        }),
{
}

/// Reasons a structure can not be encoded.
#[derive(Debug, Clone, Copy, PartialEq, Eq, Structural)]
pub enum EncodingError {
    /// More chunks than the 16 bit count of a content reference can hold.
    TooManyChunks,
    /// More content references than the 8 bit count of a file can hold.
    TooManyContentReferences,
    /// More children than the 16 bit count of a directory can hold.
    TooManyChildren,
    /// More metadata entries than the 8 bit count of a node can hold.
    TooManyMetadataEntries,
    /// A metadata key longer than 255 bytes.
    MetadataKeyTooLong,
    /// A metadata value longer than 255 bytes.
    MetadataValueTooLong,
    /// A node name longer than 255 bytes.
    NameTooLong(usize),
    /// An encoding longer than its 32 bit length field can describe.
    TooLarge,
}

/// One step of a repeated parse, as seen from a loop that has read `m` bytes holding `vs`.
pub proof fn lemma_repeat_step<V>(
    s: Seq<u8>,
    m: nat,
    vs: Seq<V>,
    count: nat,
    one: spec_fn(Seq<u8>) -> Parsed<V>,
    k: nat,
    v: V,
)
    requires
        count > 0,
        m <= s.len(),
        one(s.skip(m as int)) == Parsed::Done(k, v),
        k <= s.skip(m as int).len(),
    ensures
        prefix_outcome(m, vs, spec_repeat(s.skip(m as int), count, one)) == prefix_outcome(
            m + k,
            vs.push(v),
            spec_repeat(s.skip((m + k) as int), (count - 1) as nat, one),
        ),
{
    assert(s.skip(m as int).skip(k as int) =~= s.skip((m + k) as int));
    match spec_repeat(s.skip((m + k) as int), (count - 1) as nat, one) {
        Parsed::Done(n, w) => {
            assert(vs + (seq![v] + w) =~= vs.push(v) + w);
        },
        _ => {},
    }
}

/// Appending one value to a sequence appends its encoding.
pub proof fn lemma_concat_push<V>(vs: Seq<V>, v: V, enc: spec_fn(V) -> Seq<u8>)
    ensures
        spec_concat_encodings(vs.push(v), enc) == spec_concat_encodings(vs, enc) + enc(v),
    decreases vs.len(),
{
    if vs.len() == 0 {
        let one = vs.push(v);
        assert(one.drop_first() =~= Seq::<V>::empty());
        assert(spec_concat_encodings(Seq::<V>::empty(), enc) == Seq::<u8>::empty());
        assert(spec_concat_encodings(one, enc) == enc(one[0]) + spec_concat_encodings(one.drop_first(), enc));
        assert(one[0] == v);
        assert(spec_concat_encodings(one, enc) =~= enc(v));
        assert(vs =~= Seq::<V>::empty());
    } else {
        lemma_concat_push(vs.drop_first(), v, enc);
        assert(vs.push(v).drop_first() =~= vs.drop_first().push(v));
        assert(vs.push(v)[0] == vs[0]);
        assert(spec_concat_encodings(vs.push(v), enc) =~= enc(vs[0]) + spec_concat_encodings(vs.drop_first().push(v), enc));
        assert(spec_concat_encodings(vs.push(v), enc) =~= spec_concat_encodings(vs, enc) + enc(v));
    }
}

/// Values encoded one after another read back with the matching repeated parser.
pub proof fn lemma_repeat_roundtrip<V>(
    vs: Seq<V>,
    rest: Seq<u8>,
    enc: spec_fn(V) -> Seq<u8>,
    one: spec_fn(Seq<u8>) -> Parsed<V>,
    wf: spec_fn(V) -> bool,
)
    requires
        forall|i: int| 0 <= i < vs.len() ==> #[trigger] wf(vs[i]),
        forall|v: V, r: Seq<u8>| wf(v) ==> #[trigger] one(enc(v) + r) == Parsed::Done(enc(v).len(), v),
    ensures
        spec_repeat(spec_concat_encodings(vs, enc) + rest, vs.len(), one) == Parsed::Done(
            spec_concat_encodings(vs, enc).len(),
            vs,
        ),
    decreases vs.len(),
{
    if vs.len() > 0 {
        let tail = vs.drop_first();
        assert(wf(vs[0]));
        assert forall|i: int| 0 <= i < tail.len() implies #[trigger] wf(tail[i]) by {
            assert(wf(vs[i + 1]));
        }
        lemma_repeat_roundtrip(tail, rest, enc, one, wf);
        let s = spec_concat_encodings(vs, enc) + rest;
        let e0 = enc(vs[0]);
        assert(s =~= e0 + (spec_concat_encodings(tail, enc) + rest));
        assert(one(s) == Parsed::Done(e0.len(), vs[0]));
        assert(s.skip(e0.len() as int) =~= spec_concat_encodings(tail, enc) + rest);
        assert(seq![vs[0]] + tail =~= vs);
        assert(spec_concat_encodings(vs, enc) == e0 + spec_concat_encodings(tail, enc));
        assert(spec_repeat(s.skip(e0.len() as int), (vs.len() - 1) as nat, one) == Parsed::Done(
            spec_concat_encodings(tail, enc).len(),
            tail,
        ));
    } else {
        assert(vs =~= Seq::<V>::empty());
    }
}

/// Taking `n` raw bytes.
pub open spec fn spec_take(s: Seq<u8>, n: nat) -> Parsed<Seq<u8>> {
    if s.len() < n {
        Parsed::Incomplete
    } else {
        Parsed::Done(n, s.take(n as int))
    }
}

pub open spec fn spec_le_u8(s: Seq<u8>) -> Parsed<u8> {
    if s.len() < 1 {
        Parsed::Incomplete
    } else {
        Parsed::Done(1, s[0])
    }
}

pub open spec fn spec_le_u16(s: Seq<u8>) -> Parsed<u16> {
    if s.len() < 2 {
        Parsed::Incomplete
    } else {
        Parsed::Done(2, spec_u16_from_le_bytes(s.take(2)))
    }
}

pub open spec fn spec_le_u32(s: Seq<u8>) -> Parsed<u32> {
    if s.len() < 4 {
        Parsed::Incomplete
    } else {
        Parsed::Done(4, spec_u32_from_le_bytes(s.take(4)))
    }
}

pub open spec fn spec_le_u64(s: Seq<u8>) -> Parsed<u64> {
    if s.len() < 8 {
        Parsed::Incomplete
    } else {
        Parsed::Done(8, spec_u64_from_le_bytes(s.take(8)))
    }
}

pub open spec fn spec_le_i64(s: Seq<u8>) -> Parsed<i64> {
    if s.len() < 8 {
        Parsed::Incomplete
    } else {
        Parsed::Done(8, spec_u64_from_le_bytes(s.take(8)) as i64)
    }
}

pub open spec fn spec_i64_to_le_bytes(x: i64) -> Seq<u8> {
    spec_u64_to_le_bytes(x as u64)
}

/// Splits off the first `n` bytes of the input.
pub fn take(input: &[u8], n: usize) -> (res: Result<(&[u8], &[u8]), ParseError>)
    ensures
        parse_agrees(input@, res, spec_take(input@, n as nat), |t: &[u8]| t@),
{
    if input.len() < n {
        return Err(ParseError::Incomplete);
    }
    let head = slice_subrange(input, 0, n);
    let rest = slice_subrange(input, n, input.len());
    assert(rest@ =~= input@.skip(n as int));
    assert(head@ =~= input@.take(n as int));
    Ok((rest, head))
}

pub fn le_u8(input: &[u8]) -> (res: Result<(&[u8], u8), ParseError>)
    ensures
        parse_agrees(input@, res, spec_le_u8(input@), |t: u8| t),
{
    if input.len() < 1 {
        return Err(ParseError::Incomplete);
    }
    let b = input[0];
    let rest = slice_subrange(input, 1, input.len());
    assert(rest@ =~= input@.skip(1));
    Ok((rest, b))
}

pub fn le_u16(input: &[u8]) -> (res: Result<(&[u8], u16), ParseError>)
    ensures
        parse_agrees(input@, res, spec_le_u16(input@), |t: u16| t),
{
    let (rest, head) = take(input, 2)?;
    Ok((rest, u16_from_le_bytes(head)))
}

pub fn le_u32(input: &[u8]) -> (res: Result<(&[u8], u32), ParseError>)
    ensures
        parse_agrees(input@, res, spec_le_u32(input@), |t: u32| t),
{
    let (rest, head) = take(input, 4)?;
    Ok((rest, u32_from_le_bytes(head)))
}

pub fn le_u64(input: &[u8]) -> (res: Result<(&[u8], u64), ParseError>)
    ensures
        parse_agrees(input@, res, spec_le_u64(input@), |t: u64| t),
{
    let (rest, head) = take(input, 8)?;
    Ok((rest, u64_from_le_bytes(head)))
}

pub fn le_i64(input: &[u8]) -> (res: Result<(&[u8], i64), ParseError>)
    ensures
        parse_agrees(input@, res, spec_le_i64(input@), |t: i64| t),
{
    let (rest, head) = take(input, 8)?;
    let v = u64_from_le_bytes(head);
    Ok((rest, v as i64))
}

/// Appends the little-endian bytes of `x`.
pub fn put_u16(out: &mut Vec<u8>, x: u16)
    ensures
        final(out)@ == old(out)@ + spec_u16_to_le_bytes(x),
{
    let mut b = u16_to_le_bytes(x);
    out.append(&mut b);
}

pub fn put_u32(out: &mut Vec<u8>, x: u32)
    ensures
        final(out)@ == old(out)@ + spec_u32_to_le_bytes(x),
{
    let mut b = u32_to_le_bytes(x);
    out.append(&mut b);
}

pub fn put_u64(out: &mut Vec<u8>, x: u64)
    ensures
        final(out)@ == old(out)@ + spec_u64_to_le_bytes(x),
{
    let mut b = u64_to_le_bytes(x);
    out.append(&mut b);
}

pub fn put_i64(out: &mut Vec<u8>, x: i64)
    ensures
        final(out)@ == old(out)@ + spec_i64_to_le_bytes(x),
{
    put_u64(out, x as u64);
}

/// Appends every byte of `bytes`.
pub fn put_bytes(out: &mut Vec<u8>, bytes: &[u8])
    ensures
        final(out)@ == old(out)@ + bytes@,
{
    let mut i: usize = 0;
    let ghost start = out@;
    while i < bytes.len()
        invariant
            i <= bytes@.len(),
            out@ == start + bytes@.take(i as int),
        decreases bytes@.len() - i,
    {
        out.push(bytes[i]);
        i = i + 1;
        assert(out@ =~= start + bytes@.take(i as int));
    }
    assert(bytes@.take(i as int) =~= bytes@);
}

/// The little-endian encodings of the integer types decode back to the same integer.
pub proof fn lemma_le_roundtrips()
    ensures
        forall|x: u16| #[trigger] spec_u16_to_le_bytes(x).len() == 2 && spec_u16_from_le_bytes(spec_u16_to_le_bytes(x)) == x,
        forall|x: u32| #[trigger] spec_u32_to_le_bytes(x).len() == 4 && spec_u32_from_le_bytes(spec_u32_to_le_bytes(x)) == x,
        forall|x: u64| #[trigger] spec_u64_to_le_bytes(x).len() == 8 && spec_u64_from_le_bytes(spec_u64_to_le_bytes(x)) == x,
        forall|x: i64| #[trigger] spec_i64_to_le_bytes(x).len() == 8 && (spec_u64_from_le_bytes(spec_i64_to_le_bytes(x)) as i64) == x,
{
    lemma_auto_spec_u16_to_from_le_bytes();
    lemma_auto_spec_u32_to_from_le_bytes();
    lemma_auto_spec_u64_to_from_le_bytes();
    assert forall|x: i64| #[trigger] spec_i64_to_le_bytes(x).len() == 8 && (spec_u64_from_le_bytes(spec_i64_to_le_bytes(x)) as i64) == x by {
        assert(spec_u64_to_le_bytes(x as u64).len() == 8);
        assert(spec_u64_from_le_bytes(spec_u64_to_le_bytes(x as u64)) == x as u64);
        assert(((x as u64) as i64) == x) by (bit_vector);
    }
}

} // verus!
