use vstd::prelude::*;
use vstd::string::*;
use vstd::utf8::*;

use crate::codec::order::{bytes_eq, bytes_lt, lemma_seq_lt_asymmetric, lemma_seq_lt_irreflexive, lemma_seq_lt_total, lemma_seq_lt_transitive, seq_lt};
use crate::codec::parser::{
    le_u8, lemma_concat_push, lemma_prefix_outcome_empty, lemma_repeat_fail, lemma_repeat_roundtrip,
    lemma_repeat_step, parse_agrees, prefix_outcome, put_bytes, spec_concat_encodings, spec_le_u8, spec_repeat,
    take, EncodingError, ErrorKind, ParseError, Parsed,
};
use crate::codec::text::string_from_utf8;

verus! {

broadcast use vstd::seq::group_seq_axioms, vstd::slice::group_slice_axioms;

/// One attribute of a node: the UTF-8 bytes of its key, and its value.
pub type AttributePair = (Seq<u8>, Seq<u8>);

/// The attributes (metadata) of a node: values keyed by text, kept in ascending order of the
/// keys' UTF-8 bytes, which is the order they are encoded in.
pub struct Attributes {
    pub entries: Vec<(String, Vec<u8>)>,
}

impl View for Attributes {
    type V = Seq<AttributePair>;

    open spec fn view(&self) -> Seq<AttributePair> {
        self.entries@.map_values(|p: (String, Vec<u8>)| (encode_utf8(p.0@), p.1@))
    }
}

/// Keys strictly ascend, so no key occurs twice.
pub open spec fn spec_attributes_wf(m: Seq<AttributePair>) -> bool {
    forall|i: int, j: int| 0 <= i < j < m.len() ==> seq_lt(#[trigger] m[i].0, #[trigger] m[j].0)
}

/// The first position from `i` on whose key is not smaller than `key`.
pub open spec fn spec_lower_bound_from(m: Seq<AttributePair>, key: Seq<u8>, i: int) -> int
    decreases m.len() - i,
{
    if i < 0 || i >= m.len() {
        m.len() as int
    } else if !seq_lt(m[i].0, key) {
        i
    } else {
        spec_lower_bound_from(m, key, i + 1)
    }
}

pub open spec fn spec_lower_bound(m: Seq<AttributePair>, key: Seq<u8>) -> int {
    spec_lower_bound_from(m, key, 0)
}

/// The value stored under `key`.
pub open spec fn spec_attribute(m: Seq<AttributePair>, key: Seq<u8>) -> Option<Seq<u8>> {
    let p = spec_lower_bound(m, key);
    if 0 <= p < m.len() && m[p].0 == key {
        Some(m[p].1)
    } else {
        None
    }
}

/// The attributes with `value` stored under `key`, replacing any earlier value.
pub open spec fn spec_set_attribute(m: Seq<AttributePair>, key: Seq<u8>, value: Seq<u8>) -> Seq<AttributePair> {
    let p = spec_lower_bound(m, key);
    if 0 <= p < m.len() && m[p].0 == key {
        m.update(p, (key, value))
    } else {
        m.insert(p, (key, value))
    }
}

pub proof fn lemma_lower_bound_from(m: Seq<AttributePair>, key: Seq<u8>, i: int)
    requires
        0 <= i <= m.len(),
    ensures
        i <= spec_lower_bound_from(m, key, i) <= m.len(),
        forall|j: int| i <= j < spec_lower_bound_from(m, key, i) ==> seq_lt(#[trigger] m[j].0, key),
        spec_lower_bound_from(m, key, i) < m.len() ==> !seq_lt(m[spec_lower_bound_from(m, key, i)].0, key),
    decreases m.len() - i,
{
    if i < m.len() && seq_lt(m[i].0, key) {
        lemma_lower_bound_from(m, key, i + 1);
    }
}

/// In sorted attributes, keys before the lower bound are smaller and keys after it greater.
proof fn lemma_lower_bound_sorted(m: Seq<AttributePair>, key: Seq<u8>)
    requires
        spec_attributes_wf(m),
    ensures
        0 <= spec_lower_bound(m, key) <= m.len(),
        forall|j: int| 0 <= j < spec_lower_bound(m, key) ==> seq_lt(#[trigger] m[j].0, key),
        forall|j: int| spec_lower_bound(m, key) < j < m.len() ==> seq_lt(key, #[trigger] m[j].0),
        spec_lower_bound(m, key) < m.len() ==> m[spec_lower_bound(m, key)].0 == key || seq_lt(
            key,
            m[spec_lower_bound(m, key)].0,
        ),
{
    lemma_lower_bound_from(m, key, 0);
    let p = spec_lower_bound(m, key);
    if p < m.len() {
        lemma_seq_lt_total(m[p].0, key);
    }
    assert forall|j: int| p < j < m.len() implies seq_lt(key, #[trigger] m[j].0) by {
        assert(seq_lt(m[p].0, m[j].0));
        if m[p].0 != key {
            lemma_seq_lt_transitive(key, m[p].0, m[j].0);
        }
    }
}

/// Setting an attribute keeps the keys strictly ascending.
pub proof fn lemma_set_attribute_keeps_wf(m: Seq<AttributePair>, key: Seq<u8>, value: Seq<u8>)
    requires
        spec_attributes_wf(m),
    ensures
        spec_attributes_wf(spec_set_attribute(m, key, value)),
        spec_attribute(spec_set_attribute(m, key, value), key) == Some(value),
{
    lemma_lower_bound_sorted(m, key);
    let p = spec_lower_bound(m, key);
    let r = spec_set_attribute(m, key, value);
    if 0 <= p < m.len() && m[p].0 == key {
        assert forall|a: int, b: int| 0 <= a < b < r.len() implies seq_lt(#[trigger] r[a].0, #[trigger] r[b].0) by {
            assert(seq_lt(m[a].0, m[b].0));
        }
        lemma_lower_bound_from(r, key, 0);
        assert(spec_lower_bound(r, key) == p) by {
            let q = spec_lower_bound(r, key);
            if q < p {
                assert(r[q] == m[q]);
                assert(seq_lt(m[q].0, key));
            }
            if q > p {
                assert(seq_lt(r[p].0, key));
                lemma_seq_lt_irreflexive(key);
            }
        }
    } else {
        assert(forall|a: int| 0 <= a < p ==> r[a] == m[a]);
        assert(forall|a: int| p < a < r.len() ==> r[a] == m[a - 1]);
        assert forall|a: int, b: int| 0 <= a < b < r.len() implies seq_lt(#[trigger] r[a].0, #[trigger] r[b].0) by {
            if b < p {
            } else if b == p {
            } else if a < p {
                assert(seq_lt(m[a].0, key));
                assert(seq_lt(key, m[b - 1].0) || m[b - 1].0 == key);
                if b - 1 == p {
                } else {
                    lemma_seq_lt_transitive(m[a].0, key, m[b - 1].0);
                }
            } else if a == p {
                if b - 1 == p {
                } else {
                }
            } else {
            }
        }
        lemma_lower_bound_from(r, key, 0);
        assert(spec_lower_bound(r, key) == p) by {
            let q = spec_lower_bound(r, key);
            if q < p {
                assert(r[q] == m[q]);
                assert(seq_lt(m[q].0, key));
            }
            if q > p {
                assert(seq_lt(r[p].0, key));
                lemma_seq_lt_irreflexive(key);
            }
        }
    }
}

/// The encoding of one attribute: key length, key, value length, value.
pub open spec fn spec_encode_attribute(p: AttributePair) -> Seq<u8> {
    seq![p.0.len() as u8] + p.0 + seq![p.1.len() as u8] + p.1
}

pub open spec fn attribute_encoder() -> spec_fn(AttributePair) -> Seq<u8> {
    |p: AttributePair| spec_encode_attribute(p)
}

/// Parsing one attribute; a key that is not UTF-8 is rejected.
pub open spec fn spec_parse_attribute(s: Seq<u8>) -> Parsed<AttributePair> {
    if s.len() < 1 {
        Parsed::Incomplete
    } else if s.len() < 1 + s[0] {
        Parsed::Incomplete
    } else if !valid_utf8(s.subrange(1, 1 + s[0])) {
        Parsed::Invalid
    } else if s.len() < 2 + s[0] {
        Parsed::Incomplete
    } else if s.len() < 2 + s[0] + s[1 + s[0]] {
        Parsed::Incomplete
    } else {
        Parsed::Done(
            (2 + s[0] + s[1 + s[0]]) as nat,
            (s.subrange(1, 1 + s[0]), s.subrange(2 + s[0], 2 + s[0] + s[1 + s[0]])),
        )
    }
}

pub open spec fn attribute_parser() -> spec_fn(Seq<u8>) -> Parsed<AttributePair> {
    |s: Seq<u8>| spec_parse_attribute(s)
}

pub open spec fn spec_attribute_pair_wf(p: AttributePair) -> bool {
    p.0.len() <= 255 && p.1.len() <= 255 && valid_utf8(p.0)
}

pub open spec fn attribute_wf() -> spec_fn(AttributePair) -> bool {
    |p: AttributePair| spec_attribute_pair_wf(p)
}

/// The encoding of all attributes: an 8 bit count, then each attribute in key order.
pub open spec fn spec_encode_attributes(m: Seq<AttributePair>) -> Seq<u8> {
    seq![m.len() as u8] + spec_concat_encodings(m, attribute_encoder())
}

/// The first attribute from position `i` on with a key or value too long to encode.
pub open spec fn spec_first_long_attribute_from(m: Seq<AttributePair>, i: int) -> Option<EncodingError>
    decreases m.len() - i,
{
    if i < 0 || i >= m.len() {
        None
    } else if m[i].0.len() > 255 {
        Some(EncodingError::MetadataKeyTooLong)
    } else if m[i].1.len() > 255 {
        Some(EncodingError::MetadataValueTooLong)
    } else {
        spec_first_long_attribute_from(m, i + 1)
    }
}

pub open spec fn spec_attributes_encode_error(m: Seq<AttributePair>) -> Option<EncodingError> {
    if m.len() > 255 {
        Some(EncodingError::TooManyMetadataEntries)
    } else {
        spec_first_long_attribute_from(m, 0)
    }
}

/// The attributes built by storing parsed attributes one after another.
pub open spec fn spec_build_attributes(ps: Seq<AttributePair>) -> Seq<AttributePair>
    decreases ps.len(),
{
    if ps.len() == 0 {
        Seq::empty()
    } else {
        spec_set_attribute(spec_build_attributes(ps.drop_last()), ps.last().0, ps.last().1)
    }
}

pub open spec fn spec_parse_attributes(s: Seq<u8>) -> Parsed<Seq<AttributePair>> {
    match spec_le_u8(s) {
        Parsed::Done(_, count) => match spec_repeat(s.skip(1), count as nat, attribute_parser()) {
            Parsed::Done(n, ps) => Parsed::Done(1 + n, spec_build_attributes(ps)),
            Parsed::Incomplete => Parsed::Incomplete,
            Parsed::Invalid => Parsed::Invalid,
        },
        Parsed::Incomplete => Parsed::Incomplete,
        Parsed::Invalid => Parsed::Invalid,
    }
}

/// The bytes that attributes add to the size estimate of a node: two length bytes, the key and
/// the value of each.
pub open spec fn spec_attributes_size(m: Seq<AttributePair>) -> int
    decreases m.len(),
{
    if m.len() == 0 {
        0
    } else {
        spec_attributes_size(m.drop_last()) + 2 + m.last().0.len() + m.last().1.len()
    }
}

proof fn lemma_attribute_roundtrip(p: AttributePair, rest: Seq<u8>)
    requires
        spec_attribute_pair_wf(p),
    ensures
        spec_parse_attribute(spec_encode_attribute(p) + rest) == Parsed::Done(spec_encode_attribute(p).len(), p),
{
    let s = spec_encode_attribute(p) + rest;
    let k = p.0.len() as int;
    assert(s[0] == k as u8);
    assert(s.subrange(1, 1 + k) =~= p.0);
    assert(s[1 + k] == p.1.len() as u8);
    assert(s.subrange(2 + k, 2 + k + p.1.len()) =~= p.1);
}

proof fn lemma_attributes_roundtrip_all()
    ensures
        forall|p: AttributePair, r: Seq<u8>| #[trigger] attribute_wf()(p) ==> #[trigger] attribute_parser()(
            attribute_encoder()(p) + r,
        ) == Parsed::Done(attribute_encoder()(p).len(), p),
{
    assert forall|p: AttributePair, r: Seq<u8>| #[trigger] attribute_wf()(p) implies #[trigger] attribute_parser()(
        attribute_encoder()(p) + r,
    ) == Parsed::Done(attribute_encoder()(p).len(), p) by {
        lemma_attribute_roundtrip(p, r);
    }
}

proof fn lemma_first_long_attribute_none(m: Seq<AttributePair>, i: int)
    requires
        0 <= i <= m.len(),
        spec_first_long_attribute_from(m, i) is None,
    ensures
        forall|j: int| i <= j < m.len() ==> #[trigger] m[j].0.len() <= 255 && m[j].1.len() <= 255,
    decreases m.len() - i,
{
    if i < m.len() {
        lemma_first_long_attribute_none(m, i + 1);
    }
}

/// Storing the attributes of sorted attributes one after another rebuilds them.
proof fn lemma_build_attributes_sorted(m: Seq<AttributePair>)
    requires
        spec_attributes_wf(m),
    ensures
        spec_build_attributes(m) == m,
    decreases m.len(),
{
    if m.len() > 0 {
        let init = m.drop_last();
        lemma_build_attributes_sorted(init);
        let (k, v) = m.last();
        lemma_lower_bound_from(init, k, 0);
        assert forall|j: int| 0 <= j < init.len() implies seq_lt(#[trigger] init[j].0, k) by {
            assert(init[j] == m[j]);
        }
        assert(spec_lower_bound(init, k) == init.len()) by {
            if spec_lower_bound(init, k) < init.len() {
                let q = spec_lower_bound(init, k);
                assert(seq_lt(init[q].0, k));
            }
        }
        assert(init.insert(init.len() as int, (k, v)) =~= m);
    } else {
        assert(m =~= Seq::<AttributePair>::empty());
    }
}

/// Sorted attributes whose keys are UTF-8 and that fit the length fields read back unchanged.
pub proof fn lemma_attributes_roundtrip(m: Seq<AttributePair>, rest: Seq<u8>)
    requires
        spec_attributes_wf(m),
        spec_attributes_encode_error(m) is None,
        forall|i: int| 0 <= i < m.len() ==> valid_utf8(#[trigger] m[i].0),
    ensures
        spec_parse_attributes(spec_encode_attributes(m) + rest) == Parsed::Done(spec_encode_attributes(m).len(), m),
{
    let s = spec_encode_attributes(m) + rest;
    lemma_first_long_attribute_none(m, 0);
    assert forall|i: int| 0 <= i < m.len() implies #[trigger] attribute_wf()(m[i]) by {
        assert(m[i].0.len() <= 255 && m[i].1.len() <= 255);
    }
    lemma_attributes_roundtrip_all();
    lemma_repeat_roundtrip(m, rest, attribute_encoder(), attribute_parser(), attribute_wf());
    assert(s.skip(1) =~= spec_concat_encodings(m, attribute_encoder()) + rest);
    lemma_build_attributes_sorted(m);
}

impl Attributes {
    pub fn new() -> (r: Attributes)
        ensures
            r@ == Seq::<AttributePair>::empty(),
    {
        Attributes { entries: Vec::new() }
    }

    pub fn len(&self) -> (r: usize)
        ensures
            r == self@.len(),
    {
        self.entries.len()
    }

    fn lower_bound(&self, key: &[u8]) -> (r: usize)
        ensures
            r == spec_lower_bound(self@, key@),
            r <= self@.len(),
    {
        proof {
            lemma_lower_bound_from(self@, key@, 0);
        }
        let mut i: usize = 0;
        while i < self.entries.len()
            invariant
                i <= self@.len(),
                self@.len() == self.entries@.len(),
                spec_lower_bound(self@, key@) == spec_lower_bound_from(self@, key@, i as int),
            decreases self@.len() - i,
        {
            assert(self@[i as int].0 == encode_utf8(self.entries@[i as int].0@));
            if !bytes_lt(self.entries[i].0.as_str().as_bytes(), key) {
                return i;
            }
            i = i + 1;
        }
        i
    }

    /// The value stored under `key`.
    pub fn get(&self, key: &str) -> (r: Option<&Vec<u8>>)
        ensures
            match spec_attribute(self@, encode_utf8(key@)) {
                Some(v) => r matches Some(x) && x@ == v,
                None => r is None,
            },
    {
        let kb = key.as_bytes();
        let p = self.lower_bound(kb);
        if p < self.entries.len() && bytes_eq(self.entries[p].0.as_str().as_bytes(), kb) {
            assert(self@[p as int] == (encode_utf8(self.entries@[p as int].0@), self.entries@[p as int].1@));
            Some(&self.entries[p].1)
        } else {
            None
        }
    }

    /// Stores `value` under `key` and returns the value it replaced.
    pub fn insert(&mut self, key: String, value: Vec<u8>) -> (r: Option<Vec<u8>>)
        ensures
            final(self)@ == spec_set_attribute(old(self)@, encode_utf8(key@), value@),
            match spec_attribute(old(self)@, encode_utf8(key@)) {
                Some(v) => r matches Some(x) && x@ == v,
                None => r is None,
            },
    {
        let ghost kb = encode_utf8(key@);
        let ghost vv = value@;
        let p = self.lower_bound(key.as_str().as_bytes());
        if p < self.entries.len() && bytes_eq(self.entries[p].0.as_str().as_bytes(), key.as_str().as_bytes()) {
            let (_, old_value) = self.entries.remove(p);
            self.entries.insert(p, (key, value));
            assert(self@ =~= spec_set_attribute(old(self)@, kb, vv));
            Some(old_value)
        } else {
            self.entries.insert(p, (key, value));
            assert(self@ =~= spec_set_attribute(old(self)@, kb, vv));
            None
        }
    }

    /// The attributes' contribution to a node's size estimate.
    pub fn size(&self) -> (r: usize)
        requires
            spec_attributes_size(self@) <= usize::MAX,
        ensures
            r == spec_attributes_size(self@),
    {
        let ghost m = self@;
        let mut total: usize = 0;
        let mut i: usize = 0;
        assert(m.take(0) =~= Seq::<AttributePair>::empty());
        while i < self.entries.len()
            invariant
                m == self@,
                i <= m.len(),
                m.len() == self.entries@.len(),
                spec_attributes_size(m) <= usize::MAX,
                total == spec_attributes_size(m.take(i as int)),
            decreases m.len() - i,
        {
            proof {
                assert(m.take(i + 1).drop_last() =~= m.take(i as int));
                lemma_attributes_size_monotone(m, i + 1);
            }
            assert(m[i as int] == (encode_utf8(self.entries@[i as int].0@), self.entries@[i as int].1@));
            total = total + 2 + self.entries[i].0.as_str().as_bytes().len() + self.entries[i].1.len();
            i = i + 1;
        }
        assert(m.take(i as int) =~= m);
        total
    }

    /// Appends the encoding of the attributes. On an error the output is left as it was.
    pub fn encode(&self, out: &mut Vec<u8>) -> (r: Result<usize, EncodingError>)
        ensures
            match spec_attributes_encode_error(self@) {
                Some(e) => r == Err::<usize, EncodingError>(e) && final(out)@ == old(out)@,
                None => r == Ok::<usize, EncodingError>(spec_encode_attributes(self@).len() as usize)
                    && final(out)@ == old(out)@ + spec_encode_attributes(self@),
            },
    {
        let count = self.entries.len();
        if count > 255 {
            return Err(EncodingError::TooManyMetadataEntries);
        }
        let mut buf: Vec<u8> = Vec::new();
        buf.push(count as u8);
        let mut i: usize = 0;
        assert(self@.take(0) =~= Seq::<AttributePair>::empty());
        while i < count
            invariant
                count == self@.len() == self.entries@.len(),
                count <= 255,
                i <= count,
                spec_first_long_attribute_from(self@, 0) == spec_first_long_attribute_from(self@, i as int),
                buf@ == seq![count as u8] + spec_concat_encodings(self@.take(i as int), attribute_encoder()),
            decreases count - i,
        {
            assert(self@[i as int] == (encode_utf8(self.entries@[i as int].0@), self.entries@[i as int].1@));
            let key = self.entries[i].0.as_str().as_bytes();
            let value = self.entries[i].1.as_slice();
            if key.len() > 255 {
                return Err(EncodingError::MetadataKeyTooLong);
            }
            if value.len() > 255 {
                return Err(EncodingError::MetadataValueTooLong);
            }
            let ghost before = buf@;
            buf.push(key.len() as u8);
            put_bytes(&mut buf, key);
            buf.push(value.len() as u8);
            put_bytes(&mut buf, value);
            proof {
                assert(buf@ =~= before + spec_encode_attribute(self@[i as int]));
                assert(self@.take(i + 1) =~= self@.take(i as int).push(self@[i as int]));
                lemma_concat_push(self@.take(i as int), self@[i as int], attribute_encoder());
            }
            i = i + 1;
        }
        assert(self@.take(i as int) =~= self@);
        let written = buf.len();
        put_bytes(out, buf.as_slice());
        Ok(written)
    }

    /// Parses an 8 bit count and that many attributes, storing each in turn.
    pub fn parse(input: &[u8]) -> (res: Result<(&[u8], Attributes), ParseError>)
        ensures
            parse_agrees(input@, res, spec_parse_attributes(input@), |a: Attributes| a@),
    {
        let (rest0, count) = le_u8(input)?;
        assert(rest0@ =~= input@.skip(1));
        let ghost body = input@.skip(1);
        let mut attrs = Attributes::new();
        let mut rest = rest0;
        let mut i: u8 = 0;
        let ghost mut m: nat = 0;
        let ghost mut ps: Seq<AttributePair> = Seq::empty();
        proof {
            lemma_prefix_outcome_empty(spec_repeat(body, count as nat, attribute_parser()));
            assert(body.skip(0) =~= body);
        }
        while i < count
            invariant
                i <= count,
                m <= body.len(),
                body == input@.skip(1),
                spec_le_u8(input@) == Parsed::Done(1, count),
                rest@ == body.skip(m as int),
                attrs@ == spec_build_attributes(ps),
                spec_repeat(body, count as nat, attribute_parser()) == prefix_outcome(
                    m,
                    ps,
                    spec_repeat(body.skip(m as int), (count - i) as nat, attribute_parser()),
                ),
            decreases count - i,
        {
            proof {
                assert(attribute_parser()(body.skip(m as int)) == spec_parse_attribute(rest@));
            }
            match Attributes::parse_one(rest) {
                Ok((next, key, value)) => {
                    let ghost k = (rest@.len() - next@.len()) as nat;
                    let ghost pair = (encode_utf8(key@), value@);
                    proof {
                        lemma_repeat_step(body, m, ps, (count - i) as nat, attribute_parser(), k, pair);
                    }
                    attrs.insert(key, value);
                    proof {
                        let old_ps = ps;
                        ps = ps.push(pair);
                        assert(ps.drop_last() =~= old_ps);
                        m = m + k;
                        assert(next@ =~= body.skip(m as int));
                    }
                    rest = next;
                    i = i + 1;
                },
                Err(e) => {
                    proof {
                        lemma_repeat_fail(body.skip(m as int), (count - i) as nat, attribute_parser());
                    }
                    return Err(e);
                },
            }
        }
        proof {
            assert(ps + Seq::<AttributePair>::empty() =~= ps);
            assert(rest@ =~= input@.skip(1 + m as int));
        }
        Ok((rest, attrs))
    }

    fn parse_one(input: &[u8]) -> (res: Result<(&[u8], String, Vec<u8>), ParseError>)
        ensures
            match spec_parse_attribute(input@) {
                Parsed::Done(n, p) => res matches Ok((rest, k, v)) && n <= input@.len() && rest@ == input@.skip(
                    n as int,
                ) && encode_utf8(k@) == p.0 && v@ == p.1,
                Parsed::Incomplete => res matches Err(ParseError::Incomplete),
                Parsed::Invalid => res matches Err(ParseError::Invalid(_)),
            },
    {
        let (r1, key_len) = le_u8(input)?;
        let (r2, key_bytes) = take(r1, key_len as usize)?;
        assert(key_bytes@ =~= input@.subrange(1, 1 + input@[0]));
        let key = match string_from_utf8(key_bytes) {
            Some(k) => k,
            None => return Err(ParseError::Invalid(ErrorKind::Token)),
        };
        proof {
            decode_utf8_encode_utf8(key_bytes@);
        }
        let (r3, value_len) = le_u8(r2)?;
        assert(r2@ =~= input@.skip(1 + input@[0]));
        let (r4, value_bytes) = take(r3, value_len as usize)?;
        assert(value_bytes@ =~= input@.subrange(2 + input@[0], 2 + input@[0] + input@[1 + input@[0]]));
        assert(r4@ =~= input@.skip(2 + input@[0] + input@[1 + input@[0]]));
        let mut value: Vec<u8> = Vec::new();
        put_bytes(&mut value, value_bytes);
        Ok((r4, key, value))
    }
}

/// Attributes that can be encoded take at most 512 bytes each in the size estimate.
pub proof fn lemma_attributes_size_bound(m: Seq<AttributePair>)
    requires
        spec_attributes_encode_error(m) is None,
    ensures
        0 <= spec_attributes_size(m) <= 255 * 512,
{
    lemma_first_long_attribute_none(m, 0);
    lemma_attributes_size_prefix_bound(m, m.len() as int);
    assert(m.take(m.len() as int) =~= m);
}

proof fn lemma_attributes_size_prefix_bound(m: Seq<AttributePair>, i: int)
    requires
        0 <= i <= m.len() <= 255,
        forall|j: int| 0 <= j < m.len() ==> #[trigger] m[j].0.len() <= 255 && m[j].1.len() <= 255,
    ensures
        0 <= spec_attributes_size(m.take(i)) <= i * 512,
    decreases i,
{
    if i > 0 {
        lemma_attributes_size_prefix_bound(m, i - 1);
        assert(m.take(i).drop_last() =~= m.take(i - 1));
        assert(m.take(i).last() == m[i - 1]);
    } else {
        assert(m.take(0) =~= Seq::<AttributePair>::empty());
    }
}

/// The attributes never take a negative number of bytes.
pub proof fn lemma_attributes_size_nonneg(m: Seq<AttributePair>)
    ensures
        spec_attributes_size(m) >= 0,
{
    lemma_attributes_size_monotone(m, 0);
    assert(m.take(0) =~= Seq::<AttributePair>::empty());
}

proof fn lemma_attributes_size_monotone(m: Seq<AttributePair>, i: int)
    requires
        0 <= i <= m.len(),
    ensures
        spec_attributes_size(m.take(i)) <= spec_attributes_size(m),
    decreases m.len() - i,
{
    if i < m.len() {
        lemma_attributes_size_monotone(m, i + 1);
        assert(m.take(i + 1).drop_last() =~= m.take(i));
    } else {
        assert(m.take(i) =~= m);
    }
}

} // verus!
