use chacha20poly1305::aead::{AeadInPlace, KeyInit};
use chacha20poly1305::{Key as ChaChaKey, Tag as ChaChaTag, XChaCha20Poly1305, XNonce as ChaChaNonce};
use rand::Rng;
use rand_chacha::ChaCha20Rng;
use vstd::prelude::*;

use crate::codec::ids::array_from_slice;
use crate::codec::parser::{parse_agrees, put_bytes, spec_take, take, ErrorKind, ParseError, Parsed};

verus! {

broadcast use vstd::seq::group_seq_axioms, vstd::slice::group_slice_axioms, vstd::array::group_array_axioms;

#[verifier::external_type_specification]
#[verifier::external_body]
pub struct ExChaCha20Rng(ChaCha20Rng);

/// `Rng::gen` for 32 random bytes; nothing is known of the bytes.
#[verifier::external_body]
pub(crate) fn random_bytes_32(rng: &mut ChaCha20Rng) -> [u8; 32] {
    rng.gen()
}

/// `Rng::gen` for 24 random bytes; nothing is known of the bytes.
#[verifier::external_body]
pub(crate) fn random_bytes_24(rng: &mut ChaCha20Rng) -> [u8; 24] {
    rng.gen()
}

/// `Rng::gen` for 16 random bytes; nothing is known of the bytes.
#[verifier::external_body]
pub(crate) fn random_bytes_16(rng: &mut ChaCha20Rng) -> [u8; 16] {
    rng.gen()
}

/// The ciphertext followed by the 16 byte tag that XChaCha20-Poly1305 produces for `plaintext`
/// under `key` and `nonce`, with no associated data.
pub uninterp spec fn xchacha20poly1305_seal(key: Seq<u8>, nonce: Seq<u8>, plaintext: Seq<u8>) -> Seq<u8>;

/// The most plaintext sealed in one call: a data chunk. The crate refuses only buffers of
/// 2^32 blocks of 64 bytes or more.
pub const MAX_SEALED_LENGTH: usize = 262144;

/// `XChaCha20Poly1305::encrypt_in_place_detached` with no associated data: the result is the
/// named seal, split into the ciphertext, as long as the plaintext, and the 16 byte tag. The
/// crate rejects only buffers of 2^32 blocks or more, so a buffer of this size is always sealed.
#[verifier::external_body]
pub(crate) fn xchacha_seal(key: &[u8; 32], nonce: &[u8; 24], plaintext: &[u8]) -> (r: Option<(Vec<u8>, [u8; 16])>)
    requires
        plaintext@.len() <= MAX_SEALED_LENGTH,
    ensures
        r is Some,
        r matches Some((c, t)) ==> c@.len() == plaintext@.len() && c@ + t@ == xchacha20poly1305_seal(
            key@,
            nonce@,
            plaintext@,
        ),
{
    let cipher = XChaCha20Poly1305::new(ChaChaKey::from_slice(key));
    let mut buffer = plaintext.to_vec();
    match cipher.encrypt_in_place_detached(ChaChaNonce::from_slice(nonce), &[], buffer.as_mut_slice()) {
        Ok(tag) => Some((buffer, tag.into())),
        Err(_) => None,
    }
}

/// `XChaCha20Poly1305::decrypt_in_place_detached` with no associated data. The tag is checked
/// first; ciphertext and tag that `encrypt_in_place_detached` made from a plaintext under the
/// same key and nonce always give that plaintext back. What comes back for other inputs is not
/// stated.
#[verifier::external_body]
pub(crate) fn xchacha_open(key: &[u8; 32], nonce: &[u8; 24], cipher_text: &[u8], tag: &[u8; 16]) -> (r: Option<Vec<u8>>)
    ensures
        forall|p: Seq<u8>|
            p.len() <= MAX_SEALED_LENGTH && cipher_text@ + tag@ == #[trigger] xchacha20poly1305_seal(key@, nonce@, p)
                ==> r is Some && r.unwrap()@ == p,
{
    let cipher = XChaCha20Poly1305::new(ChaChaKey::from_slice(key));
    let mut buffer = cipher_text.to_vec();
    match cipher.decrypt_in_place_detached(
        ChaChaNonce::from_slice(nonce),
        &[],
        buffer.as_mut_slice(),
        ChaChaTag::from_slice(tag),
    ) {
        Ok(()) => Some(buffer),
        Err(_) => None,
    }
}

pub const KEY_LENGTH: usize = 32;

pub const NONCE_LENGTH: usize = 24;

pub const TAG_LENGTH: usize = 16;

/// The 24 byte nonce of an XChaCha20-Poly1305 seal.
#[derive(Clone, Copy, Debug)]
pub struct Nonce(pub [u8; 24]);

impl View for Nonce {
    type V = Seq<u8>;

    open spec fn view(&self) -> Seq<u8> {
        self.0@
    }
}

/// Reading a nonce that must be the whole input: the input is the nonce, a shorter one may
/// still grow into one, and a longer one never will.
pub open spec fn spec_parse_nonce_complete(s: Seq<u8>) -> Parsed<Seq<u8>> {
    if s.len() < NONCE_LENGTH {
        Parsed::Incomplete
    } else if s.len() == NONCE_LENGTH {
        Parsed::Done(NONCE_LENGTH as nat, s)
    } else {
        Parsed::Invalid
    }
}

impl Nonce {
    pub fn as_bytes(&self) -> (r: &[u8; 24])
        ensures
            r@ == self@,
    {
        &self.0
    }

    /// A fresh random nonce.
    pub fn generate(rng: &mut ChaCha20Rng) -> (r: Nonce) {
        Nonce(random_bytes_24(rng))
    }

    /// Reads the first 24 bytes of the input as a nonce.
    pub fn parse(input: &[u8]) -> (res: Result<(&[u8], Nonce), ParseError>)
        ensures
            parse_agrees(input@, res, spec_take(input@, NONCE_LENGTH as nat), |n: Nonce| n@),
    {
        let (rest, bytes) = take(input, NONCE_LENGTH)?;
        Ok((rest, Nonce(array_from_slice::<24>(bytes))))
    }

    /// Reads a nonce that must be the entire input.
    pub fn parse_complete(input: &[u8]) -> (res: Result<Nonce, ParseError>)
        ensures
            match spec_parse_nonce_complete(input@) {
                Parsed::Done(_, v) => res matches Ok(n) && n@ == v,
                Parsed::Incomplete => res == Err::<Nonce, ParseError>(ParseError::Incomplete),
                Parsed::Invalid => res == Err::<Nonce, ParseError>(ParseError::Invalid(ErrorKind::Eof)),
            },
    {
        let (rest, nonce) = Nonce::parse(input)?;
        if rest.len() != 0 {
            return Err(ParseError::Invalid(ErrorKind::Eof));
        }
        assert(input@.take(24) =~= input@);
        Ok(nonce)
    }
}

/// A symmetric key protecting drive metadata or file data.
#[derive(Clone, Copy, Debug)]
pub struct AccessKey(pub [u8; 32]);

impl View for AccessKey {
    type V = Seq<u8>;

    open spec fn view(&self) -> Seq<u8> {
        self.0@
    }
}

impl AccessKey {
    /// A fresh random key.
    pub fn generate(rng: &mut ChaCha20Rng) -> (r: AccessKey) {
        AccessKey(random_bytes_32(rng))
    }

    pub fn from_bytes(key: [u8; 32]) -> (r: AccessKey)
        ensures
            r@ == key@,
    {
        AccessKey(key)
    }

    pub fn as_bytes(&self) -> (r: &[u8; 32])
        ensures
            r@ == self@,
    {
        &self.0
    }

    /// Seals this key under `wrapping_key` with a fresh random nonce.
    pub fn lock_with(&self, rng: &mut ChaCha20Rng, wrapping_key: &AccessKey) -> (r: SymLockedAccessKey)
        ensures
            r.cipher_text@ + r.tag@ == xchacha20poly1305_seal(wrapping_key@, r.nonce@, self@),
    {
        let nonce = random_bytes_24(rng);
        SymLockedAccessKey::seal(nonce, self, wrapping_key)
    }
}

/// A key sealed under another key: nonce, ciphertext and authentication tag.
#[derive(Clone, Copy, Debug)]
pub struct SymLockedAccessKey {
    pub nonce: [u8; 24],
    pub cipher_text: [u8; 32],
    pub tag: [u8; 16],
}

pub struct SymLockedAccessKeyView {
    pub nonce: Seq<u8>,
    pub cipher_text: Seq<u8>,
    pub tag: Seq<u8>,
}

impl View for SymLockedAccessKey {
    type V = SymLockedAccessKeyView;

    open spec fn view(&self) -> SymLockedAccessKeyView {
        SymLockedAccessKeyView { nonce: self.nonce@, cipher_text: self.cipher_text@, tag: self.tag@ }
    }
}

pub const SYM_LOCKED_ACCESS_KEY_SIZE: usize = 72;

pub open spec fn spec_locked_key_wf(k: SymLockedAccessKeyView) -> bool {
    k.nonce.len() == NONCE_LENGTH && k.cipher_text.len() == KEY_LENGTH && k.tag.len() == TAG_LENGTH
}

pub open spec fn spec_encode_locked_key(k: SymLockedAccessKeyView) -> Seq<u8> {
    k.nonce + k.cipher_text + k.tag
}

pub open spec fn spec_parse_locked_key(s: Seq<u8>) -> Parsed<SymLockedAccessKeyView> {
    if s.len() < SYM_LOCKED_ACCESS_KEY_SIZE {
        Parsed::Incomplete
    } else {
        Parsed::Done(
            SYM_LOCKED_ACCESS_KEY_SIZE as nat,
            SymLockedAccessKeyView {
                nonce: s.subrange(0, 24),
                cipher_text: s.subrange(24, 56),
                tag: s.subrange(56, 72),
            },
        )
    }
}

impl SymLockedAccessKey {
    /// Seals `key` under `wrapping_key` with the given nonce.
    pub fn seal(nonce: [u8; 24], key: &AccessKey, wrapping_key: &AccessKey) -> (r: SymLockedAccessKey)
        ensures
            r.nonce@ == nonce@,
            r.cipher_text@ + r.tag@ == xchacha20poly1305_seal(wrapping_key@, nonce@, key@),
    {
        match xchacha_seal(&wrapping_key.0, &nonce, key.0.as_slice()) {
            Some((cipher_text, tag)) => {
                let cipher_text = array_from_slice::<32>(cipher_text.as_slice());
                SymLockedAccessKey { nonce, cipher_text, tag }
            },
            None => {
                assert(false);
                SymLockedAccessKey { nonce, cipher_text: [0u8; 32], tag: [0u8; 16] }
            },
        }
    }

    /// Recovers the sealed key with `wrapping_key`; fails when the tag does not authenticate.
    /// A key sealed under `wrapping_key` always comes back.
    pub fn unlock(&self, wrapping_key: &AccessKey) -> (r: Result<AccessKey, crate::codec::crypto::CryptoError>)
        ensures
            forall|p: Seq<u8>|
                p.len() == 32 && self.cipher_text@ + self.tag@ == #[trigger] xchacha20poly1305_seal(wrapping_key@, self.nonce@, p)
                    ==> (r matches Ok(k) && k@ == p),
    {
        match xchacha_open(&wrapping_key.0, &self.nonce, self.cipher_text.as_slice(), &self.tag) {
            Some(key) => if key.len() == KEY_LENGTH {
                Ok(AccessKey(array_from_slice::<32>(key.as_slice())))
            } else {
                Err(CryptoError::AuthenticationFailed)
            },
            None => Err(CryptoError::AuthenticationFailed),
        }
    }

    pub fn size() -> (r: usize)
        ensures
            r == SYM_LOCKED_ACCESS_KEY_SIZE,
    {
        SYM_LOCKED_ACCESS_KEY_SIZE
    }

    pub fn encode(&self, out: &mut Vec<u8>) -> (r: usize)
        ensures
            final(out)@ == old(out)@ + spec_encode_locked_key(self@),
            r == SYM_LOCKED_ACCESS_KEY_SIZE,
    {
        let ghost start = out@;
        put_bytes(out, self.nonce.as_slice());
        put_bytes(out, self.cipher_text.as_slice());
        put_bytes(out, self.tag.as_slice());
        assert(out@ =~= start + spec_encode_locked_key(self@));
        SYM_LOCKED_ACCESS_KEY_SIZE
    }

    pub fn parse(input: &[u8]) -> (res: Result<(&[u8], SymLockedAccessKey), ParseError>)
        ensures
            parse_agrees(input@, res, spec_parse_locked_key(input@), |k: SymLockedAccessKey| k@),
    {
        let (rest, bytes) = take(input, SYM_LOCKED_ACCESS_KEY_SIZE)?;
        let nonce = array_from_slice::<24>(vstd::slice::slice_subrange(bytes, 0, 24));
        let cipher_text = array_from_slice::<32>(vstd::slice::slice_subrange(bytes, 24, 56));
        let tag = array_from_slice::<16>(vstd::slice::slice_subrange(bytes, 56, 72));
        assert(nonce@ =~= input@.subrange(0, 24));
        assert(cipher_text@ =~= input@.subrange(24, 56));
        assert(tag@ =~= input@.subrange(56, 72));
        Ok((rest, SymLockedAccessKey { nonce, cipher_text, tag }))
    }
}

/// A sealed key reads back as the same sealed key, whatever follows it.
pub proof fn lemma_locked_key_roundtrip(k: SymLockedAccessKeyView, rest: Seq<u8>)
    requires
        spec_locked_key_wf(k),
    ensures
        spec_parse_locked_key(spec_encode_locked_key(k) + rest) == Parsed::Done(SYM_LOCKED_ACCESS_KEY_SIZE as nat, k),
        spec_encode_locked_key(k).len() == SYM_LOCKED_ACCESS_KEY_SIZE,
{
    let s = spec_encode_locked_key(k) + rest;
    assert(s.subrange(0, 24) =~= k.nonce);
    assert(s.subrange(24, 56) =~= k.cipher_text);
    assert(s.subrange(56, 72) =~= k.tag);
}

/// Failures of the cryptographic primitives.
#[derive(Debug, Clone, Copy, PartialEq, Eq, Structural)]
pub enum CryptoError {
    /// The authentication tag did not match: wrong key or altered data.
    AuthenticationFailed,
}

} // verus!
