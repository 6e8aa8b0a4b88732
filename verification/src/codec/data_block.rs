use rand_chacha::ChaCha20Rng;
use vstd::prelude::*;

use crate::codec::blocks::BlockSize;
use crate::codec::crypto::{random_bytes_24, xchacha20poly1305_seal, xchacha_open, xchacha_seal, AccessKey, MAX_SEALED_LENGTH};
use crate::codec::ids::array_from_slice;
use crate::codec::parser::put_bytes;

verus! {

broadcast use vstd::seq::group_seq_axioms, vstd::slice::group_slice_axioms;

/// The most file data one data block carries.
pub const DATA_CHUNK_SIZE: usize = 262144;

/// What a data block adds to its chunk: the 24 byte nonce in front and the 16 byte tag behind.
pub const DATA_BLOCK_OVERHEAD: usize = 40;

/// A data block as it is stored: a nonce, then the chunk sealed under the file's key with it.
pub open spec fn spec_sealed_block(key: Seq<u8>, nonce: Seq<u8>, chunk: Seq<u8>) -> Seq<u8> {
    nonce + xchacha20poly1305_seal(key, nonce, chunk)
}

/// `block` holds `chunk` sealed under `key` with some nonce.
pub open spec fn spec_block_of(key: Seq<u8>, chunk: Seq<u8>, block: Seq<u8>) -> bool {
    exists|nonce: Seq<u8>|
        nonce.len() == 24 && block.len() == chunk.len() + DATA_BLOCK_OVERHEAD && block == #[trigger] spec_sealed_block(
            key,
            nonce,
            chunk,
        )
}

/// The geometry recorded for data blocks: one chunk of `DATA_CHUNK_SIZE` bytes per block.
pub fn data_block_size() -> (r: BlockSize)
    ensures
        r == (BlockSize { block_power: 18, chunk_power: 18 }),
{
    BlockSize { block_power: 18, chunk_power: 18 }
}

/// Seals one chunk of file data under `key` with a fresh random nonce.
pub fn seal_block(rng: &mut ChaCha20Rng, key: &AccessKey, chunk: &[u8]) -> (r: Vec<u8>)
    requires
        chunk@.len() <= DATA_CHUNK_SIZE,
    ensures
        spec_block_of(key@, chunk@, r@),
{
    let nonce = random_bytes_24(rng);
    match xchacha_seal(&key.0, &nonce, chunk) {
        Some((cipher_text, tag)) => {
            let mut out: Vec<u8> = Vec::new();
            put_bytes(&mut out, nonce.as_slice());
            put_bytes(&mut out, cipher_text.as_slice());
            put_bytes(&mut out, tag.as_slice());
            assert(out@ =~= spec_sealed_block(key@, nonce@, chunk@));
            out
        },
        None => {
            assert(false);
            Vec::new()
        },
    }
}

/// Recovers the chunk a data block holds; `None` when the block is too short or does not
/// authenticate under `key`. A block sealed under `key` always gives its chunk back.
pub fn open_block(key: &AccessKey, block: &[u8]) -> (r: Option<Vec<u8>>)
    ensures
        forall|chunk: Seq<u8>|
            chunk.len() <= DATA_CHUNK_SIZE && #[trigger] spec_block_of(key@, chunk, block@) ==> (r matches Some(v) && v@
                == chunk),
{
    let len = block.len();
    if len < DATA_BLOCK_OVERHEAD {
        return None;
    }
    let nonce = array_from_slice::<24>(vstd::slice::slice_subrange(block, 0, 24));
    let cipher_text = vstd::slice::slice_subrange(block, 24, len - 16);
    let tag = array_from_slice::<16>(vstd::slice::slice_subrange(block, len - 16, len));
    let r = xchacha_open(&key.0, &nonce, cipher_text, &tag);
    proof {
        assert forall|chunk: Seq<u8>|
            chunk.len() <= DATA_CHUNK_SIZE && #[trigger] spec_block_of(key@, chunk, block@) implies (r matches Some(v) && v@
                == chunk) by {
            let n = choose|n: Seq<u8>|
                n.len() == 24 && block@.len() == chunk.len() + DATA_BLOCK_OVERHEAD && block@ == #[trigger] spec_sealed_block(
                    key@,
                    n,
                    chunk,
                );
            assert(nonce@ =~= n);
            assert(cipher_text@ + tag@ =~= xchacha20poly1305_seal(key@, n, chunk));
            assert(chunk.len() <= MAX_SEALED_LENGTH);
        }
    }
    r
}

} // verus!
