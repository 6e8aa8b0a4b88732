use vstd::prelude::*;

use crate::codec::ids::Cid;

verus! {

/// Number of bytes of a raw CID: a BLAKE3 digest.
pub const CID_HASH_SIZE: usize = 32;

/// The 32 byte BLAKE3 digest of `data`, as computed by the `blake3` crate.
pub uninterp spec fn blake3_digest_of(data: Seq<u8>) -> [u8; 32];

/// The BLAKE3 digest of `data` as a byte sequence.
pub open spec fn blake3_hash(data: Seq<u8>) -> Seq<u8> {
    blake3_digest_of(data)@
}

/// `blake3::hash`: the 32 byte BLAKE3 digest of `data`. The digest depends on the data alone.
#[verifier::external_body]
fn blake3_digest(data: &[u8]) -> (r: [u8; 32])
    ensures
        r == blake3_digest_of(data@),
{
    blake3::hash(data).into()
}

/// The CID of some data: its BLAKE3 digest.
pub fn calculate_cid(data: &[u8]) -> (r: Cid)
    ensures
        r@ == blake3_hash(data@),
        r@.len() == CID_HASH_SIZE,
{
    Cid(blake3_digest(data))
}

/// `time::OffsetDateTime::now_utc().unix_timestamp_nanos()`: the current time in nanoseconds
/// since the Unix epoch. Nothing is stated of the value: it is read from the system clock.
#[verifier::external_body]
fn unix_time_nanos() -> (r: i128) {
    time::OffsetDateTime::now_utc().unix_timestamp_nanos()
}

/// The current time in milliseconds since the Unix epoch.
pub fn current_time_ms() -> i64 {
    let nanos = unix_time_nanos();
    let millis = nanos / 1_000_000;
    #[verifier::truncate]
    (millis as i64)
}

} // verus!
