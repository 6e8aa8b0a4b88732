//! A verified core for the BanyanFS filesystem format: the binary codecs of filesystem
//! entries, the in-memory node tree with its directory operations, access control over
//! drive actors, content sniffing for file metadata, and in-memory block stores.

pub mod codec;
pub mod filesystem;
pub mod stores;
pub mod utils;

use vstd::prelude::*;

verus! {

} // verus!
