//! Block stores: where the encrypted data blocks of files are kept.

pub mod memory_data_store;
pub mod memory_sync_tracker;
pub mod traits;
