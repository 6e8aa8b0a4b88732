//! Binary primitives shared by every encoded structure of the filesystem.

pub mod blocks;
pub mod crypto;
pub mod data_block;
pub mod header;
pub mod ids;
pub mod node_kind;
pub mod order;
pub mod parser;
pub mod vector_clock;
pub mod text;


