//! Nodes are the entries of the filesystem: directories, files and their associated data.

pub mod attributes;
pub mod metadata;
pub mod node_data;
pub mod node;
pub mod node_builder;
pub mod node_kind;
pub mod node_name;
