//! The filesystem structures: entries, their content references and the drive built of them.

pub mod content_reference;
pub mod drive;
pub mod file_content;
pub mod nodes;
pub mod permissions;
