use vstd::prelude::*;

use crate::codec::ids::PermanentId;
use crate::filesystem::file_content::{FileContent, FileContentView};
use crate::filesystem::nodes::node_data::spec_default_permissions;
use crate::filesystem::nodes::node_name::NodeName;
use crate::filesystem::permissions::{DirectoryPermissions, FilePermissions, Permissions};

verus! {

/// A compact description of a node: a file with its content, or a directory with the permanent
/// IDs of its children by name and their total size.
pub enum NodeKind {
    File { permissions: FilePermissions, content: FileContent },
    Directory { permissions: DirectoryPermissions, children: Vec<(NodeName, PermanentId)>, children_size: u64 },
}

impl NodeKind {
    /// An empty directory with default permissions.
    pub fn new_directory() -> (r: NodeKind)
        ensures
            r matches NodeKind::Directory { permissions, children, children_size } && permissions
                == spec_default_permissions() && children@.len() == 0 && children_size == 0,
    {
        NodeKind::Directory { permissions: Permissions::default(), children: Vec::new(), children_size: 0 }
    }

    /// A file whose data of `size` bytes is not stored yet.
    pub fn stub_file(size: u64) -> (r: NodeKind)
        ensures
            r matches NodeKind::File { permissions, content } && permissions == spec_default_permissions()
                && content@ == (FileContentView::Stub { data_size: size }),
    {
        NodeKind::File { permissions: Permissions::default(), content: FileContent::Stub { data_size: size } }
    }
}

} // verus!
