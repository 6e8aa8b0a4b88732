use vstd::prelude::*;

use crate::codec::ids::{Cid, PermanentId};
use crate::codec::parser::EncodingError;
use crate::filesystem::file_content::FileContentError;
use crate::filesystem::nodes::node::NodeId;
use crate::filesystem::nodes::node_builder::NodeBuilderError;
use crate::filesystem::nodes::node_data::NodeDataError;
use crate::filesystem::nodes::node_name::NodeNameError;
use crate::stores::traits::{DataStoreError, DataStoreErrorView};

verus! {

/// Why an operation on the filesystem failed.
#[derive(Debug)]
pub enum OperationError {
    /// The current actor lacks the key needed for the operation.
    AccessDenied,
    /// A block was found but was not valid.
    BlockCorrupted(Cid),
    /// A block was not found in the data store.
    BlockUnavailable(Cid),
    /// Building a node failed.
    CreationFailed(NodeBuilderError),
    /// A data store operation failed.
    DataStore(DataStoreError),
    /// A node is already present where one was to be created.
    Exists(NodeId),
    /// The content of a file could not answer a request.
    FileContentError(FileContentError),
    /// An internal assumption was violated at the given node.
    InternalCorruption(NodeId, &'static str),
    /// A name was invalid.
    InvalidName(NodeNameError),
    /// A permanent ID is not known to the filesystem.
    MissingPermanentId(PermanentId),
    /// An operation on a node's children failed.
    NodeFailure(NodeDataError),
    /// The content has not been stored yet.
    NotAvailable,
    /// A path went through a node that can not have children.
    NotTraversable,
    /// A node without data was read.
    NotReadable,
    /// A node has no parent and can not be removed.
    OrphanNode(PermanentId),
    /// A failure without a dedicated kind.
    Other(&'static str),
    /// Entries can only be placed below a directory.
    ParentMustBeDirectory,
    /// A path or parent directory was not found.
    PathNotFound,
    /// A path went deeper than the supported depth.
    PathTooDeep,
    /// A path was empty.
    UnexpectedEmptyPath,
    /// A node could not be encoded.
    Encoding(EncodingError),
}

pub enum OperationErrorView {
    AccessDenied,
    BlockCorrupted(Seq<u8>),
    BlockUnavailable(Seq<u8>),
    CreationFailed(NodeBuilderError),
    DataStore(DataStoreErrorView),
    Exists(NodeId),
    FileContentError(FileContentError),
    InternalCorruption(NodeId, &'static str),
    InvalidName(NodeNameError),
    MissingPermanentId(Seq<u8>),
    NodeFailure(NodeDataError),
    NotAvailable,
    NotTraversable,
    NotReadable,
    OrphanNode(Seq<u8>),
    Other(&'static str),
    ParentMustBeDirectory,
    PathNotFound,
    PathTooDeep,
    UnexpectedEmptyPath,
    Encoding(EncodingError),
}

impl View for OperationError {
    type V = OperationErrorView;

    open spec fn view(&self) -> OperationErrorView {
        match self {
            OperationError::AccessDenied => OperationErrorView::AccessDenied,
            OperationError::BlockCorrupted(c) => OperationErrorView::BlockCorrupted(c@),
            OperationError::BlockUnavailable(c) => OperationErrorView::BlockUnavailable(c@),
            OperationError::CreationFailed(e) => OperationErrorView::CreationFailed(*e),
            OperationError::DataStore(e) => OperationErrorView::DataStore(e@),
            OperationError::Exists(id) => OperationErrorView::Exists(*id),
            OperationError::FileContentError(e) => OperationErrorView::FileContentError(*e),
            OperationError::InternalCorruption(id, m) => OperationErrorView::InternalCorruption(*id, *m),
            OperationError::InvalidName(e) => OperationErrorView::InvalidName(*e),
            OperationError::MissingPermanentId(p) => OperationErrorView::MissingPermanentId(p@),
            OperationError::NodeFailure(e) => OperationErrorView::NodeFailure(*e),
            OperationError::NotAvailable => OperationErrorView::NotAvailable,
            OperationError::NotTraversable => OperationErrorView::NotTraversable,
            OperationError::NotReadable => OperationErrorView::NotReadable,
            OperationError::OrphanNode(p) => OperationErrorView::OrphanNode(p@),
            OperationError::Other(m) => OperationErrorView::Other(*m),
            OperationError::ParentMustBeDirectory => OperationErrorView::ParentMustBeDirectory,
            OperationError::PathNotFound => OperationErrorView::PathNotFound,
            OperationError::PathTooDeep => OperationErrorView::PathTooDeep,
            OperationError::UnexpectedEmptyPath => OperationErrorView::UnexpectedEmptyPath,
            OperationError::Encoding(e) => OperationErrorView::Encoding(*e),
        }
    }
}

} // verus!
