use rand_chacha::ChaCha20Rng;
use vstd::prelude::*;

use crate::codec::ids::{ActorId, PermanentId};
use crate::codec::node_kind::NodeKind;
use crate::codec::vector_clock::VectorClock;
use crate::filesystem::file_content::FileContentView;
use crate::filesystem::nodes::attributes::{AttributePair, Attributes};
use crate::filesystem::nodes::node::{Node, NodeId, NodeView};
use crate::filesystem::nodes::node_data::{spec_default_permissions, NodeData, NodeDataView};
use crate::filesystem::nodes::node_name::{NodeName, NodeNameError, NodeNameView};
use crate::utils::current_time_ms;

verus! {

/// Collects the parts of a new node before it is created.
pub struct NodeBuilder {
    pub id: Option<NodeId>,
    pub parent_id: Option<PermanentId>,
    pub name: NodeName,
    pub owner_id: Option<ActorId>,
    pub size_hint: Option<u64>,
    pub kind: NodeKind,
}

/// Why a node could not be built.
#[derive(Debug, Clone, Copy, PartialEq, Eq, Structural)]
pub enum NodeBuilderError {
    InvalidNodeName(NodeNameError),
    /// The node's position in the node table was not set.
    MissingNodeId,
    /// Only the root may be without a parent.
    MissingParent,
    /// Every node needs an owner.
    MissingOwner,
}

/// What building yields: an error, checked in this order, or the node with the given permanent
/// ID and both timestamps at `now`.
pub open spec fn spec_build(b: NodeBuilder, permanent_id: Seq<u8>, now: i64) -> Result<NodeView, NodeBuilderError> {
    if b.id is None {
        Err(NodeBuilderError::MissingNodeId)
    } else if b.owner_id is None {
        Err(NodeBuilderError::MissingOwner)
    } else if b.parent_id is None && !(b.name@ is Root) {
        Err(NodeBuilderError::MissingParent)
    } else {
        Ok(
            NodeView {
                id: b.id.unwrap(),
                parent_id: match b.parent_id {
                    Some(p) => Some(p@),
                    None => None,
                },
                permanent_id,
                owner_id: b.owner_id.unwrap()@,
                vector_clock: 0,
                created_at: now,
                modified_at: now,
                name: b.name@,
                metadata: Seq::empty(),
                data: if b.kind == NodeKind::File {
                    NodeDataView::File {
                        permissions: spec_default_permissions(),
                        associated_data: Seq::empty(),
                        content: FileContentView::Stub {
                            data_size: match b.size_hint {
                                Some(s) => s,
                                None => 0,
                            },
                        },
                    }
                } else {
                    NodeDataView::Directory { permissions: spec_default_permissions(), children: Seq::empty() }
                },
            },
        )
    }
}

/// The outcome of building agrees with [`spec_build`].
pub open spec fn build_agrees(r: Result<Node, NodeBuilderError>, expected: Result<NodeView, NodeBuilderError>) -> bool {
    match expected {
        Ok(v) => r matches Ok(n) && n@ == v,
        Err(e) => r == Err::<Node, NodeBuilderError>(e),
    }
}

impl NodeBuilder {
    /// Builds the node with the given permanent ID and creation time.
    pub fn build_with(self, permanent_id: PermanentId, current_ts: i64) -> (r: Result<Node, NodeBuilderError>)
        requires
            self.kind != NodeKind::AssociatedData,
        ensures
            build_agrees(r, spec_build(self, permanent_id@, current_ts)),
    {
        let id = match self.id {
            Some(id) => id,
            None => return Err(NodeBuilderError::MissingNodeId),
        };
        let owner_id = match self.owner_id {
            Some(o) => o,
            None => return Err(NodeBuilderError::MissingOwner),
        };
        if self.parent_id.is_none() && !self.name.is_root() {
            return Err(NodeBuilderError::MissingParent);
        }
        let inner = match self.kind {
            NodeKind::File => NodeData::stub_file(
                match self.size_hint {
                    Some(s) => s,
                    None => 0,
                },
            ),
            _ => NodeData::new_directory(),
        };
        Ok(
            Node {
                id,
                parent_id: self.parent_id,
                permanent_id,
                owner_id,
                vector_clock: VectorClock::initialize(),
                created_at: current_ts,
                modified_at: current_ts,
                name: self.name,
                metadata: Attributes::new(),
                inner,
            },
        )
    }

    /// Builds the node with a fresh random permanent ID, created now.
    pub fn build(self, rng: &mut ChaCha20Rng) -> (r: Result<Node, NodeBuilderError>)
        requires
            self.kind != NodeKind::AssociatedData,
        ensures
            exists|pid: Seq<u8>, now: i64| pid.len() == 16 && build_agrees(r, #[trigger] spec_build(self, pid, now)),
    {
        let permanent_id = PermanentId::generate(rng);
        let now = current_time_ms();
        let r = self.build_with(permanent_id, now);
        assert(build_agrees(r, spec_build(self, permanent_id@, now)));
        r
    }

    pub fn directory(name: NodeName) -> (r: NodeBuilder)
        ensures
            r.id is None && r.parent_id is None && r.owner_id is None && r.size_hint is None,
            r.name@ == name@,
            r.kind == NodeKind::Directory,
    {
        NodeBuilder {
            id: None,
            parent_id: None,
            name,
            owner_id: None,
            size_hint: None,
            kind: NodeKind::Directory,
        }
    }

    pub fn file(name: NodeName) -> (r: NodeBuilder)
        ensures
            r.id is None && r.parent_id is None && r.owner_id is None && r.size_hint is None,
            r.name@ == name@,
            r.kind == NodeKind::File,
    {
        NodeBuilder {
            id: None,
            parent_id: None,
            name,
            owner_id: None,
            size_hint: None,
            kind: NodeKind::File,
        }
    }

    pub fn root() -> (r: NodeBuilder)
        ensures
            r.id is None && r.parent_id is None && r.owner_id is None && r.size_hint is None,
            r.name@ == NodeNameView::Root,
            r.kind == NodeKind::Directory,
    {
        NodeBuilder::directory(NodeName::root())
    }

    pub fn with_id(self, id: NodeId) -> (r: NodeBuilder)
        ensures
            r == (NodeBuilder { id: Some(id), ..self }),
    {
        NodeBuilder { id: Some(id), ..self }
    }

    pub fn with_owner(self, owner_id: ActorId) -> (r: NodeBuilder)
        ensures
            r == (NodeBuilder { owner_id: Some(owner_id), ..self }),
    {
        NodeBuilder { owner_id: Some(owner_id), ..self }
    }

    pub fn with_parent(self, parent_id: PermanentId) -> (r: NodeBuilder)
        ensures
            r == (NodeBuilder { parent_id: Some(parent_id), ..self }),
    {
        NodeBuilder { parent_id: Some(parent_id), ..self }
    }

    pub fn with_size_hint(self, size_hint: u64) -> (r: NodeBuilder)
        ensures
            r == (NodeBuilder { size_hint: Some(size_hint), ..self }),
    {
        NodeBuilder { size_hint: Some(size_hint), ..self }
    }
}

} // verus!
