use vstd::prelude::*;

use crate::filesystem::nodes::node::NodeId;
use crate::filesystem::nodes::node_name::{NodeName, NodeNameView};

verus! {

/// Where a walk along a path ended.
pub enum WalkState {
    /// Every component was found; the last one is this node.
    FoundNode { node_id: NodeId },
    /// The component at position `remaining_start - 1`, called `missing_name`, is not present
    /// in directory `working_directory_id`; the components from `remaining_start` on were not
    /// looked at.
    MissingComponent { working_directory_id: NodeId, missing_name: NodeName, remaining_start: usize },
}

pub enum WalkStateView {
    FoundNode { node_id: NodeId },
    MissingComponent { working_directory_id: NodeId, missing_name: NodeNameView, remaining_start: usize },
}

impl View for WalkState {
    type V = WalkStateView;

    open spec fn view(&self) -> WalkStateView {
        match self {
            WalkState::FoundNode { node_id } => WalkStateView::FoundNode { node_id: *node_id },
            WalkState::MissingComponent { working_directory_id, missing_name, remaining_start } => WalkStateView::MissingComponent {
                working_directory_id: *working_directory_id,
                missing_name: missing_name@,
                remaining_start: *remaining_start,
            },
        }
    }
}

impl WalkState {
    pub fn found(node_id: NodeId) -> (r: WalkState)
        ensures
            r@ == (WalkStateView::FoundNode { node_id }),
    {
        WalkState::FoundNode { node_id }
    }
}

} // verus!
