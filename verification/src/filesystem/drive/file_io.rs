use rand_chacha::ChaCha20Rng;
use vstd::prelude::*;

use crate::codec::blocks::{BlockKind, BlockSize};
use crate::codec::crypto::{xchacha20poly1305_seal, AccessKey};
use crate::codec::data_block::{data_block_size, open_block, seal_block, spec_block_of, DATA_CHUNK_SIZE};
use crate::codec::ids::{ActorId, PermanentId};
use crate::codec::node_kind::NodeKind;
use crate::codec::parser::put_bytes;
use crate::filesystem::content_reference::{
    locations_view, references_view, ContentLocation, ContentLocationView, ContentReference, ContentReferenceView,
};
use crate::filesystem::drive::access::{spec_actor_key, spec_has_read_access, spec_has_write_access};
use crate::filesystem::drive::directory_handle::{
    lemma_walk_after_create, lemma_walk_prefix, lemma_walk_replace_node, lemma_walk_same_structure, spec_path, spec_walk,
    spec_with_new_child, walk_path, DirectoryHandle, MAX_PATH_DEPTH,
};
use crate::filesystem::drive::inner::{
    lemma_ancestors_error_kind, lemma_clean_error_kind, spec_by_id, spec_clean_order, spec_clean_run, spec_create,
    spec_create_outcome, spec_error_of, spec_inner_wf, spec_lookup, spec_node_same_structure, spec_same_structure, spec_state_error,
    spec_with_node, spec_without_dirty, InnerDrive, InnerDriveView,
};
use crate::filesystem::drive::operations::{OperationError, OperationErrorView};
use crate::filesystem::drive::walk_state::{WalkState, WalkStateView};
use crate::filesystem::file_content::{spec_content_references, FileContent, FileContentView};
use crate::filesystem::nodes::node::{spec_node_body, spec_node_size, NodeId, NodeView};
use crate::filesystem::nodes::node_builder::{spec_build, NodeBuilder};
use crate::filesystem::nodes::node_data::child_map::{spec_find_name, ChildMapEntryView, ChildPair};
use crate::filesystem::nodes::node_data::{spec_children, spec_default_permissions, NodeData, NodeDataError, NodeDataView};
use crate::filesystem::nodes::node_name::{spec_name_error, NodeName, NodeNameView};
use crate::stores::traits::DataStore;
use crate::utils::{blake3_hash, calculate_cid};

verus! {

broadcast use vstd::seq::group_seq_axioms, vstd::map::group_map_axioms, vstd::slice::group_slice_axioms;

/// The chunks file data is cut into for storage: `DATA_CHUNK_SIZE` bytes each, the last one
/// possibly shorter; no chunks for no data.
pub open spec fn spec_chunks(data: Seq<u8>) -> Seq<Seq<u8>>
    decreases data.len(),
{
    if data.len() == 0 {
        Seq::empty()
    } else if data.len() <= DATA_CHUNK_SIZE {
        seq![data]
    } else {
        seq![data.take(DATA_CHUNK_SIZE as int)] + spec_chunks(data.skip(DATA_CHUNK_SIZE as int))
    }
}

/// The chunks laid end to end.
pub open spec fn spec_concat(chunks: Seq<Seq<u8>>) -> Seq<u8>
    decreases chunks.len(),
{
    if chunks.len() == 0 {
        Seq::empty()
    } else {
        spec_concat(chunks.drop_last()) + chunks.last()
    }
}

/// The reference a file records for one of its data blocks: the block's CID, the data block
/// geometry, and the block's single chunk.
pub open spec fn spec_block_reference(cid: Seq<u8>) -> ContentReferenceView {
    ContentReferenceView {
        cid,
        block_size: BlockSize { block_power: 18, chunk_power: 18 },
        chunks: seq![ContentLocationView { kind: BlockKind::Data, cid, index: 0 }],
    }
}

/// The CID of data block `i` was already in use: by a block the store held before (`before`)
/// or by an earlier block of the same file.
pub open spec fn spec_cid_taken(before: Map<Seq<u8>, Seq<u8>>, blocks: Seq<Seq<u8>>, i: int) -> bool {
    ||| before.contains_key(blake3_hash(blocks[i]))
    ||| exists|j: int| 0 <= j < i && blake3_hash(blocks[j]) == blake3_hash(blocks[i])
}

/// `content` records `data` as written under the drive's data key `data_key`: encrypted
/// content with the data's CID and size, the file key sealed under `data_key`, and one
/// reference per chunk to a block that carries the chunk sealed under the file key. `after`
/// holds each of these blocks under its CID, unless that CID was already taken.
pub open spec fn spec_written(
    content: FileContentView,
    data: Seq<u8>,
    data_key: Seq<u8>,
    before: Map<Seq<u8>, Seq<u8>>,
    after: Map<Seq<u8>, Seq<u8>>,
) -> bool {
    &&& content matches FileContentView::Encrypted { locked_access_key, cid, data_size, content: refs }
    &&& cid == blake3_hash(data)
    &&& data_size == data.len()
    &&& exists|file_key: Seq<u8>, blocks: Seq<Seq<u8>>|
        {
            &&& file_key.len() == 32
            &&& locked_access_key.cipher_text + locked_access_key.tag == #[trigger] xchacha20poly1305_seal(
                data_key,
                locked_access_key.nonce,
                file_key,
            )
            &&& #[trigger] spec_blocks_written(refs, blocks, file_key, spec_chunks(data), before, after)
        }
}

/// Reference `i` names block `blocks[i]`, which seals chunk `i`; `after` holds the block
/// under its CID unless the CID was already taken.
pub open spec fn spec_blocks_written(
    refs: Seq<ContentReferenceView>,
    blocks: Seq<Seq<u8>>,
    file_key: Seq<u8>,
    chunks: Seq<Seq<u8>>,
    before: Map<Seq<u8>, Seq<u8>>,
    after: Map<Seq<u8>, Seq<u8>>,
) -> bool {
    &&& refs.len() == blocks.len() == chunks.len()
    &&& forall|i: int|
        0 <= i < refs.len() ==> {
            &&& #[trigger] refs[i] == spec_block_reference(blake3_hash(blocks[i]))
            &&& spec_block_of(file_key, chunks[i], blocks[i])
            &&& after.contains_key(blake3_hash(blocks[i]))
            &&& (after[blake3_hash(blocks[i])] == blocks[i] || spec_cid_taken(before, blocks, i))
        }
}

/// Why `write` refuses before it changes anything, checked in this order: an empty path, an
/// actor without write access, a drive without its data key, an invalid file name, and a
/// parent path that can not be walked or is missing.
pub open spec fn spec_write_refusal(d: InnerDriveView, actor: Seq<u8>, cwd: NodeId, p: Seq<Seq<char>>) -> Option<OperationErrorView> {
    if p.len() == 0 {
        Some(OperationErrorView::UnexpectedEmptyPath)
    } else if !spec_has_write_access(d.access.actors, actor) {
        Some(OperationErrorView::AccessDenied)
    } else if d.access.data_key is None {
        Some(OperationErrorView::AccessDenied)
    } else {
        match spec_name_error(p.last()) {
            Some(e) => Some(OperationErrorView::InvalidName(e)),
            None => match spec_walk(d, cwd, p.take(p.len() - 1), 0, 0) {
                Err(e) => Some(e),
                Ok(WalkStateView::MissingComponent { .. }) => Some(OperationErrorView::PathNotFound),
                Ok(WalkStateView::FoundNode { node_id }) => match spec_by_id(d, node_id) {
                    Err(e) => Some(e),
                    Ok(_) => None,
                },
            },
        }
    }
}

/// The parent path of `p` leads to a node that already has a child named as the last component.
pub open spec fn spec_write_name_taken(d: InnerDriveView, cwd: NodeId, p: Seq<Seq<char>>) -> bool {
    &&& p.len() > 0
    &&& spec_walk(d, cwd, p.take(p.len() - 1), 0, 0) matches Ok(WalkStateView::FoundNode { node_id })
    &&& d.nodes.contains_key(node_id)
    &&& spec_children(d.nodes[node_id].data) matches Some(m)
    &&& spec_find_name(m, NodeNameView::Named(p.last())) is Some
}

/// Creating the file node fails only when its name is taken, when the drawn permanent ID is
/// in use, or on the state of the drive.
proof fn lemma_write_create_error(
    d0: InnerDriveView,
    d1: InnerDriveView,
    p: Seq<Seq<char>>,
    wd: NodeId,
    parent_pid: PermanentId,
    actor: ActorId,
    b: NodeBuilder,
    created: Result<PermanentId, OperationError>,
)
    requires
        spec_inner_wf(d0),
        p.len() >= 1,
        d0.nodes.contains_key(wd),
        parent_pid@ == d0.nodes[wd].permanent_id,
        b.kind == NodeKind::File,
        b.name@ == NodeNameView::Named(p.last()),
        b.id is None,
        b.parent_id is None,
        b.owner_id is None,
        created is Err,
        (created matches Err(OperationError::Other(_)) && d1 == d0) || exists|pid: Seq<u8>, now: i64|
            spec_lookup(d0, pid) is None && #[trigger] spec_create_outcome(d0, d1, created, actor, parent_pid, b, pid, now),
    ensures
        spec_find_name(spec_children(d0.nodes[wd].data).unwrap(), NodeNameView::Named(p.last())) is Some ==> ((created matches Err(
            OperationError::NodeFailure(NodeDataError::ChildNameExists),
        ) || created matches Err(OperationError::Other(_))) && d1 == d0),
        spec_find_name(spec_children(d0.nodes[wd].data).unwrap(), NodeNameView::Named(p.last())) is None ==> (created matches Err(
            OperationError::Other(_),
        ) || (created matches Err(x) && spec_state_error(x@))),
{
    if !(created matches Err(OperationError::Other(_)) && d1 == d0) {
        let (pid, now) = choose|pid: Seq<u8>, now: i64|
            spec_lookup(d0, pid) is None && #[trigger] spec_create_outcome(d0, d1, created, actor, parent_pid, b, pid, now);
        assert(spec_lookup(d0, parent_pid@) == Some(wd));
        assert(d0.nodes[wd].id == wd);
        match spec_create(d0, actor, parent_pid@, parent_pid, b, pid, now) {
            Err(e) => {},
            Ok((cd, k)) => {
                lemma_ancestors_error_kind(cd, wd, cd.nodes.dom().len());
            },
        }
    }
}

/// Creating the file node succeeds only when its name is free.
proof fn lemma_write_create_error_free(
    d0: InnerDriveView,
    d1: InnerDriveView,
    p: Seq<Seq<char>>,
    wd: NodeId,
    parent_pid: PermanentId,
    actor: ActorId,
    b: NodeBuilder,
    created: Result<PermanentId, OperationError>,
)
    requires
        spec_inner_wf(d0),
        p.len() >= 1,
        d0.nodes.contains_key(wd),
        parent_pid@ == d0.nodes[wd].permanent_id,
        created is Ok,
        exists|pid: Seq<u8>, now: i64|
            spec_lookup(d0, pid) is None && #[trigger] spec_create_outcome(d0, d1, created, actor, parent_pid, b, pid, now),
        b.name@ == NodeNameView::Named(p.last()),
        b.id is None,
        b.parent_id is None,
        b.owner_id is None,
    ensures
        spec_find_name(spec_children(d0.nodes[wd].data).unwrap(), NodeNameView::Named(p.last())) is None,
{
    let (pid, now) = choose|pid: Seq<u8>, now: i64|
        spec_lookup(d0, pid) is None && #[trigger] spec_create_outcome(d0, d1, created, actor, parent_pid, b, pid, now);
    assert(spec_lookup(d0, parent_pid@) == Some(wd));
    assert(d0.nodes[wd].id == wd);
}

proof fn lemma_chunks_step(data: Seq<u8>, t: int)
    requires
        data.len() > 0,
        t == (if data.len() < DATA_CHUNK_SIZE { data.len() as int } else { DATA_CHUNK_SIZE as int }),
    ensures
        spec_chunks(data) == seq![data.take(t)] + spec_chunks(data.skip(t)),
        data.take(t).len() <= DATA_CHUNK_SIZE,
{
    if data.len() <= DATA_CHUNK_SIZE {
        assert(data.take(t) =~= data);
        assert(data.skip(t).len() == 0);
        assert(spec_chunks(data.skip(t)) =~= Seq::<Seq<u8>>::empty());
        assert(seq![data.take(t)] + spec_chunks(data.skip(t)) =~= seq![data]);
    }
}

/// Where `write` leaves the new file: the drive `d0` gets a file node below the directory the
/// parent path leads to (`d1`), the node then holds `content` (`d2`), and a clean-up keeps the
/// structure (`d3`). The whole path then leads to that node.
proof fn lemma_write_walk(
    d0: InnerDriveView,
    d1: InnerDriveView,
    d2: InnerDriveView,
    d3: InnerDriveView,
    cwd: NodeId,
    p: Seq<Seq<char>>,
    wd: NodeId,
    parent_pid: PermanentId,
    actor: ActorId,
    b: NodeBuilder,
    created: Result<PermanentId, OperationError>,
    k: NodeId,
    content: FileContentView,
)
    requires
        spec_inner_wf(d0),
        1 <= p.len() <= MAX_PATH_DEPTH,
        spec_name_error(p.last()) is None,
        spec_walk(d0, cwd, p.take(p.len() - 1), 0, 0) == Ok::<WalkStateView, OperationErrorView>(
            WalkStateView::FoundNode { node_id: wd },
        ),
        d0.nodes.contains_key(wd),
        parent_pid@ == d0.nodes[wd].permanent_id,
        b.kind == NodeKind::File,
        b.name@ == NodeNameView::Named(p.last()),
        b.id is None,
        b.parent_id is None,
        b.owner_id is None,
        created is Ok,
        exists|pid: Seq<u8>, now: i64|
            spec_lookup(d0, pid) is None && #[trigger] spec_create_outcome(d0, d1, created, actor, parent_pid, b, pid, now),
        spec_lookup(d1, created.unwrap()@) == Some(k),
        d1.nodes.contains_key(k),
        d2 == spec_with_node(
            d1,
            k,
            NodeView {
                data: NodeDataView::File { permissions: spec_default_permissions(), associated_data: Seq::empty(), content },
                ..d1.nodes[k]
            },
        ),
        spec_same_structure(d2, d3),
    ensures
        ({
            &&& spec_walk(d3, cwd, p, 0, 0) matches Ok(WalkStateView::FoundNode { node_id })
            &&& d3.nodes.contains_key(node_id)
            &&& d3.nodes[node_id].owner_id == actor@
            &&& d3.nodes[node_id].data matches NodeDataView::File { content: c, .. }
            &&& c == content
        }),
        d3.access == d0.access,
{
    let (pid, now) = choose|pid: Seq<u8>, now: i64|
        spec_lookup(d0, pid) is None && #[trigger] spec_create_outcome(d0, d1, created, actor, parent_pid, b, pid, now);
    match spec_create(d0, actor, parent_pid@, parent_pid, b, pid, now) {
        Err(_) => {},
        Ok((cd, kk)) => {
            assert(spec_lookup(d0, parent_pid@) == Some(wd));
            let b2 = NodeBuilder { parent_id: Some(parent_pid), id: Some(kk), owner_id: Some(actor), ..b };
            let nn = spec_build(b2, pid, now).unwrap();
            let e = ChildMapEntryView {
                permanent_id: pid,
                cid: blake3_hash(spec_node_body(nn)),
                size: spec_node_size(nn) as u64,
            };
            assert(cd == spec_with_new_child(d0, wd, kk, nn, e));
            assert(created.unwrap()@ == pid);
            assert(d1.pids == cd.pids);
            assert(k == kk);
            lemma_walk_prefix(d0, cwd, p, 0, 0);
            let m = spec_children(d0.nodes[wd].data).unwrap();
            assert(spec_find_name(m, nn.name) is None);
            assert(nn.name == NodeNameView::Named(p[p.len() - 1]));
            assert(spec_walk(d0, wd, p, p.len() - 1, p.len() - 1) == Ok::<WalkStateView, OperationErrorView>(
                WalkStateView::MissingComponent { working_directory_id: wd, missing_name: nn.name, remaining_start: p.len() as usize },
            ));
            lemma_walk_after_create(d0, kk, nn, e, wd, cwd, p, 0, 0, p.len() as int);
            lemma_walk_same_structure(cd, d1, cwd, p, 0, 0);
            assert(spec_node_same_structure(cd.nodes[k], d1.nodes[k]));
            let n2 = NodeView {
                data: NodeDataView::File { permissions: spec_default_permissions(), associated_data: Seq::empty(), content },
                ..d1.nodes[k]
            };
            assert(spec_children(d1.nodes[k].data) == spec_children(n2.data)) by {
                match d1.nodes[k].data {
                    NodeDataView::File { associated_data, .. } => {
                        assert(associated_data =~= Seq::<ChildPair>::empty());
                    },
                    _ => {},
                }
            }
            lemma_walk_replace_node(d1, k, n2, cwd, p, 0, 0);
            lemma_walk_same_structure(d2, d3, cwd, p, 0, 0);
            assert(d2.nodes.contains_key(k));
            assert(spec_node_same_structure(d2.nodes[k], d3.nodes[k]));
        },
    }
}

/// Storing the block for the next chunk keeps what the blocks written so far promise.
proof fn lemma_store_step(
    old_refs: Seq<ContentReferenceView>,
    old_blocks: Seq<Seq<u8>>,
    old_done: Seq<Seq<u8>>,
    chunk: Seq<u8>,
    block: Seq<u8>,
    key: Seq<u8>,
    s0: Map<Seq<u8>, Seq<u8>>,
    prev: Map<Seq<u8>, Seq<u8>>,
    after: Map<Seq<u8>, Seq<u8>>,
    cid: Seq<u8>,
)
    requires
        spec_blocks_written(old_refs, old_blocks, key, old_done, s0, prev),
        forall|c: Seq<u8>|
            #[trigger] prev.contains_key(c) ==> s0.contains_key(c) || exists|j: int|
                0 <= j < old_blocks.len() && blake3_hash(old_blocks[j]) == c,
        spec_block_of(key, chunk, block),
        cid == blake3_hash(block),
        after.dom() == prev.dom().insert(cid),
        after[cid] == (if prev.contains_key(cid) { prev[cid] } else { block }),
        forall|k: Seq<u8>| #[trigger] prev.contains_key(k) ==> after.contains_key(k) && after[k] == prev[k],
    ensures
        spec_blocks_written(
            old_refs.push(spec_block_reference(cid)),
            old_blocks.push(block),
            key,
            old_done.push(chunk),
            s0,
            after,
        ),
        forall|c: Seq<u8>|
            #[trigger] after.contains_key(c) ==> s0.contains_key(c) || exists|j: int|
                0 <= j < old_blocks.push(block).len() && blake3_hash(old_blocks.push(block)[j]) == c,
{
    let refs = old_refs.push(spec_block_reference(cid));
    let blocks = old_blocks.push(block);
    let done = old_done.push(chunk);
    let m = old_blocks.len() as int;
    assert(blake3_hash(blocks[m]) == cid);
    assert forall|i: int| 0 <= i < refs.len() implies {
        &&& #[trigger] refs[i] == spec_block_reference(blake3_hash(blocks[i]))
        &&& spec_block_of(key, done[i], blocks[i])
        &&& after.contains_key(blake3_hash(blocks[i]))
        &&& (after[blake3_hash(blocks[i])] == blocks[i] || spec_cid_taken(s0, blocks, i))
    } by {
        if i < m {
            assert(refs[i] == old_refs[i]);
            assert(old_refs[i] == spec_block_reference(blake3_hash(old_blocks[i])));
            assert(blocks[i] == old_blocks[i]);
            assert(done[i] == old_done[i]);
            assert(prev.contains_key(blake3_hash(blocks[i])));
            if !(prev[blake3_hash(blocks[i])] == blocks[i]) {
                assert(spec_cid_taken(s0, old_blocks, i));
                if !s0.contains_key(blake3_hash(blocks[i])) {
                    let j = choose|j: int| 0 <= j < i && blake3_hash(old_blocks[j]) == blake3_hash(old_blocks[i]);
                    assert(blake3_hash(blocks[j]) == blake3_hash(blocks[i]));
                }
            }
        } else {
            assert(i == m);
            if prev.contains_key(cid) {
                if !s0.contains_key(cid) {
                    let j = choose|j: int| 0 <= j < old_blocks.len() && blake3_hash(old_blocks[j]) == cid;
                    assert(blake3_hash(blocks[j]) == blake3_hash(blocks[i]));
                }
            }
        }
    }
    assert forall|c: Seq<u8>| #[trigger] after.contains_key(c) implies s0.contains_key(c) || exists|j: int|
        0 <= j < blocks.len() && blake3_hash(blocks[j]) == c by {
        if c != cid {
            assert(prev.contains_key(c));
            if !s0.contains_key(c) {
                let j = choose|j: int| 0 <= j < old_blocks.len() && blake3_hash(old_blocks[j]) == c;
                assert(blake3_hash(blocks[j]) == c);
            }
        } else {
            assert(blake3_hash(blocks[m]) == c);
        }
    }
}

/// `after` holds, under the CID of each reference of `content`, the block sealing the
/// matching chunk of `data` under the file key, and that key is sealed under `data_key`.
pub open spec fn spec_stored(content: FileContentView, data: Seq<u8>, data_key: Seq<u8>, after: Map<Seq<u8>, Seq<u8>>) -> bool {
    &&& content matches FileContentView::Encrypted { locked_access_key, content: refs, .. }
    &&& exists|file_key: Seq<u8>, blocks: Seq<Seq<u8>>|
        {
            &&& file_key.len() == 32
            &&& locked_access_key.cipher_text + locked_access_key.tag == #[trigger] xchacha20poly1305_seal(
                data_key,
                locked_access_key.nonce,
                file_key,
            )
            &&& #[trigger] spec_blocks_held(refs, blocks, file_key, spec_chunks(data), after)
        }
}

/// Reference `i` names block `blocks[i]`, which seals chunk `i` and which `after` holds under
/// its CID.
pub open spec fn spec_blocks_held(
    refs: Seq<ContentReferenceView>,
    blocks: Seq<Seq<u8>>,
    file_key: Seq<u8>,
    chunks: Seq<Seq<u8>>,
    after: Map<Seq<u8>, Seq<u8>>,
) -> bool {
    &&& refs.len() == blocks.len() == chunks.len()
    &&& forall|i: int|
        0 <= i < refs.len() ==> {
            &&& #[trigger] refs[i] == spec_block_reference(blake3_hash(blocks[i]))
            &&& spec_block_of(file_key, chunks[i], blocks[i])
            &&& after.contains_key(blake3_hash(blocks[i]))
            &&& after[blake3_hash(blocks[i])] == blocks[i]
        }
}

/// The content `read` finds at `p`, or why it stops before it looks at keys, checked in this
/// order: an empty path, an actor without read access, a walk that fails or ends at a missing
/// component, a node that holds no content, and content not stored yet.
pub open spec fn spec_read_content(d: InnerDriveView, actor: Seq<u8>, cwd: NodeId, p: Seq<Seq<char>>) -> Result<
    (NodeView, FileContentView),
    OperationErrorView,
> {
    if p.len() == 0 {
        Err(OperationErrorView::UnexpectedEmptyPath)
    } else if !spec_has_read_access(d.access.actors, actor) {
        Err(OperationErrorView::AccessDenied)
    } else {
        match spec_walk(d, cwd, p, 0, 0) {
            Err(e) => Err(e),
            Ok(WalkStateView::MissingComponent { .. }) => Err(OperationErrorView::PathNotFound),
            Ok(WalkStateView::FoundNode { node_id }) => match spec_by_id(d, node_id) {
                Err(e) => Err(e),
                Ok(n) => match n.data {
                    NodeDataView::File { content, .. } => if content is Stub {
                        Err(OperationErrorView::NotAvailable)
                    } else {
                        Ok((n, content))
                    },
                    NodeDataView::AssociatedData { content } => if content is Stub {
                        Err(OperationErrorView::NotAvailable)
                    } else {
                        Ok((n, content))
                    },
                    NodeDataView::Directory { .. } => Err(OperationErrorView::NotReadable),
                },
            },
        }
    }
}

/// The content `read` reaches is of a kind it knows how to read: encrypted, with every chunk in
/// a data block (public and empty content, and chunks in indirect blocks, are not read).
pub open spec fn spec_read_supported(d: InnerDriveView, actor: Seq<u8>, cwd: NodeId, p: Seq<Seq<char>>) -> bool {
    spec_read_content(d, actor, cwd, p) matches Ok((_, c)) ==> {
        &&& c is Encrypted
        &&& forall|i: int, j: int|
            0 <= i < spec_content_references(c).len() && 0 <= j < spec_content_references(c)[i].chunks.len()
                ==> #[trigger] spec_content_references(c)[i].chunks[j].kind == BlockKind::Data
    }
}

proof fn lemma_concat_prepend(a: Seq<u8>, s: Seq<Seq<u8>>)
    ensures
        spec_concat(seq![a] + s) == a + spec_concat(s),
    decreases s.len(),
{
    if s.len() == 0 {
        assert(seq![a] + s =~= seq![a]);
        assert((seq![a] + s).drop_last() =~= Seq::<Seq<u8>>::empty());
        assert(spec_concat(Seq::<Seq<u8>>::empty()) =~= Seq::<u8>::empty());
        assert(a + spec_concat(s) =~= a);
        assert(spec_concat(seq![a] + s) =~= a);
    } else {
        lemma_concat_prepend(a, s.drop_last());
        assert((seq![a] + s).drop_last() =~= seq![a] + s.drop_last());
        assert((seq![a] + s).last() == s.last());
        assert(a + spec_concat(s) =~= a + spec_concat(s.drop_last()) + s.last());
    }
}

/// Laid end to end, the chunks of some data give the data back; no chunk is longer than a data
/// block carries.
pub proof fn lemma_chunks_concat(data: Seq<u8>)
    ensures
        spec_concat(spec_chunks(data)) == data,
        forall|i: int| 0 <= i < spec_chunks(data).len() ==> #[trigger] spec_chunks(data)[i].len() <= DATA_CHUNK_SIZE,
    decreases data.len(),
{
    if data.len() == 0 {
        assert(spec_concat(spec_chunks(data)) =~= data);
    } else if data.len() <= DATA_CHUNK_SIZE {
        lemma_concat_prepend(data, Seq::empty());
        assert(seq![data] + Seq::<Seq<u8>>::empty() =~= seq![data]);
        assert(spec_concat(Seq::<Seq<u8>>::empty()) =~= Seq::<u8>::empty());
        assert(data + Seq::<u8>::empty() =~= data);
    } else {
        let rest = data.skip(DATA_CHUNK_SIZE as int);
        lemma_chunks_concat(rest);
        lemma_concat_prepend(data.take(DATA_CHUNK_SIZE as int), spec_chunks(rest));
        assert(data.take(DATA_CHUNK_SIZE as int) + rest =~= data);
        assert forall|i: int| 0 <= i < spec_chunks(data).len() implies #[trigger] spec_chunks(data)[i].len() <= DATA_CHUNK_SIZE by {
            if i > 0 {
                assert(spec_chunks(data)[i] == spec_chunks(rest)[i - 1]);
            }
        }
    }
}

/// What `write` stored reads back as written when none of its blocks' CIDs was taken before
/// and none two of them coincide: the store then holds each block under its CID.
pub proof fn lemma_written_is_stored(
    content: FileContentView,
    data: Seq<u8>,
    data_key: Seq<u8>,
    before: Map<Seq<u8>, Seq<u8>>,
    after: Map<Seq<u8>, Seq<u8>>,
)
    requires
        spec_written(content, data, data_key, before, after),
        forall|i: int|
            0 <= i < spec_content_references(content).len() ==> !before.contains_key(
                #[trigger] spec_content_references(content)[i].cid,
            ),
        forall|i: int, j: int|
            0 <= i < j < spec_content_references(content).len() ==> #[trigger] spec_content_references(content)[i].cid
                != #[trigger] spec_content_references(content)[j].cid,
    ensures
        spec_stored(content, data, data_key, after),
{
    let refs = spec_content_references(content);
    let lk = content->locked_access_key;
    let (fk, blocks) = choose|file_key: Seq<u8>, blocks: Seq<Seq<u8>>|
        {
            &&& file_key.len() == 32
            &&& lk.cipher_text + lk.tag == #[trigger] xchacha20poly1305_seal(data_key, lk.nonce, file_key)
            &&& #[trigger] spec_blocks_written(refs, blocks, file_key, spec_chunks(data), before, after)
        };
    assert forall|i: int| 0 <= i < refs.len() implies after[blake3_hash(blocks[i])] == blocks[i] by {
        assert(refs[i] == spec_block_reference(blake3_hash(blocks[i])));
        if !(after[blake3_hash(blocks[i])] == blocks[i]) {
            assert(spec_cid_taken(before, blocks, i));
            assert(!before.contains_key(refs[i].cid));
            let j = choose|j: int| 0 <= j < i && blake3_hash(blocks[j]) == blake3_hash(blocks[i]);
            assert(refs[j] == spec_block_reference(blake3_hash(blocks[j])));
            assert(refs[j].cid != refs[i].cid);
        }
    }
    assert(spec_blocks_held(refs, blocks, fk, spec_chunks(data), after));
}

/// Reading gives back what was written. Where `path` leads to a file of `actor`, who has write
/// access, holding content that `write` recorded for `data` under the drive's data key, with no
/// two of its blocks under one CID and no CID held before the write: `read` reaches that
/// content, can read it, finds the actor's key, and every block sealing `data` is in the store,
/// so a `read` that succeeds returns `data`.
pub proof fn lemma_read_after_write(
    d: InnerDriveView,
    actor: Seq<u8>,
    cwd: NodeId,
    p: Seq<Seq<char>>,
    node_id: NodeId,
    c: FileContentView,
    data: Seq<u8>,
    before: Map<Seq<u8>, Seq<u8>>,
    after: Map<Seq<u8>, Seq<u8>>,
)
    requires
        p.len() > 0,
        spec_has_write_access(d.access.actors, actor),
        d.access.data_key is Some,
        spec_walk(d, cwd, p, 0, 0) == Ok::<WalkStateView, OperationErrorView>(WalkStateView::FoundNode { node_id }),
        d.nodes.contains_key(node_id),
        d.nodes[node_id].owner_id == actor,
        d.nodes[node_id].data is File,
        d.nodes[node_id].data->File_content == c,
        spec_written(c, data, d.access.data_key.unwrap(), before, after),
        forall|i: int|
            0 <= i < spec_content_references(c).len() ==> !before.contains_key(#[trigger] spec_content_references(c)[i].cid),
        forall|i: int, j: int|
            0 <= i < j < spec_content_references(c).len() ==> #[trigger] spec_content_references(c)[i].cid
                != #[trigger] spec_content_references(c)[j].cid,
    ensures
        spec_read_content(d, actor, cwd, p) == Ok::<(NodeView, FileContentView), OperationErrorView>((d.nodes[node_id], c)),
        spec_read_supported(d, actor, cwd, p),
        spec_actor_key(d.access, actor) is Some,
        spec_stored(c, data, d.access.data_key.unwrap(), after),
{
    lemma_written_is_stored(c, data, d.access.data_key.unwrap(), before, after);
    let refs = spec_content_references(c);
    let lk = c->locked_access_key;
    let dk = d.access.data_key.unwrap();
    let (fk, blocks) = choose|file_key: Seq<u8>, blocks: Seq<Seq<u8>>|
        {
            &&& file_key.len() == 32
            &&& lk.cipher_text + lk.tag == #[trigger] xchacha20poly1305_seal(dk, lk.nonce, file_key)
            &&& #[trigger] spec_blocks_written(refs, blocks, file_key, spec_chunks(data), before, after)
        };
    assert forall|i: int, j: int|
        0 <= i < refs.len() && 0 <= j < refs[i].chunks.len() implies #[trigger] refs[i].chunks[j].kind == BlockKind::Data by {
        assert(refs[i] == spec_block_reference(blake3_hash(blocks[i])));
    }
}

/// For content stored as `data` under the drive's data key, the block reference `i` names is
/// held under its CID, and opening it with the unsealed file key gives chunk `i`; the
/// reference has a single chunk, the first of its block.
proof fn lemma_stored_step(c: FileContentView, bmap: Map<Seq<u8>, Seq<u8>>, dk: Seq<u8>, file_key: Seq<u8>, i: int)
    requires
        c is Encrypted,
        0 <= i < spec_content_references(c).len(),
        forall|fk: Seq<u8>|
            fk.len() == 32 && c->locked_access_key.cipher_text + c->locked_access_key.tag == #[trigger] xchacha20poly1305_seal(
                dk,
                c->locked_access_key.nonce,
                fk,
            ) ==> fk == file_key,
    ensures
        forall|data: Seq<u8>|
            #[trigger] spec_stored(c, data, dk, bmap) ==> {
                &&& bmap.contains_key(spec_content_references(c)[i].cid)
                &&& spec_block_of(file_key, spec_chunks(data)[i], bmap[spec_content_references(c)[i].cid])
                &&& spec_chunks(data)[i].len() <= DATA_CHUNK_SIZE
                &&& i < spec_chunks(data).len()
                &&& spec_content_references(c)[i].chunks == seq![
                    ContentLocationView { kind: BlockKind::Data, cid: spec_content_references(c)[i].cid, index: 0 },
                ]
            },
{
    assert forall|data: Seq<u8>| #[trigger] spec_stored(c, data, dk, bmap) implies {
        &&& bmap.contains_key(spec_content_references(c)[i].cid)
        &&& spec_block_of(file_key, spec_chunks(data)[i], bmap[spec_content_references(c)[i].cid])
        &&& spec_chunks(data)[i].len() <= DATA_CHUNK_SIZE
        &&& i < spec_chunks(data).len()
        &&& spec_content_references(c)[i].chunks == seq![
            ContentLocationView { kind: BlockKind::Data, cid: spec_content_references(c)[i].cid, index: 0 },
        ]
    } by {
        let lk = c->locked_access_key;
        let refs = spec_content_references(c);
        let (fk, blocks) = choose|file_key: Seq<u8>, blocks: Seq<Seq<u8>>|
            {
                &&& file_key.len() == 32
                &&& lk.cipher_text + lk.tag == #[trigger] xchacha20poly1305_seal(dk, lk.nonce, file_key)
                &&& #[trigger] spec_blocks_held(refs, blocks, file_key, spec_chunks(data), bmap)
            };
        assert(fk == file_key);
        assert(refs[i] == spec_block_reference(blake3_hash(blocks[i])));
        lemma_chunks_concat(data);
    }
}

impl DirectoryHandle {
    /// Writes `data` as a new file at `path`: the data is cut into chunks, each sealed under a
    /// fresh file key into a data block that goes to `store`, and the file key is sealed under
    /// the drive's data key. The recorded sizes are brought up to date afterwards.
    pub fn write<S: DataStore>(
        &mut self,
        inner: &mut InnerDrive,
        rng: &mut ChaCha20Rng,
        store: &mut S,
        path: &[&str],
        data: &[u8],
    ) -> (r: Result<(), OperationError>)
        requires
            spec_inner_wf(old(inner)@),
        ensures
            spec_inner_wf(final(inner)@),
            *final(self) == *old(self),
            spec_write_refusal(old(inner)@, old(self).current_actor@, old(self).cwd_id, spec_path(path)) matches Some(e) ==> (r matches Err(
                x,
            ) && x@ == e && final(inner)@ == old(inner)@ && final(store).spec_blocks() == old(store).spec_blocks()),
            r is Ok ==> spec_write_refusal(old(inner)@, old(self).current_actor@, old(self).cwd_id, spec_path(path)) is None,
            (spec_write_refusal(old(inner)@, old(self).current_actor@, old(self).cwd_id, spec_path(path)) is None
                && spec_write_name_taken(old(inner)@, old(self).cwd_id, spec_path(path))) ==> ((r matches Err(
                OperationError::NodeFailure(NodeDataError::ChildNameExists),
            ) || r matches Err(OperationError::Other(_))) && final(inner)@ == old(inner)@ && final(store).spec_blocks()
                == old(store).spec_blocks()),
            (spec_write_refusal(old(inner)@, old(self).current_actor@, old(self).cwd_id, spec_path(path)) is None
                && !spec_write_name_taken(old(inner)@, old(self).cwd_id, spec_path(path))) ==> (r is Ok || r matches Err(
                OperationError::Other(_),
            ) || r matches Err(OperationError::DataStore(_)) || (r matches Err(x) && spec_state_error(x@))),
            (r is Ok && path@.len() <= MAX_PATH_DEPTH) ==> ({
                &&& spec_walk(final(inner)@, old(self).cwd_id, spec_path(path), 0, 0) matches Ok(
                    WalkStateView::FoundNode { node_id },
                )
                &&& final(inner)@.nodes.contains_key(node_id)
                &&& final(inner)@.nodes[node_id].owner_id == old(self).current_actor@
                &&& final(inner)@.nodes[node_id].data matches NodeDataView::File { content, .. }
                &&& spec_written(
                    content,
                    data@,
                    old(inner)@.access.data_key.unwrap(),
                    old(store).spec_blocks(),
                    final(store).spec_blocks(),
                )
            }),
            r is Ok ==> final(inner)@.access == old(inner)@.access,
    {
        if path.len() == 0 {
            return Err(OperationError::UnexpectedEmptyPath);
        }
        let ghost p = spec_path(path);
        let ghost d0 = inner@;
        let ghost s0 = store.spec_blocks();
        let actor = self.current_actor;
        let cwd = self.cwd_id;
        if !inner.access().has_write_access(&actor) {
            return Err(OperationError::AccessDenied);
        }
        let data_key: AccessKey = match inner.access().data_key() {
            Some(k) => *k,
            None => return Err(OperationError::AccessDenied),
        };
        let n = path.len();
        let parent_path = vstd::slice::slice_subrange(path, 0, n - 1);
        assert(spec_path(parent_path) =~= p.take(n - 1));
        assert(p.last() == path@[n - 1]@);
        let file_name = match NodeName::named(path[n - 1].to_owned()) {
            Ok(name) => name,
            Err(e) => return Err(OperationError::InvalidName(e)),
        };
        let parent_id = match walk_path(inner, cwd, parent_path, 0)? {
            WalkState::FoundNode { node_id } => node_id,
            WalkState::MissingComponent { .. } => return Err(OperationError::PathNotFound),
        };
        let parent_node = inner.by_id(parent_id)?;
        let parent_perm_id = parent_node.permanent_id();
        let data_size = data.len() as u64;
        let builder = NodeBuilder::file(file_name).with_size_hint(data_size);
        let ghost b = builder;
        let created = inner.create_node(rng, actor, parent_perm_id, builder);
        let new_pid = match created {
            Ok(pid) => pid,
            Err(e) => {
                proof {
                    lemma_write_create_error(d0, inner@, p, parent_id, parent_perm_id, actor, b, created);
                }
                return Err(e);
            },
        };
        proof {
            if spec_write_name_taken(d0, cwd, p) {
                lemma_write_create_error_free(d0, inner@, p, parent_id, parent_perm_id, actor, b, created);
            }
        }
        let ghost d1 = inner@;
        let new_id = inner.lookup_internal_id(&new_pid)?;
        let node_key = AccessKey::generate(rng);
        let plaintext_cid = calculate_cid(data);
        let mut remaining: &[u8] = data;
        let mut refs: Vec<ContentReference> = Vec::new();
        let ghost mut done: Seq<Seq<u8>> = Seq::empty();
        let ghost mut blocks: Seq<Seq<u8>> = Seq::empty();
        proof {
            assert(done + spec_chunks(remaining@) =~= spec_chunks(data@));
            assert(references_view(refs@) =~= Seq::<ContentReferenceView>::empty());
        }
        while remaining.len() > 0
            invariant
                inner@ == d1,
                spec_write_refusal(old(inner)@, old(self).current_actor@, old(self).cwd_id, spec_path(path)) is None,
                !spec_write_name_taken(old(inner)@, old(self).cwd_id, spec_path(path)),
                *self == *old(self),
                spec_inner_wf(d1),
                done + spec_chunks(remaining@) == spec_chunks(data@),
                spec_blocks_written(references_view(refs@), blocks, node_key@, done, s0, store.spec_blocks()),
                forall|c: Seq<u8>|
                    #[trigger] store.spec_blocks().contains_key(c) ==> s0.contains_key(c) || exists|j: int|
                        0 <= j < blocks.len() && blake3_hash(blocks[j]) == c,
            decreases remaining.len(),
        {
            let t: usize = if remaining.len() < DATA_CHUNK_SIZE {
                remaining.len()
            } else {
                DATA_CHUNK_SIZE
            };
            let chunk = vstd::slice::slice_subrange(remaining, 0, t);
            let rest = vstd::slice::slice_subrange(remaining, t, remaining.len());
            proof {
                lemma_chunks_step(remaining@, t as int);
                assert(chunk@ =~= remaining@.take(t as int));
                assert(rest@ =~= remaining@.skip(t as int));
            }
            let block = seal_block(rng, &node_key, chunk);
            let cid = calculate_cid(block.as_slice());
            let ghost prev = store.spec_blocks();
            let ghost bv = block@;
            match store.store(cid, block, false) {
                Ok(()) => {},
                Err(e) => return Err(OperationError::DataStore(e)),
            }
            let location = ContentLocation::data(cid, 0);
            let mut chunks: Vec<ContentLocation> = Vec::new();
            chunks.push(location);
            let reference = ContentReference::new(cid, data_block_size(), chunks);
            let ghost old_refs = references_view(refs@);
            refs.push(reference);
            proof {
                let old_blocks = blocks;
                let old_done = done;
                done = done.push(chunk@);
                blocks = blocks.push(bv);
                assert(locations_view(reference.chunks@) =~= seq![ContentLocationView { kind: BlockKind::Data, cid: cid@, index: 0 }]);
                assert(references_view(refs@) =~= old_refs.push(spec_block_reference(cid@)));
                lemma_store_step(old_refs, old_blocks, old_done, chunk@, bv, node_key@, s0, prev, store.spec_blocks(), cid@);
                assert(done + spec_chunks(rest@) =~= old_done + spec_chunks(remaining@));
            }
            remaining = rest;
        }
        let ghost final_blocks = blocks;
        proof {
            assert(spec_chunks(remaining@) =~= Seq::<Seq<u8>>::empty());
            assert(done =~= spec_chunks(data@));
        }
        let ghost refs_view = references_view(refs@);
        let ghost s_end = store.spec_blocks();
        let locked = node_key.lock_with(rng, &data_key);
        proof {
            assert(spec_blocks_written(refs_view, final_blocks, node_key@, spec_chunks(data@), s0, s_end));
            assert(locked.cipher_text@ + locked.tag@ == xchacha20poly1305_seal(data_key@, locked.nonce@, node_key@));
            assert(data_key@ == d0.access.data_key.unwrap());
        }
        let content = FileContent::encrypted(locked, plaintext_cid, data_size, refs);
        let ghost content_view = content@;
        inner.set_file_content(new_id, content)?;
        let ghost d2 = inner@;
        match inner.clean_drive() {
            Ok(()) => {},
            Err(e) => {
                proof {
                    let steps = choose|steps: Seq<InnerDriveView>| #[trigger] spec_clean_run(
                        spec_without_dirty(d2),
                        spec_clean_order(d2.dirty),
                        steps,
                        inner@,
                        spec_error_of(Err::<(), OperationError>(e)),
                    );
                    lemma_clean_error_kind(
                        spec_without_dirty(d2),
                        spec_clean_order(d2.dirty),
                        steps,
                        inner@,
                        spec_error_of(Err::<(), OperationError>(e)),
                    );
                }
                return Err(e);
            },
        }
        proof {
            assert(content_view matches FileContentView::Encrypted { locked_access_key, cid, data_size: ds, content: rv }
                && locked_access_key == locked@ && cid == blake3_hash(data@) && ds == data@.len() && rv == refs_view);
            let dk = d0.access.data_key.unwrap();
            let lk = locked@;
            assert(node_key@.len() == 32);
            assert(lk.cipher_text + lk.tag == xchacha20poly1305_seal(dk, lk.nonce, node_key@));
            assert(spec_blocks_written(refs_view, final_blocks, node_key@, spec_chunks(data@), s0, store.spec_blocks()));
            assert(spec_written(content_view, data@, dk, s0, store.spec_blocks()));
            if p.len() <= MAX_PATH_DEPTH {
                lemma_write_walk(d0, d1, d2, inner@, cwd, p, parent_id, parent_perm_id, actor, b, created, new_id, content_view);
            }
        }
        Ok(())
    }

    /// Reads back the data of the file at `path`: the file key is unsealed with the drive's
    /// data key, and each referenced block is fetched from `store` and opened with it.
    pub fn read<S: DataStore>(&self, inner: &InnerDrive, store: &S, path: &[&str]) -> (r: Result<Vec<u8>, OperationError>)
        requires
            spec_inner_wf(inner@),
            spec_read_supported(inner@, self.current_actor@, self.cwd_id, spec_path(path)),
        ensures
            spec_read_content(inner@, self.current_actor@, self.cwd_id, spec_path(path)) matches Err(e) ==> (r matches Err(x)
                && x@ == e),
            spec_read_content(inner@, self.current_actor@, self.cwd_id, spec_path(path)) matches Ok((n, c)) ==> {
                &&& (inner@.access.data_key is None || spec_actor_key(inner@.access, n.owner_id) is None) ==> (r matches Err(x)
                    && x@ == OperationErrorView::AccessDenied)
                &&& forall|data: Seq<u8>, dk: Seq<u8>|
                    inner@.access.data_key == Some(dk) && spec_actor_key(inner@.access, n.owner_id) is Some
                        && #[trigger] spec_stored(c, data, dk, store.spec_blocks()) ==> {
                        &&& r matches Ok(v) ==> v@ == data
                        &&& r matches Err(x) ==> x is DataStore
                    }
                &&& r matches Err(OperationError::BlockUnavailable(x)) ==> exists|i: int|
                    0 <= i < spec_content_references(c).len() && spec_content_references(c)[i].cid == x@
                        && !store.spec_blocks().contains_key(x@)
            },
    {
        if path.len() == 0 {
            return Err(OperationError::UnexpectedEmptyPath);
        }
        if !inner.access().has_read_access(&self.current_actor) {
            return Err(OperationError::AccessDenied);
        }
        let target = match walk_path(inner, self.cwd_id, path, 0)? {
            WalkState::FoundNode { node_id } => node_id,
            WalkState::MissingComponent { .. } => return Err(OperationError::PathNotFound),
        };
        let node = inner.by_id(target)?;
        let content = match node.data() {
            NodeData::File { content, .. } => content,
            NodeData::AssociatedData { content } => content,
            NodeData::Directory { .. } => return Err(OperationError::NotReadable),
        };
        if content.is_stub() {
            return Err(OperationError::NotAvailable);
        }
        let ghost c = content@;
        let ghost bmap = store.spec_blocks();
        let locked = match content.data_key() {
            Ok(k) => k,
            Err(_) => return Err(OperationError::AccessDenied),
        };
        let data_key = match inner.access().data_key() {
            Some(k) => k,
            None => return Err(OperationError::AccessDenied),
        };
        let file_key = match locked.unlock(data_key) {
            Ok(k) => k,
            Err(_) => {
                proof {
                    assert forall|data: Seq<u8>, dk: Seq<u8>|
                        inner@.access.data_key == Some(dk) && #[trigger] spec_stored(c, data, dk, bmap) implies false by {
                        let lk = c->locked_access_key;
                        let (fk, blocks) = choose|file_key: Seq<u8>, blocks: Seq<Seq<u8>>|
                            {
                                &&& file_key.len() == 32
                                &&& lk.cipher_text + lk.tag == #[trigger] xchacha20poly1305_seal(dk, lk.nonce, file_key)
                                &&& #[trigger] spec_blocks_held(spec_content_references(c), blocks, file_key, spec_chunks(data), bmap)
                            };
                        assert(locked.cipher_text@ + locked.tag@ == xchacha20poly1305_seal(data_key@, locked.nonce@, fk));
                    }
                }
                return Err(OperationError::AccessDenied);
            },
        };
        let owner = node.owner_id();
        if inner.access().actor_key(&owner).is_none() {
            return Err(OperationError::AccessDenied);
        }
        let refs = match content.content_references() {
            Ok(v) => v,
            Err(e) => return Err(OperationError::FileContentError(e)),
        };
        proof {
            assert forall|fk: Seq<u8>|
                fk.len() == 32 && locked.cipher_text@ + locked.tag@ == #[trigger] xchacha20poly1305_seal(data_key@, locked.nonce@, fk)
                    implies fk == file_key@ by {}
        }
        let mut out: Vec<u8> = Vec::new();
        let mut i: usize = 0;
        let ghost target_view = (node@, c);
        while i < refs.len()
            invariant
                spec_read_content(inner@, self.current_actor@, self.cwd_id, spec_path(path)) == Ok::<
                    (NodeView, FileContentView),
                    OperationErrorView,
                >(target_view),
                target_view.1 == c,
                spec_actor_key(inner@.access, target_view.0.owner_id) is Some,
                i <= refs@.len(),
                references_view(refs@) == spec_content_references(c),
                c is Encrypted,
                locked@ == c->locked_access_key,
                bmap == store.spec_blocks(),
                inner@.access.data_key == Some(data_key@),
                forall|fk: Seq<u8>|
                    fk.len() == 32 && locked.cipher_text@ + locked.tag@ == #[trigger] xchacha20poly1305_seal(
                        data_key@,
                        locked.nonce@,
                        fk,
                    ) ==> fk == file_key@,
                forall|data: Seq<u8>, dk: Seq<u8>|
                    inner@.access.data_key == Some(dk) && #[trigger] spec_stored(c, data, dk, bmap) ==> out@ == spec_concat(
                        spec_chunks(data).take(i as int),
                    ),
            decreases refs@.len() - i,
        {
            let cid = refs[i].data_block_cid;
            assert(references_view(refs@)[i as int] == refs@[i as int]@);
            match store.contains_cid(cid) {
                Ok(true) => {},
                Ok(false) => {
                    proof {
                        lemma_stored_step(c, bmap, data_key@, file_key@, i as int);
                    }
                    return Err(OperationError::BlockUnavailable(cid));
                },
                Err(e) => return Err(OperationError::DataStore(e)),
            }
            let block = match store.retrieve(cid) {
                Ok(b) => b,
                Err(e) => return Err(OperationError::DataStore(e)),
            };
            let chunk = match open_block(&file_key, block.as_slice()) {
                Some(v) => v,
                None => {
                    proof {
                        lemma_stored_step(c, bmap, data_key@, file_key@, i as int);
                    }
                    return Err(OperationError::BlockCorrupted(cid));
                },
            };
            proof {
                lemma_stored_step(c, bmap, data_key@, file_key@, i as int);
                assert forall|data: Seq<u8>, dk: Seq<u8>|
                    inner@.access.data_key == Some(dk) && #[trigger] spec_stored(c, data, dk, bmap) implies chunk@
                        == spec_chunks(data)[i as int] by {
                    assert(spec_block_of(file_key@, spec_chunks(data)[i as int], block@));
                }
            }
            let locations = refs[i].chunks();
            let ghost out0 = out@;
            proof {
                assert(locations_view(locations@) == spec_content_references(c)[i as int].chunks);
                assert forall|data: Seq<u8>, dk: Seq<u8>|
                    inner@.access.data_key == Some(dk) && #[trigger] spec_stored(c, data, dk, bmap) implies locations@.len() == 1
                        && locations_view(locations@)[0].index == 0 by {
                    assert(locations_view(locations@).len() == locations@.len());
                }
            }
            let mut j: usize = 0;
            while j < locations.len()
                invariant
                    spec_read_content(inner@, self.current_actor@, self.cwd_id, spec_path(path)) == Ok::<
                        (NodeView, FileContentView),
                        OperationErrorView,
                    >(target_view),
                    target_view.1 == c,
                    spec_actor_key(inner@.access, target_view.0.owner_id) is Some,
                    i < refs@.len(),
                    references_view(refs@) == spec_content_references(c),
                    c is Encrypted,
                    locked@ == c->locked_access_key,
                    bmap == store.spec_blocks(),
                    inner@.access.data_key == Some(data_key@),
                    forall|fk: Seq<u8>|
                        fk.len() == 32 && locked.cipher_text@ + locked.tag@ == #[trigger] xchacha20poly1305_seal(
                            data_key@,
                            locked.nonce@,
                            fk,
                        ) ==> fk == file_key@,
                    forall|data: Seq<u8>, dk: Seq<u8>|
                        inner@.access.data_key == Some(dk) && #[trigger] spec_stored(c, data, dk, bmap) ==> out0 == spec_concat(
                            spec_chunks(data).take(i as int),
                        ) && chunk@ == spec_chunks(data)[i as int] && i < spec_chunks(data).len(),
                    j <= locations@.len(),
                    locations_view(locations@) == spec_content_references(c)[i as int].chunks,
                    forall|data: Seq<u8>, dk: Seq<u8>|
                        inner@.access.data_key == Some(dk) && #[trigger] spec_stored(c, data, dk, bmap) ==> {
                            &&& locations@.len() == 1
                            &&& locations_view(locations@)[0].index == 0
                            &&& out@ == (if j == 0 { out0 } else { out0 + chunk@ })
                        },
                decreases locations@.len() - j,
            {
                if locations[j].block_index != 0 {
                    return Err(OperationError::BlockCorrupted(cid));
                }
                put_bytes(&mut out, chunk.as_slice());
                j = j + 1;
            }
            proof {
                assert forall|data: Seq<u8>, dk: Seq<u8>|
                    inner@.access.data_key == Some(dk) && #[trigger] spec_stored(c, data, dk, bmap) implies out@ == spec_concat(
                        spec_chunks(data).take(i + 1),
                    ) by {
                    let ch = spec_chunks(data);
                    assert(ch.take(i + 1).drop_last() =~= ch.take(i as int));
                    assert(ch.take(i + 1).last() == ch[i as int]);
                }
            }
            i = i + 1;
        }
        proof {
            assert forall|data: Seq<u8>, dk: Seq<u8>|
                inner@.access.data_key == Some(dk) && #[trigger] spec_stored(c, data, dk, bmap) implies out@ == data by {
                lemma_chunks_concat(data);
                let lk = c->locked_access_key;
                let (fk, blocks) = choose|file_key: Seq<u8>, blocks: Seq<Seq<u8>>|
                    {
                        &&& file_key.len() == 32
                        &&& lk.cipher_text + lk.tag == #[trigger] xchacha20poly1305_seal(dk, lk.nonce, file_key)
                        &&& #[trigger] spec_blocks_held(spec_content_references(c), blocks, file_key, spec_chunks(data), bmap)
                    };
                assert(spec_chunks(data).take(i as int) =~= spec_chunks(data));
            }
        }
        Ok(out)
    }
}

} // verus!
