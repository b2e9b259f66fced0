//! What the repair of a session gives: a resync, bulk frames, and appends again.
use vstd::prelude::*;

use crate::bytes::{BlockId, MerkleRoot};
use crate::frame::{AckFrame, AppendFrame, BulkFrame, ResyncFrame};
use crate::receiver::bulk::{bulk_handled, stores, stores_to, DecodeFailure, Fountain};
use crate::receiver::laws::{appends_land_in_frame_order, appends_leave_the_rest, bulk_keeps_order_and_root, item_ids,
    lemma_appended_is_there, lemma_stores_last, missing_is_what_the_store_lacks, whole_log_reads_back};
use crate::receiver::log::{absent, present, resynced};
use crate::receiver::{all_resolve, append_handled, committed, fails_at, stuck_at, ReceiverView, Resolved};
use crate::store::StoreView;
use crate::unpack::{Codec, ReceiverError};

verus! {

/// `states` are the receivers that bulk frames, handled one after the other, pass through.
pub open spec fn bulks<B, G, S, H, C, D, P, N, A, F>(
    h: H,
    compressor: C,
    codec: Codec<D, P>,
    fountain: Fountain<N, A, F>,
    frames: Seq<BulkFrame<S>>,
    answers: Seq<Result<bool, ReceiverError>>,
    states: Seq<ReceiverView<B, G>>,
) -> bool where
    H: Fn(&MerkleRoot, &BlockId) -> MerkleRoot,
    D: Fn(&C, &[u8]) -> Result<Vec<u8>, String>,
    P: Fn(Vec<u8>) -> Result<(B, BlockId), String>,
    N: Fn(usize, usize) -> G,
    A: Fn(G, &S) -> (G, Result<(), String>),
    F: Fn(G) -> (G, Result<Vec<Vec<u8>>, DecodeFailure>),
 {
    &&& answers.len() == frames.len()
    &&& states.len() == frames.len() + 1
    &&& forall|i: int|
        0 <= i < frames.len() ==> bulk_handled(
            h,
            compressor,
            codec,
            fountain,
            states[i],
            #[trigger] frames[i],
            states[i + 1],
            answers[i],
        )
}

/// Storing blocks loses and changes none.
proof fn lemma_stores_keep<B, H: Fn(&MerkleRoot, &BlockId) -> MerkleRoot>(
    h: H,
    a: StoreView<B>,
    session_id: u128,
    blocks: Seq<(B, BlockId)>,
    b: StoreView<B>,
    id: BlockId,
)
    requires
        stores_to(h, a, session_id, blocks, b),
        a.blocks.contains_key(id),
    ensures
        b.blocks.contains_key(id),
        b.blocks[id] == a.blocks[id],
    decreases blocks.len(),
{
    if blocks.len() == 0 {
        let states = choose|states: Seq<StoreView<B>>|
            #[trigger] stores(h, session_id, blocks, states) && states[0] == a && states.last() == b;
        assert(b == a);
    } else {
        let mid = lemma_stores_last(h, a, session_id, blocks, b);
        lemma_stores_keep(h, a, session_id, blocks.drop_last(), mid, id);
    }
}

/// Bulk frames, whatever they carry and whatever comes of them, leave the order and the
/// root of every session as they are, and lose and change no block.
pub proof fn bulk_frames_only_add<B, G, S, H, C, D, P, N, A, F>(
    h: H,
    compressor: C,
    codec: Codec<D, P>,
    fountain: Fountain<N, A, F>,
    frames: Seq<BulkFrame<S>>,
    answers: Seq<Result<bool, ReceiverError>>,
    states: Seq<ReceiverView<B, G>>,
    any: u128,
    id: BlockId,
) where
    H: Fn(&MerkleRoot, &BlockId) -> MerkleRoot,
    D: Fn(&C, &[u8]) -> Result<Vec<u8>, String>,
    P: Fn(Vec<u8>) -> Result<(B, BlockId), String>,
    N: Fn(usize, usize) -> G,
    A: Fn(G, &S) -> (G, Result<(), String>),
    F: Fn(G) -> (G, Result<Vec<Vec<u8>>, DecodeFailure>),

    requires
        bulks(h, compressor, codec, fountain, frames, answers, states),
    ensures
        states.last().session(any).ids == states[0].session(any).ids,
        states.last().session(any).root == states[0].session(any).root,
        states[0].sessions.contains_key(any) ==> states.last().sessions.contains_key(any),
        states[0].store.blocks.contains_key(id) ==> {
            &&& states.last().store.blocks.contains_key(id)
            &&& states.last().store.blocks[id] == states[0].store.blocks[id]
        },
    decreases frames.len(),
{
    if frames.len() > 0 {
        let n = frames.len() - 1;
        let head = frames.drop_last();
        let before = answers.drop_last();
        let fewer = states.drop_last();
        assert forall|i: int| 0 <= i < head.len() implies bulk_handled(
            h,
            compressor,
            codec,
            fountain,
            fewer[i],
            #[trigger] head[i],
            fewer[i + 1],
            before[i],
        ) by {
            assert(bulk_handled(h, compressor, codec, fountain, states[i], frames[i], states[i + 1], answers[i]));
        }
        bulk_frames_only_add(h, compressor, codec, fountain, head, before, fewer, any, id);
        let a = states[n];
        let b = states[n + 1];
        assert(bulk_handled(h, compressor, codec, fountain, a, frames[n], b, answers[n]));
        bulk_keeps_order_and_root(h, compressor, codec, fountain, a, frames[n], b, answers[n], any);
        if a.store.blocks.contains_key(id) && b.store != a.store {
            let blocks = choose|blocks: Seq<(B, BlockId)>| stores_to(h, a.store, frames[n].session_id, blocks, b.store);
            lemma_stores_keep(h, a.store, frames[n].session_id, blocks, b.store, id);
        }
    }
}

/// Every reference among the items is to a block that is in the store, or that comes with
/// an item before it.
pub open spec fn references_resolve<B>(items: Seq<Resolved<B>>, blocks: Map<BlockId, B>) -> bool {
    forall|n: int|
        0 <= n < items.len() && (#[trigger] items[n]) is Ref ==> {
            ||| blocks.contains_key(items[n].id())
            ||| exists|m: int| 0 <= m < n && (#[trigger] items[m]) is Inline && items[m].id() == items[n].id()
        }
}

/// Items whose references resolve are never stuck.
pub proof fn lemma_not_stuck<B, G, H: Fn(&MerkleRoot, &BlockId) -> MerkleRoot>(
    h: H,
    a: ReceiverView<B, G>,
    session_id: u128,
    items: Seq<Resolved<B>>,
    n: int,
    b: ReceiverView<B, G>,
)
    requires
        references_resolve(items, a.store.blocks),
    ensures
        !stuck_at(h, a, session_id, items, n, b),
{
    if stuck_at(h, a, session_id, items, n, b) {
        let head = items.take(n);
        let id = items[n].id();
        if a.store.blocks.contains_key(id) {
            let other: u128 = if session_id == 0 { 1 } else { 0 };
            appends_leave_the_rest(h, a, session_id, head, b, other, id);
        } else {
            let m = choose|m: int| 0 <= m < n && (#[trigger] items[m]) is Inline && items[m].id() == id;
            assert(head[m] == items[m]);
            lemma_appended_is_there(h, a, session_id, head, b, m);
        }
    }
}

/// An append on the root of a known session, none of whose blocks can fail to unpack and
/// whose references resolve, is acknowledged, and the session's log grows by its blocks.
pub proof fn append_on_the_current_root_is_acknowledged<B, G, H, C, D, P>(
    h: H,
    compressor: C,
    codec: Codec<D, P>,
    a: ReceiverView<B, G>,
    frame: AppendFrame,
    b: ReceiverView<B, G>,
    r: Result<AckFrame, ReceiverError>,
) where
    H: Fn(&MerkleRoot, &BlockId) -> MerkleRoot,
    D: Fn(&C, &[u8]) -> Result<Vec<u8>, String>,
    P: Fn(Vec<u8>) -> Result<(B, BlockId), String>,

    requires
        append_handled(h, compressor, codec, a, frame, b, r),
        a.sessions.contains_key(frame.session_id),
        frame.base_root == a.sessions[frame.session_id].root,
        forall|i: int, e: ReceiverError| !#[trigger] fails_at::<B, C, D, P>(compressor, codec, frame.blocks@, i, e),
        forall|items: Seq<Resolved<B>>|
            #[trigger] all_resolve(compressor, codec, frame.blocks@, items) ==> references_resolve(items, a.store.blocks),
    ensures
        r is Ok,
        r->Ok_0 == (AckFrame { session_id: frame.session_id, root: b.session(frame.session_id).root }),
        exists|items: Seq<Resolved<B>>|
            {
                &&& #[trigger] all_resolve(compressor, codec, frame.blocks@, items)
                &&& b.session(frame.session_id).ids == a.session(frame.session_id).ids + item_ids(items)
            },
{
    let items = choose|items: Seq<Resolved<B>>|
        {
            &&& #[trigger] all_resolve(compressor, codec, frame.blocks@, items)
            &&& committed(h, a, frame.session_id, frame.base_root, items, b, r)
        };
    let start = a.knowing(frame.session_id);
    assert(start.sessions =~= a.sessions);
    if r is Err {
        let n = choose|n: int| #[trigger] stuck_at(h, start, frame.session_id, items, n, b);
        lemma_not_stuck(h, start, frame.session_id, items, n, b);
    }
    appends_land_in_frame_order(h, start, frame.session_id, items, b);
}

/// The repair of a session, whatever the receiver held before: after a resync, and any
/// bulk frames, an append on the client's root, none of whose blocks can fail to unpack
/// and whose references resolve, is acknowledged. The session's log is the manifest and
/// then the append's blocks.
pub proof fn resync_lets_appends_go_on<B, G, S, H, C, D, P, N, A, F>(
    h: H,
    compressor: C,
    codec: Codec<D, P>,
    fountain: Fountain<N, A, F>,
    a: ReceiverView<B, G>,
    resync: ResyncFrame,
    frames: Seq<BulkFrame<S>>,
    answers: Seq<Result<bool, ReceiverError>>,
    states: Seq<ReceiverView<B, G>>,
    append: AppendFrame,
    b: ReceiverView<B, G>,
    r: Result<AckFrame, ReceiverError>,
) where
    H: Fn(&MerkleRoot, &BlockId) -> MerkleRoot,
    D: Fn(&C, &[u8]) -> Result<Vec<u8>, String>,
    P: Fn(Vec<u8>) -> Result<(B, BlockId), String>,
    N: Fn(usize, usize) -> G,
    A: Fn(G, &S) -> (G, Result<(), String>),
    F: Fn(G) -> (G, Result<Vec<Vec<u8>>, DecodeFailure>),

    requires
        states[0] == resynced(a, resync),
        bulks(h, compressor, codec, fountain, frames, answers, states),
        append.session_id == resync.session_id,
        append.base_root == resync.client_root,
        append_handled(h, compressor, codec, states.last(), append, b, r),
        forall|i: int, e: ReceiverError| !#[trigger] fails_at::<B, C, D, P>(compressor, codec, append.blocks@, i, e),
        forall|items: Seq<Resolved<B>>|
            #[trigger] all_resolve(compressor, codec, append.blocks@, items) ==> references_resolve(
                items,
                states.last().store.blocks,
            ),
    ensures
        r is Ok,
        r->Ok_0 == (AckFrame { session_id: resync.session_id, root: b.session(resync.session_id).root }),
        exists|items: Seq<Resolved<B>>|
            {
                &&& #[trigger] all_resolve(compressor, codec, append.blocks@, items)
                &&& b.session(resync.session_id).ids == resync.manifest@ + item_ids(items)
            },
{
    let id: BlockId = resync.client_root;
    bulk_frames_only_add(h, compressor, codec, fountain, frames, answers, states, resync.session_id, id);
    append_on_the_current_root_is_acknowledged(h, compressor, codec, states.last(), append, b, r);
}

/// Once bulk frames have brought the blocks that a resync named missing, in whatever order,
/// the session's log reads back whole, in the manifest's order.
pub proof fn repaired_log_reads_back<B, G, S, H, C, D, P, N, A, F>(
    h: H,
    compressor: C,
    codec: Codec<D, P>,
    fountain: Fountain<N, A, F>,
    a: ReceiverView<B, G>,
    resync: ResyncFrame,
    frames: Seq<BulkFrame<S>>,
    answers: Seq<Result<bool, ReceiverError>>,
    states: Seq<ReceiverView<B, G>>,
) where
    H: Fn(&MerkleRoot, &BlockId) -> MerkleRoot,
    D: Fn(&C, &[u8]) -> Result<Vec<u8>, String>,
    P: Fn(Vec<u8>) -> Result<(B, BlockId), String>,
    N: Fn(usize, usize) -> G,
    A: Fn(G, &S) -> (G, Result<(), String>),
    F: Fn(G) -> (G, Result<Vec<Vec<u8>>, DecodeFailure>),

    requires
        states[0] == resynced(a, resync),
        bulks(h, compressor, codec, fountain, frames, answers, states),
        forall|id: BlockId|
            #[trigger] absent(resync.manifest@, a.store.blocks).contains(id) ==> states.last().store.blocks.contains_key(id),
    ensures
        states.last().session(resync.session_id).ids == resync.manifest@,
        states.last().session(resync.session_id).root == resync.client_root,
        present(states.last().session(resync.session_id).ids, states.last().store.blocks) == resync.manifest@,
{
    let ids = resync.manifest@;
    let b = states.last();
    bulk_frames_only_add(h, compressor, codec, fountain, frames, answers, states, resync.session_id, resync.client_root);
    assert forall|i: int| 0 <= i < ids.len() implies b.store.blocks.contains_key(#[trigger] ids[i]) by {
        bulk_frames_only_add(h, compressor, codec, fountain, frames, answers, states, resync.session_id, ids[i]);
        missing_is_what_the_store_lacks(ids, a.store.blocks, ids[i]);
        assert(ids.contains(ids[i]));
    }
    whole_log_reads_back(ids, b.store.blocks);
}

} // verus!
