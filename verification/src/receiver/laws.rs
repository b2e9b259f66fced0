//! What holds of a receiver across frames.
use vstd::prelude::*;

use crate::bytes::{BlockId, MerkleRoot, ROOT_ZERO};
use crate::frame::{BulkFrame, ResyncFrame};
use crate::receiver::bulk::{all_unpack, bulk_finished, bulk_handled, holding, joined, stores, stores_to,
    DecodeFailure, Fountain};
use crate::receiver::log::{absent, present, resynced, window};
use crate::receiver::{appended, appends, appends_to, ReceiverView, Resolved};
use crate::store::{deterministic, inserted, lemma_rolls_nowhere, lemma_rolls_on, rolling_root_is_unique, rolls_to, StoreView};
use crate::unpack::{chunks, Codec, ReceiverError};

verus! {

/// The ids of some items.
pub open spec fn item_ids<B>(items: Seq<Resolved<B>>) -> Seq<BlockId> {
    Seq::new(items.len(), |i: int| items[i].id())
}

/// The ids of some blocks.
pub open spec fn block_ids<B>(blocks: Seq<(B, BlockId)>) -> Seq<BlockId> {
    Seq::new(blocks.len(), |i: int| blocks[i].1)
}

/// The last step of an append.
pub proof fn lemma_appends_last<B, G, H: Fn(&MerkleRoot, &BlockId) -> MerkleRoot>(
    h: H,
    a: ReceiverView<B, G>,
    session_id: u128,
    items: Seq<Resolved<B>>,
    b: ReceiverView<B, G>,
) -> (mid: ReceiverView<B, G>)
    requires
        appends_to(h, a, session_id, items, b),
        items.len() > 0,
    ensures
        appends_to(h, a, session_id, items.drop_last(), mid),
        appended(h, mid, session_id, items.last(), b),
{
    let states = choose|states: Seq<ReceiverView<B, G>>|
        #[trigger] appends(h, session_id, items, states) && states[0] == a && states.last() == b;
    let n = items.len() - 1;
    let fewer = states.drop_last();
    let head = items.drop_last();
    assert forall|i: int| 0 <= i < head.len() implies appended(h, fewer[i], session_id, #[trigger] head[i], fewer[i + 1]) by {
        assert(appended(h, states[i], session_id, items[i], states[i + 1]));
    }
    assert(appends(h, session_id, head, fewer));
    assert(appended(h, states[n], session_id, items[n], states[n + 1]));
    states[n]
}

/// Blocks land in frame order: the session's ids and the store's log grow by the ids of
/// the items, in their order.
pub proof fn appends_land_in_frame_order<B, G, H: Fn(&MerkleRoot, &BlockId) -> MerkleRoot>(
    h: H,
    a: ReceiverView<B, G>,
    session_id: u128,
    items: Seq<Resolved<B>>,
    b: ReceiverView<B, G>,
)
    requires
        appends_to(h, a, session_id, items, b),
    ensures
        b.session(session_id).ids == a.session(session_id).ids + item_ids(items),
        b.store.log(session_id).ids == a.store.log(session_id).ids + item_ids(items),
    decreases items.len(),
{
    if items.len() == 0 {
        let states = choose|states: Seq<ReceiverView<B, G>>|
            #[trigger] appends(h, session_id, items, states) && states[0] == a && states.last() == b;
        assert(b == a);
        assert(a.session(session_id).ids + item_ids(items) =~= a.session(session_id).ids);
        assert(a.store.log(session_id).ids + item_ids(items) =~= a.store.log(session_id).ids);
    } else {
        let mid = lemma_appends_last(h, a, session_id, items, b);
        appends_land_in_frame_order(h, a, session_id, items.drop_last(), mid);
        assert(item_ids(items) =~= item_ids(items.drop_last()).push(items.last().id()));
        assert(b.session(session_id).ids =~= a.session(session_id).ids + item_ids(items));
        assert(b.store.log(session_id).ids =~= a.store.log(session_id).ids + item_ids(items));
    }
}

/// The session's root is the rolling hash of its ids from the zero root, and appending
/// keeps it so; so is the root that is acknowledged.
pub proof fn appends_roll_the_root<B, G, H: Fn(&MerkleRoot, &BlockId) -> MerkleRoot>(
    h: H,
    a: ReceiverView<B, G>,
    session_id: u128,
    items: Seq<Resolved<B>>,
    b: ReceiverView<B, G>,
)
    requires
        appends_to(h, a, session_id, items, b),
        rolls_to(h, ROOT_ZERO, a.session(session_id).ids, a.session(session_id).root),
    ensures
        rolls_to(h, ROOT_ZERO, b.session(session_id).ids, b.session(session_id).root),
    decreases items.len(),
{
    if items.len() == 0 {
        let states = choose|states: Seq<ReceiverView<B, G>>|
            #[trigger] appends(h, session_id, items, states) && states[0] == a && states.last() == b;
        assert(b == a);
    } else {
        let mid = lemma_appends_last(h, a, session_id, items, b);
        appends_roll_the_root(h, a, session_id, items.drop_last(), mid);
        let x = mid.session(session_id);
        lemma_rolls_on(h, ROOT_ZERO, x.ids, x.root, items.last().id(), b.session(session_id).root);
    }
}

/// A session that is not known yet has the root of no ids.
pub proof fn fresh_session_is_rolled<B, G, H: Fn(&MerkleRoot, &BlockId) -> MerkleRoot>(
    h: H,
    a: ReceiverView<B, G>,
    session_id: u128,
)
    requires
        !a.sessions.contains_key(session_id),
    ensures
        rolls_to(h, ROOT_ZERO, a.session(session_id).ids, a.session(session_id).root),
{
    lemma_rolls_nowhere(h, ROOT_ZERO);
}

/// The store's root and the session's root move in lockstep under appends: equal before,
/// they are equal after.
pub proof fn appends_keep_roots_in_lockstep<B, G, H: Fn(&MerkleRoot, &BlockId) -> MerkleRoot>(
    h: H,
    a: ReceiverView<B, G>,
    session_id: u128,
    items: Seq<Resolved<B>>,
    b: ReceiverView<B, G>,
)
    requires
        deterministic(h),
        appends_to(h, a, session_id, items, b),
        a.session(session_id).root == a.store.log(session_id).root,
    ensures
        b.session(session_id).root == b.store.log(session_id).root,
    decreases items.len(),
{
    if items.len() == 0 {
        let states = choose|states: Seq<ReceiverView<B, G>>|
            #[trigger] appends(h, session_id, items, states) && states[0] == a && states.last() == b;
        assert(b == a);
    } else {
        let mid = lemma_appends_last(h, a, session_id, items, b);
        appends_keep_roots_in_lockstep(h, a, session_id, items.drop_last(), mid);
        let id = items.last().id();
        assert(call_ensures(h, (&mid.session(session_id).root, &id), b.session(session_id).root));
        assert(call_ensures(h, (&mid.store.log(session_id).root, &id), b.store.log(session_id).root));
    }
}

/// Appending to one session leaves the others as they are, and no block is lost or changed.
pub proof fn appends_leave_the_rest<B, G, H: Fn(&MerkleRoot, &BlockId) -> MerkleRoot>(
    h: H,
    a: ReceiverView<B, G>,
    session_id: u128,
    items: Seq<Resolved<B>>,
    b: ReceiverView<B, G>,
    other: u128,
    id: BlockId,
)
    requires
        appends_to(h, a, session_id, items, b),
        other != session_id,
    ensures
        b.session(other) == a.session(other),
        b.store.log(other) == a.store.log(other),
        a.store.blocks.contains_key(id) ==> b.store.blocks.contains_key(id) && b.store.blocks[id] == a.store.blocks[id],
    decreases items.len(),
{
    if items.len() == 0 {
        let states = choose|states: Seq<ReceiverView<B, G>>|
            #[trigger] appends(h, session_id, items, states) && states[0] == a && states.last() == b;
        assert(b == a);
    } else {
        let mid = lemma_appends_last(h, a, session_id, items, b);
        appends_leave_the_rest(h, a, session_id, items.drop_last(), mid, other, id);
    }
}

/// Every id of the session's log has its block in the store.
pub open spec fn whole<B, G>(a: ReceiverView<B, G>, session_id: u128) -> bool {
    let ids = a.session(session_id).ids;
    forall|i: int| 0 <= i < ids.len() ==> a.store.blocks.contains_key(#[trigger] ids[i])
}

/// What is appended reads back: a log without gaps has none after an append, and so reads
/// back whole, the new blocks at its end in the order of the items.
pub proof fn appended_log_reads_back<B, G, H: Fn(&MerkleRoot, &BlockId) -> MerkleRoot>(
    h: H,
    a: ReceiverView<B, G>,
    session_id: u128,
    items: Seq<Resolved<B>>,
    b: ReceiverView<B, G>,
)
    requires
        appends_to(h, a, session_id, items, b),
        whole(a, session_id),
    ensures
        whole(b, session_id),
        present(b.session(session_id).ids, b.store.blocks) == a.session(session_id).ids + item_ids(items),
    decreases items.len(),
{
    if items.len() == 0 {
        let states = choose|states: Seq<ReceiverView<B, G>>|
            #[trigger] appends(h, session_id, items, states) && states[0] == a && states.last() == b;
        assert(b == a);
    } else {
        let mid = lemma_appends_last(h, a, session_id, items, b);
        appended_log_reads_back(h, a, session_id, items.drop_last(), mid);
        let ids = b.session(session_id).ids;
        let before = mid.session(session_id).ids;
        assert forall|i: int| 0 <= i < ids.len() implies b.store.blocks.contains_key(#[trigger] ids[i]) by {
            if i < before.len() {
                assert(mid.store.blocks.contains_key(before[i]));
            }
        }
    }
    appends_land_in_frame_order(h, a, session_id, items, b);
    whole_log_reads_back(b.session(session_id).ids, b.store.blocks);
}

/// The items that come with their block name blocks by content: one id, one block, among
/// themselves and with the store.
pub open spec fn content_addressed<B>(items: Seq<Resolved<B>>, blocks: Map<BlockId, B>) -> bool {
    &&& forall|i: int|
        0 <= i < items.len() && (#[trigger] items[i]) is Inline && blocks.contains_key(items[i].id()) ==> blocks[items[i].id()]
            == items[i]->block
    &&& forall|i: int, j: int|
        0 <= i < items.len() && 0 <= j < items.len() && (#[trigger] items[i]) is Inline && (#[trigger] items[j]) is Inline
            && items[i].id() == items[j].id() ==> items[i]->block == items[j]->block
}

/// A block that came with an append is what the store has under its id afterwards.
pub proof fn appended_blocks_are_kept<B, G, H: Fn(&MerkleRoot, &BlockId) -> MerkleRoot>(
    h: H,
    a: ReceiverView<B, G>,
    session_id: u128,
    items: Seq<Resolved<B>>,
    b: ReceiverView<B, G>,
    n: int,
)
    requires
        appends_to(h, a, session_id, items, b),
        content_addressed(items, a.store.blocks),
        0 <= n < items.len(),
        items[n] is Inline,
    ensures
        b.store.blocks.contains_key(items[n].id()),
        b.store.blocks[items[n].id()] == items[n]->block,
{
    lemma_appended_is_there(h, a, session_id, items, b, n);
    lemma_kept_or_new(h, a, session_id, items, b, items[n].id());
}

/// The block of an appended item is in the store.
pub proof fn lemma_appended_is_there<B, G, H: Fn(&MerkleRoot, &BlockId) -> MerkleRoot>(
    h: H,
    a: ReceiverView<B, G>,
    session_id: u128,
    items: Seq<Resolved<B>>,
    b: ReceiverView<B, G>,
    n: int,
)
    requires
        appends_to(h, a, session_id, items, b),
        0 <= n < items.len(),
    ensures
        b.store.blocks.contains_key(items[n].id()),
    decreases items.len(),
{
    let mid = lemma_appends_last(h, a, session_id, items, b);
    if n < items.len() - 1 {
        lemma_appended_is_there(h, a, session_id, items.drop_last(), mid, n);
    }
}

/// A block in the store after an append was there before or came with an item.
pub proof fn lemma_kept_or_new<B, G, H: Fn(&MerkleRoot, &BlockId) -> MerkleRoot>(
    h: H,
    a: ReceiverView<B, G>,
    session_id: u128,
    items: Seq<Resolved<B>>,
    b: ReceiverView<B, G>,
    id: BlockId,
)
    requires
        appends_to(h, a, session_id, items, b),
        b.store.blocks.contains_key(id),
    ensures
        ({
            ||| a.store.blocks.contains_key(id) && b.store.blocks[id] == a.store.blocks[id]
            ||| exists|i: int|
                0 <= i < items.len() && #[trigger] items[i] == (Resolved::Inline { id, block: b.store.blocks[id] })
        }),
    decreases items.len(),
{
    if items.len() == 0 {
        let states = choose|states: Seq<ReceiverView<B, G>>|
            #[trigger] appends(h, session_id, items, states) && states[0] == a && states.last() == b;
        assert(b == a);
    } else {
        let mid = lemma_appends_last(h, a, session_id, items, b);
        if mid.store.blocks.contains_key(id) {
            let head = items.drop_last();
            lemma_kept_or_new(h, a, session_id, head, mid, id);
            assert(b.store.blocks[id] == mid.store.blocks[id]);
            if !(a.store.blocks.contains_key(id) && mid.store.blocks[id] == a.store.blocks[id]) {
                let i = choose|i: int|
                    0 <= i < head.len() && #[trigger] head[i] == (Resolved::Inline { id, block: mid.store.blocks[id] });
                assert(items[i] == head[i]);
            }
        } else {
            assert(items[items.len() - 1] == (Resolved::Inline { id, block: b.store.blocks[id] }));
        }
    }
}

/// What is named missing is exactly what the manifest lists and the store lacks.
pub proof fn missing_is_what_the_store_lacks<B>(ids: Seq<BlockId>, blocks: Map<BlockId, B>, id: BlockId)
    ensures
        absent(ids, blocks).contains(id) <==> ids.contains(id) && !blocks.contains_key(id),
    decreases ids.len(),
{
    if ids.len() > 0 {
        let head = ids.drop_last();
        missing_is_what_the_store_lacks(head, blocks, id);
        if ids.contains(id) && id != ids.last() {
            let i = choose|i: int| 0 <= i < ids.len() && ids[i] == id;
            assert(head[i] == id);
        }
        if head.contains(id) {
            let i = choose|i: int| 0 <= i < head.len() && head[i] == id;
            assert(ids[i] == id);
        }
        let m = absent(head, blocks);
        if !blocks.contains_key(ids.last()) {
            let all = m.push(ids.last());
            assert(all[m.len() as int] == ids.last());
            if m.contains(id) {
                let i = choose|i: int| 0 <= i < m.len() && m[i] == id;
                assert(all[i] == id);
            }
            if all.contains(id) && id != ids.last() {
                let i = choose|i: int| 0 <= i < all.len() && all[i] == id;
                assert(m[i] == id);
            }
        }
        assert(ids[ids.len() - 1] == ids.last());
    }
}

/// Once no block of the log is missing, the log reads back whole and in its order.
pub proof fn whole_log_reads_back<B>(ids: Seq<BlockId>, blocks: Map<BlockId, B>)
    requires
        forall|i: int| 0 <= i < ids.len() ==> blocks.contains_key(#[trigger] ids[i]),
    ensures
        present(ids, blocks) == ids,
        absent(ids, blocks) == Seq::<BlockId>::empty(),
    decreases ids.len(),
{
    if ids.len() > 0 {
        let head = ids.drop_last();
        assert forall|i: int| 0 <= i < head.len() implies blocks.contains_key(#[trigger] head[i]) by {
            assert(blocks.contains_key(ids[i]));
        }
        whole_log_reads_back(head, blocks);
        assert(blocks.contains_key(ids[ids.len() - 1]));
        assert(head.push(ids.last()) =~= ids);
    } else {
        assert(absent(ids, blocks) =~= Seq::<BlockId>::empty());
    }
}

/// A window over the whole log is the log.
pub proof fn whole_window_is_the_log(ids: Seq<BlockId>, to: int)
    requires
        to >= ids.len(),
    ensures
        window(ids, 0, to) == ids,
{
    assert(window(ids, 0, to) =~= ids);
}

/// Bulk transfer does not touch a session's order or root, whatever order its generations
/// arrive in.
pub proof fn bulk_keeps_order_and_root<B, G, S, H, C, D, P, N, A, F>(
    h: H,
    compressor: C,
    codec: Codec<D, P>,
    fountain: Fountain<N, A, F>,
    a: ReceiverView<B, G>,
    frame: BulkFrame<S>,
    b: ReceiverView<B, G>,
    r: Result<bool, ReceiverError>,
    any: u128,
) where
    H: Fn(&MerkleRoot, &BlockId) -> MerkleRoot,
    D: Fn(&C, &[u8]) -> Result<Vec<u8>, String>,
    P: Fn(Vec<u8>) -> Result<(B, BlockId), String>,
    N: Fn(usize, usize) -> G,
    A: Fn(G, &S) -> (G, Result<(), String>),
    F: Fn(G) -> (G, Result<Vec<Vec<u8>>, DecodeFailure>),

    requires
        bulk_handled(h, compressor, codec, fountain, a, frame, b, r),
    ensures
        b.session(any).ids == a.session(any).ids,
        b.session(any).root == a.session(any).root,
{
}

/// The last step of storing blocks.
pub proof fn lemma_stores_last<B, H: Fn(&MerkleRoot, &BlockId) -> MerkleRoot>(
    h: H,
    a: StoreView<B>,
    session_id: u128,
    blocks: Seq<(B, BlockId)>,
    b: StoreView<B>,
) -> (mid: StoreView<B>)
    requires
        stores_to(h, a, session_id, blocks, b),
        blocks.len() > 0,
    ensures
        stores_to(h, a, session_id, blocks.drop_last(), mid),
        inserted(h, mid, session_id, blocks.last().0, blocks.last().1, b),
{
    let states = choose|states: Seq<StoreView<B>>|
        #[trigger] stores(h, session_id, blocks, states) && states[0] == a && states.last() == b;
    let n = blocks.len() - 1;
    let fewer = states.drop_last();
    let head = blocks.drop_last();
    assert forall|i: int| 0 <= i < head.len() implies inserted(
        h, fewer[i], session_id, (#[trigger] head[i]).0, head[i].1, fewer[i + 1]) by {
        let t = blocks[i];
        assert(inserted(h, states[i], session_id, t.0, t.1, states[i + 1]));
    }
    assert(stores(h, session_id, head, fewer));
    let t = blocks[n];
    assert(inserted(h, states[n], session_id, t.0, t.1, states[n + 1]));
    states[n]
}

/// Recovered blocks are kept, and logged in the order of the stream.
pub proof fn recovered_blocks_are_logged_in_order<B, H: Fn(&MerkleRoot, &BlockId) -> MerkleRoot>(
    h: H,
    a: StoreView<B>,
    session_id: u128,
    blocks: Seq<(B, BlockId)>,
    b: StoreView<B>,
)
    requires
        stores_to(h, a, session_id, blocks, b),
        rolls_to(h, ROOT_ZERO, a.log(session_id).ids, a.log(session_id).root),
    ensures
        b.log(session_id).ids == a.log(session_id).ids + block_ids(blocks),
        rolls_to(h, ROOT_ZERO, b.log(session_id).ids, b.log(session_id).root),
        forall|i: int| 0 <= i < blocks.len() ==> b.blocks.contains_key((#[trigger] blocks[i]).1),
        forall|id: BlockId| #[trigger] a.blocks.contains_key(id) ==> b.blocks.contains_key(id) && b.blocks[id] == a.blocks[id],
    decreases blocks.len(),
{
    if blocks.len() == 0 {
        let states = choose|states: Seq<StoreView<B>>|
            #[trigger] stores(h, session_id, blocks, states) && states[0] == a && states.last() == b;
        assert(b == a);
        assert(a.log(session_id).ids + block_ids(blocks) =~= a.log(session_id).ids);
    } else {
        let head = blocks.drop_last();
        let last = blocks.last();
        let mid = lemma_stores_last(h, a, session_id, blocks, b);
        recovered_blocks_are_logged_in_order(h, a, session_id, head, mid);
        let x = mid.log(session_id);
        lemma_rolls_on(h, ROOT_ZERO, x.ids, x.root, last.1, b.log(session_id).root);
        assert(block_ids(blocks) =~= block_ids(head).push(last.1));
        assert(b.log(session_id).ids =~= a.log(session_id).ids + block_ids(blocks));
        assert forall|i: int| 0 <= i < blocks.len() implies b.blocks.contains_key((#[trigger] blocks[i]).1) by {
            if i < head.len() {
                assert(mid.blocks.contains_key(head[i].1));
            }
        }
    }
}

/// A cold start on an empty log: recovering the manifest's blocks in its order gives the
/// store the client's root, so that the next append builds on a root that both agree on,
/// and the log reads back whole.
pub proof fn cold_start_reproduces_the_client_root<B, H: Fn(&MerkleRoot, &BlockId) -> MerkleRoot>(
    h: H,
    a: StoreView<B>,
    session_id: u128,
    blocks: Seq<(B, BlockId)>,
    b: StoreView<B>,
    manifest: Seq<BlockId>,
    client_root: MerkleRoot,
)
    requires
        deterministic(h),
        !a.logs.contains_key(session_id),
        stores_to(h, a, session_id, blocks, b),
        block_ids(blocks) == manifest,
        rolls_to(h, ROOT_ZERO, manifest, client_root),
    ensures
        b.log(session_id).root == client_root,
        b.log(session_id).ids == manifest,
        present(manifest, b.blocks) == manifest,
{
    lemma_rolls_nowhere(h, ROOT_ZERO);
    recovered_blocks_are_logged_in_order(h, a, session_id, blocks, b);
    assert(a.log(session_id).ids + block_ids(blocks) =~= manifest);
    rolling_root_is_unique(h, ROOT_ZERO, manifest, b.log(session_id).root, client_root);
    assert forall|i: int| 0 <= i < manifest.len() implies b.blocks.contains_key(#[trigger] manifest[i]) by {
        assert(block_ids(blocks)[i] == manifest[i]);
        assert(b.blocks.contains_key(blocks[i].1));
    }
    whole_log_reads_back(manifest, b.blocks);
}

/// Generations that complete one after the other store what one generation with all their
/// blocks would.
pub proof fn successive_generations_store_as_one<B, H: Fn(&MerkleRoot, &BlockId) -> MerkleRoot>(
    h: H,
    a: StoreView<B>,
    session_id: u128,
    first: Seq<(B, BlockId)>,
    mid: StoreView<B>,
    second: Seq<(B, BlockId)>,
    b: StoreView<B>,
)
    requires
        stores_to(h, a, session_id, first, mid),
        stores_to(h, mid, session_id, second, b),
    ensures
        stores_to(h, a, session_id, first + second, b),
{
    let xs = choose|states: Seq<StoreView<B>>|
        #[trigger] stores(h, session_id, first, states) && states[0] == a && states.last() == mid;
    let ys = choose|states: Seq<StoreView<B>>|
        #[trigger] stores(h, session_id, second, states) && states[0] == mid && states.last() == b;
    let all = first + second;
    let states = xs + ys.drop_first();
    assert forall|i: int| 0 <= i < all.len() implies inserted(
        h, states[i], session_id, (#[trigger] all[i]).0, all[i].1, states[i + 1]) by {
        if i < first.len() {
            let t = first[i];
            assert(inserted(h, xs[i], session_id, t.0, t.1, xs[i + 1]));
        } else {
            let j = i - first.len();
            let t = second[j];
            assert(inserted(h, ys[j], session_id, t.0, t.1, ys[j + 1]));
            assert(states[i] == ys[j]);
        }
    }
    assert(stores(h, session_id, all, states));
    assert(states.last() == b);
}

/// The repair of a session that the receiver has never seen: a resync, and then a
/// generation whose stream carries the blocks named missing, in that order. The session's
/// root and the store's are both the client's, so the next append builds on them, and the
/// log reads back whole, in the manifest's order.
pub proof fn cold_start_repairs_the_session<B, G, H, C, D, P>(
    h: H,
    compressor: C,
    codec: Codec<D, P>,
    a: ReceiverView<B, G>,
    frame: ResyncFrame,
    generation: u32,
    g: G,
    symbols: Vec<Vec<u8>>,
    b: ReceiverView<B, G>,
) where
    H: Fn(&MerkleRoot, &BlockId) -> MerkleRoot,
    D: Fn(&C, &[u8]) -> Result<Vec<u8>, String>,
    P: Fn(Vec<u8>) -> Result<(B, BlockId), String>,

    requires
        deterministic(h),
        !a.store.logs.contains_key(frame.session_id),
        absent(frame.manifest@, a.store.blocks) == frame.manifest@,
        rolls_to(h, ROOT_ZERO, frame.manifest@, frame.client_root),
        forall|blocks: Seq<(B, BlockId)>|
            #[trigger] all_unpack(compressor, codec, chunks(joined(symbols@)), blocks) ==> block_ids(blocks) == absent(
                frame.manifest@,
                a.store.blocks,
            ),
        bulk_finished(
            h,
            compressor,
            codec,
            holding(resynced(a, frame), frame.session_id, generation, g),
            frame.session_id,
            generation,
            Ok(symbols),
            b,
            Ok(true),
        ),
    ensures
        b.session(frame.session_id).root == frame.client_root,
        b.store.log(frame.session_id).root == frame.client_root,
        b.session(frame.session_id).ids == frame.manifest@,
        present(b.session(frame.session_id).ids, b.store.blocks) == frame.manifest@,
{
    let held = holding(resynced(a, frame), frame.session_id, generation, g);
    let cs = chunks(joined(symbols@));
    let blocks = choose|blocks: Seq<(B, BlockId)>|
        #[trigger] all_unpack(compressor, codec, cs, blocks) && stores_to(h, held.store, frame.session_id, blocks, b.store);
    cold_start_reproduces_the_client_root(
        h,
        a.store,
        frame.session_id,
        blocks,
        b.store,
        frame.manifest@,
        frame.client_root,
    );
}

} // verus!
