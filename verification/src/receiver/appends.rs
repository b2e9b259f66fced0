//! What an append frame comes to, told on the frame itself.
use vstd::prelude::*;

use crate::bytes::{BlockId, MerkleRoot, ROOT_ZERO};
use crate::frame::{AckFrame, AppendFrame, FrameBlock};
use crate::receiver::laws::{appends_land_in_frame_order, appends_leave_the_rest, item_ids, lemma_appended_is_there,
    lemma_appends_last, lemma_kept_or_new};
use crate::receiver::repair::{lemma_not_stuck, references_resolve};
use crate::receiver::{all_resolve, append_handled, appends, appends_to, committed, fails_at, resolvable, resolves,
    stuck_at, ReceiverView, Resolved, SessionView};
use crate::store::{lemma_rolls_nowhere, lemma_rolls_on, rolls_to};
use crate::text::mismatch_text;
use crate::unpack::{parse_outcome, unpacked_block_is_parsed, Codec, ReceiverError};

verus! {

/// Compressed bytes decompress to bytes that parse to the block and its id.
pub open spec fn holds_block<B, C, D, P>(compressor: C, codec: Codec<D, P>, comp: Seq<u8>, block: B, id: BlockId) -> bool where
    D: Fn(&C, &[u8]) -> Result<Vec<u8>, String>,
    P: Fn(Vec<u8>) -> Result<(B, BlockId), String>,
 {
    exists|s: &[u8], bytes: Vec<u8>|
        {
            &&& s@ == comp
            &&& #[trigger] call_ensures(codec.decompress, (&compressor, s), Ok(bytes))
            &&& call_ensures(codec.parse, (bytes,), Ok((block, id)))
        }
}

/// `id` is the id of the frame block itself: the one that a reference gives, or the one
/// that decompressing and parsing an inline block gives.
pub open spec fn names<B, C, D, P>(compressor: C, codec: Codec<D, P>, fb: FrameBlock, id: BlockId) -> bool where
    D: Fn(&C, &[u8]) -> Result<Vec<u8>, String>,
    P: Fn(Vec<u8>) -> Result<(B, BlockId), String>,
 {
    match fb {
        FrameBlock::Ref(own) => own == id,
        FrameBlock::Inline(comp) => exists|block: B| #[trigger] holds_block(compressor, codec, comp@, block, id),
    }
}

/// The frame block has an id.
pub open spec fn names_some<B, C, D, P>(compressor: C, codec: Codec<D, P>, fb: FrameBlock) -> bool where
    D: Fn(&C, &[u8]) -> Result<Vec<u8>, String>,
    P: Fn(Vec<u8>) -> Result<(B, BlockId), String>,
 {
    exists|id: BlockId| #[trigger] names::<B, C, D, P>(compressor, codec, fb, id)
}

proof fn lemma_resolved_is_named<B, C, D, P>(compressor: C, codec: Codec<D, P>, fb: FrameBlock, item: Resolved<B>) where
    D: Fn(&C, &[u8]) -> Result<Vec<u8>, String>,
    P: Fn(Vec<u8>) -> Result<(B, BlockId), String>,

    requires
        resolves(compressor, codec, fb, item),
    ensures
        names::<B, C, D, P>(compressor, codec, fb, item.id()),
        item matches Resolved::Inline { id, block } ==> (fb matches FrameBlock::Inline(comp) && holds_block(
            compressor,
            codec,
            comp@,
            block,
            id,
        )),
{
    if let FrameBlock::Inline(comp) = fb {
        if let Resolved::Inline { id, block } = item {
            unpacked_block_is_parsed(compressor, codec, comp@, block, id);
            assert(holds_block(compressor, codec, comp@, block, id));
        }
    }
}

/// The session's root and the store's each absorb the ids of the items, in their order.
proof fn lemma_appends_roll<B, G, H: Fn(&MerkleRoot, &BlockId) -> MerkleRoot>(
    h: H,
    a: ReceiverView<B, G>,
    session_id: u128,
    items: Seq<Resolved<B>>,
    b: ReceiverView<B, G>,
)
    requires
        appends_to(h, a, session_id, items, b),
    ensures
        rolls_to(h, a.session(session_id).root, item_ids(items), b.session(session_id).root),
        rolls_to(h, a.store.log(session_id).root, item_ids(items), b.store.log(session_id).root),
        items.len() > 0 ==> b.sessions.contains_key(session_id) && b.store.logs.contains_key(session_id),
        items.len() == 0 ==> b == a,
    decreases items.len(),
{
    if items.len() == 0 {
        let states = choose|states: Seq<ReceiverView<B, G>>|
            #[trigger] appends(h, session_id, items, states) && states[0] == a && states.last() == b;
        assert(b == a);
        assert(item_ids(items) =~= Seq::empty());
        lemma_rolls_nowhere(h, a.session(session_id).root);
        lemma_rolls_nowhere(h, a.store.log(session_id).root);
    } else {
        let mid = lemma_appends_last(h, a, session_id, items, b);
        let head = items.drop_last();
        let id = items.last().id();
        lemma_appends_roll(h, a, session_id, head, mid);
        assert(item_ids(items) =~= item_ids(head).push(id));
        lemma_rolls_on(
            h,
            a.session(session_id).root,
            item_ids(head),
            mid.session(session_id).root,
            id,
            b.session(session_id).root,
        );
        lemma_rolls_on(
            h,
            a.store.log(session_id).root,
            item_ids(head),
            mid.store.log(session_id).root,
            id,
            b.store.log(session_id).root,
        );
        assert(b.sessions.contains_key(session_id));
        assert(b.store.logs.contains_key(session_id));
    }
}

/// An acknowledged append extends the session's log, and the store's, by the ids of the
/// frame's own blocks: one id for each block, in the frame's order, each the id of the
/// block in its place. The roots absorb these ids in that order, the first from the root
/// that the frame builds on, and the acknowledged root is the session's. Every one of these
/// ids has its block in the store.
pub proof fn acknowledged_append_logs_its_blocks<B, G, H, C, D, P>(
    h: H,
    compressor: C,
    codec: Codec<D, P>,
    a: ReceiverView<B, G>,
    frame: AppendFrame,
    b: ReceiverView<B, G>,
    ack: AckFrame,
) -> (ids: Seq<BlockId>) where
    H: Fn(&MerkleRoot, &BlockId) -> MerkleRoot,
    D: Fn(&C, &[u8]) -> Result<Vec<u8>, String>,
    P: Fn(Vec<u8>) -> Result<(B, BlockId), String>,

    requires
        append_handled(h, compressor, codec, a, frame, b, Ok(ack)),
    ensures
        ids.len() == frame.blocks@.len(),
        forall|i: int|
            0 <= i < ids.len() ==> names::<B, C, D, P>(compressor, codec, frame.blocks@[i], #[trigger] ids[i]),
        forall|i: int| 0 <= i < ids.len() ==> b.store.blocks.contains_key(#[trigger] ids[i]),
        b.sessions.contains_key(frame.session_id),
        b.sessions[frame.session_id].ids == (if a.sessions.contains_key(frame.session_id) {
            a.sessions[frame.session_id].ids + ids
        } else {
            ids
        }),
        ids.len() > 0 ==> {
            &&& b.store.logs.contains_key(frame.session_id)
            &&& b.store.logs[frame.session_id].ids == (if a.store.logs.contains_key(frame.session_id) {
                a.store.logs[frame.session_id].ids + ids
            } else {
                ids
            })
        },
        ids.len() == 0 ==> b.store == a.store,
        frame.base_root == (if a.sessions.contains_key(frame.session_id) {
            a.sessions[frame.session_id].root
        } else {
            ROOT_ZERO
        }),
        !a.sessions.contains_key(frame.session_id) && a.store.logs.contains_key(frame.session_id)
            ==> a.store.logs[frame.session_id].root == ROOT_ZERO,
        rolls_to(h, frame.base_root, ids, b.sessions[frame.session_id].root),
        ack.root == b.sessions[frame.session_id].root,
        ack.session_id == frame.session_id,
{
    let sid = frame.session_id;
    let blocks = frame.blocks@;
    let items = choose|items: Seq<Resolved<B>>|
        {
            &&& #[trigger] all_resolve(compressor, codec, blocks, items)
            &&& committed(h, a, sid, frame.base_root, items, b, Ok(ack))
        };
    let start = a.knowing(sid);
    let ids = item_ids(items);
    appends_land_in_frame_order(h, start, sid, items, b);
    lemma_appends_roll(h, start, sid, items, b);
    assert forall|i: int| 0 <= i < ids.len() implies names::<B, C, D, P>(compressor, codec, blocks[i], #[trigger] ids[i]) by {
        assert(resolves(compressor, codec, blocks[i], items[i]));
        lemma_resolved_is_named(compressor, codec, blocks[i], items[i]);
    }
    assert forall|i: int| 0 <= i < ids.len() implies b.store.blocks.contains_key(#[trigger] ids[i]) by {
        lemma_appended_is_there(h, start, sid, items, b, i);
    }
    assert(Seq::<BlockId>::empty() + ids =~= ids);
    ids
}

/// Blocks that were not in the store before an append came with the frame, inline.
pub proof fn new_blocks_come_with_the_frame<B, G, H, C, D, P>(
    h: H,
    compressor: C,
    codec: Codec<D, P>,
    a: ReceiverView<B, G>,
    frame: AppendFrame,
    b: ReceiverView<B, G>,
    r: Result<AckFrame, ReceiverError>,
    id: BlockId,
) where
    H: Fn(&MerkleRoot, &BlockId) -> MerkleRoot,
    D: Fn(&C, &[u8]) -> Result<Vec<u8>, String>,
    P: Fn(Vec<u8>) -> Result<(B, BlockId), String>,

    requires
        append_handled(h, compressor, codec, a, frame, b, r),
    ensures
        a.store.blocks.contains_key(id) ==> b.store.blocks.contains_key(id) && b.store.blocks[id] == a.store.blocks[id],
        b.store.blocks.contains_key(id) && !a.store.blocks.contains_key(id) ==> exists|i: int|
            {
                &&& 0 <= i < frame.blocks@.len()
                &&& #[trigger] frame.blocks@[i] matches FrameBlock::Inline(comp)
                &&& holds_block(compressor, codec, comp@, b.store.blocks[id], id)
            },
{
    let sid = frame.session_id;
    let blocks = frame.blocks@;
    if b.store != a.store {
        let items = choose|items: Seq<Resolved<B>>|
            {
                &&& #[trigger] all_resolve(compressor, codec, blocks, items)
                &&& committed(h, a, sid, frame.base_root, items, b, r)
            };
        let start = a.knowing(sid);
        let n = if r is Ok {
            items.len() as int
        } else {
            choose|n: int| #[trigger] stuck_at(h, start, sid, items, n, b)
        };
        let taken = items.take(n);
        assert(items.take(items.len() as int) =~= items);
        assert(appends_to(h, start, sid, taken, b));
        let other: u128 = if sid == 0 { 1 } else { 0 };
        appends_leave_the_rest(h, start, sid, taken, b, other, id);
        if b.store.blocks.contains_key(id) && !a.store.blocks.contains_key(id) {
            lemma_kept_or_new(h, start, sid, taken, b, id);
            let i = choose|i: int|
                0 <= i < taken.len() && #[trigger] taken[i] == (Resolved::Inline { id, block: b.store.blocks[id] });
            assert(resolves(compressor, codec, blocks[i], items[i]));
            lemma_resolved_is_named(compressor, codec, blocks[i], items[i]);
            assert(blocks[i] is Inline);
        }
    }
}

proof fn lemma_appends_touch_one<B, G, H: Fn(&MerkleRoot, &BlockId) -> MerkleRoot>(
    h: H,
    a: ReceiverView<B, G>,
    session_id: u128,
    items: Seq<Resolved<B>>,
    b: ReceiverView<B, G>,
)
    requires
        appends_to(h, a, session_id, items, b),
    ensures
        b.sessions.remove(session_id) == a.sessions.remove(session_id),
        b.store.logs.remove(session_id) == a.store.logs.remove(session_id),
        b.session(session_id).decoders == a.session(session_id).decoders,
    decreases items.len(),
{
    if items.len() == 0 {
        let states = choose|states: Seq<ReceiverView<B, G>>|
            #[trigger] appends(h, session_id, items, states) && states[0] == a && states.last() == b;
        assert(b == a);
    } else {
        let mid = lemma_appends_last(h, a, session_id, items, b);
        lemma_appends_touch_one(h, a, session_id, items.drop_last(), mid);
        assert(b.sessions.remove(session_id) =~= mid.sessions.remove(session_id));
        assert(b.store.logs.remove(session_id) =~= mid.store.logs.remove(session_id));
    }
}

/// An append, acknowledged or refused, touches no session but its own, and no generation
/// in flight.
pub proof fn append_touches_its_session_alone<B, G, H, C, D, P>(
    h: H,
    compressor: C,
    codec: Codec<D, P>,
    a: ReceiverView<B, G>,
    frame: AppendFrame,
    b: ReceiverView<B, G>,
    r: Result<AckFrame, ReceiverError>,
) where
    H: Fn(&MerkleRoot, &BlockId) -> MerkleRoot,
    D: Fn(&C, &[u8]) -> Result<Vec<u8>, String>,
    P: Fn(Vec<u8>) -> Result<(B, BlockId), String>,

    requires
        append_handled(h, compressor, codec, a, frame, b, r),
    ensures
        b.sessions.remove(frame.session_id) == a.sessions.remove(frame.session_id),
        b.store.logs.remove(frame.session_id) == a.store.logs.remove(frame.session_id),
        a.sessions.contains_key(frame.session_id) ==> {
            &&& b.sessions.contains_key(frame.session_id)
            &&& b.sessions[frame.session_id].decoders == a.sessions[frame.session_id].decoders
        },
        !a.sessions.contains_key(frame.session_id) && b.sessions.contains_key(frame.session_id)
            ==> b.sessions[frame.session_id].decoders == Map::<u32, G>::empty(),
{
    let sid = frame.session_id;
    let start = a.knowing(sid);
    assert(start.sessions.remove(sid) =~= a.sessions.remove(sid));
    if b != a && b != start {
        let items = choose|items: Seq<Resolved<B>>|
            {
                &&& #[trigger] all_resolve(compressor, codec, frame.blocks@, items)
                &&& committed(h, a, sid, frame.base_root, items, b, r)
            };
        let n = if r is Ok {
            items.len() as int
        } else {
            choose|n: int| #[trigger] stuck_at(h, start, sid, items, n, b)
        };
        let taken = items.take(n);
        assert(items.take(items.len() as int) =~= items);
        lemma_appends_touch_one(h, start, sid, taken, b);
        lemma_appends_roll(h, start, sid, taken, b);
    }
}

/// Why an append is refused. The errors are those of a root that does not agree, which the
/// report names, of the first inline block that does not decompress or does not parse, and
/// of the first reference to a block that is not there. In all but the last nothing is
/// appended; in the last, the blocks before the reference are.
pub proof fn refused_append_says_why<B, G, H, C, D, P>(
    h: H,
    compressor: C,
    codec: Codec<D, P>,
    a: ReceiverView<B, G>,
    frame: AppendFrame,
    b: ReceiverView<B, G>,
    e: ReceiverError,
) where
    H: Fn(&MerkleRoot, &BlockId) -> MerkleRoot,
    D: Fn(&C, &[u8]) -> Result<Vec<u8>, String>,
    P: Fn(Vec<u8>) -> Result<(B, BlockId), String>,

    requires
        append_handled(h, compressor, codec, a, frame, b, Err(e)),
    ensures
        e is Frame || e is Compress || e is MissingRef,
        a.sessions.contains_key(frame.session_id) && frame.base_root != a.sessions[frame.session_id].root ==> {
            &&& e matches ReceiverError::Frame(text)
            &&& text@ == mismatch_text(frame.base_root@, a.sessions[frame.session_id].root@)
            &&& b == a
        },
        a.sessions.contains_key(frame.session_id) && frame.base_root == a.sessions[frame.session_id].root && !(e is MissingRef)
            ==> b == a && exists|i: int| #[trigger] first_bad_block::<B, C, D, P>(compressor, codec, frame.blocks@, i, e),
        !a.sessions.contains_key(frame.session_id) && !(e is MissingRef) ==> {
            let logged = if a.store.logs.contains_key(frame.session_id) {
                a.store.logs[frame.session_id].root
            } else {
                ROOT_ZERO
            };
            if frame.base_root != logged {
                &&& e matches ReceiverError::Frame(text)
                &&& text@ == mismatch_text(frame.base_root@, logged@)
                &&& b == a
            } else {
                ||| b == a && exists|i: int| #[trigger]
                    first_bad_block::<B, C, D, P>(compressor, codec, frame.blocks@, i, e)
                ||| {
                    &&& frame.base_root != ROOT_ZERO
                    &&& e matches ReceiverError::Frame(text)
                    &&& text@ == mismatch_text(frame.base_root@, ROOT_ZERO@)
                    &&& b.store == a.store
                    &&& b.sessions == a.sessions.insert(
                        frame.session_id,
                        SessionView { ids: Seq::empty(), root: ROOT_ZERO, decoders: Map::empty() },
                    )
                }
            }
        },
        e is MissingRef ==> exists|n: int, ids: Seq<BlockId>|
            #[trigger] stops_at_reference::<B, G, C, D, P>(compressor, codec, a, frame, b, n, ids),
{
    let sid = frame.session_id;
    let blocks = frame.blocks@;
    let start = a.knowing(sid);
    if exists|i: int| #[trigger] fails_at::<B, C, D, P>(compressor, codec, blocks, i, e) {
        let i = choose|i: int| #[trigger] fails_at::<B, C, D, P>(compressor, codec, blocks, i, e);
        lemma_first_bad_block(compressor, codec, blocks, i, e);
    }
    if a.sessions.contains_key(sid) {
        assert(start.sessions =~= a.sessions);
    }
    if e is MissingRef {
        let items = choose|items: Seq<Resolved<B>>|
            {
                &&& #[trigger] all_resolve(compressor, codec, blocks, items)
                &&& committed(h, a, sid, frame.base_root, items, b, Err(e))
            };
        let n = choose|n: int| #[trigger] stuck_at(h, start, sid, items, n, b);
        let taken = items.take(n);
        let ids = item_ids(taken);
        appends_land_in_frame_order(h, start, sid, taken, b);
        lemma_appends_roll(h, start, sid, taken, b);
        assert forall|i: int| 0 <= i < n implies names::<B, C, D, P>(compressor, codec, blocks[i], #[trigger] ids[i]) by {
            assert(resolves(compressor, codec, blocks[i], items[i]));
            lemma_resolved_is_named(compressor, codec, blocks[i], items[i]);
        }
        assert(resolves(compressor, codec, blocks[n], items[n]));
        assert(Seq::<BlockId>::empty() + ids =~= ids);
        assert(stops_at_reference::<B, G, C, D, P>(compressor, codec, a, frame, b, n, ids));
    }
}

/// Block `i` is inline and does not decompress, or does not parse, as `e` says; every block
/// before it names an id.
pub open spec fn first_bad_block<B, C, D, P>(
    compressor: C,
    codec: Codec<D, P>,
    blocks: Seq<FrameBlock>,
    i: int,
    e: ReceiverError,
) -> bool where
    D: Fn(&C, &[u8]) -> Result<Vec<u8>, String>,
    P: Fn(Vec<u8>) -> Result<(B, BlockId), String>,
 {
    &&& 0 <= i < blocks.len()
    &&& forall|j: int|
        0 <= j < i ==> names_some::<B, C, D, P>(compressor, codec, #[trigger] blocks[j])
    &&& blocks[i] matches FrameBlock::Inline(comp) && match e {
        ReceiverError::Compress(text) => does_not_decompress(compressor, codec, comp@, text),
        ReceiverError::Frame(text) => does_not_parse::<B, C, D, P>(compressor, codec, comp@, text),
        _ => false,
    }
}

/// Decompressing the bytes fails with `text`.
pub open spec fn does_not_decompress<C, D, P>(compressor: C, codec: Codec<D, P>, comp: Seq<u8>, text: String) -> bool where
    D: Fn(&C, &[u8]) -> Result<Vec<u8>, String>,
 {
    exists|s: &[u8]| s@ == comp && #[trigger] call_ensures(codec.decompress, (&compressor, s), Err(text))
}

/// The bytes decompress, and parsing what they decompress to fails with `text`.
pub open spec fn does_not_parse<B, C, D, P>(compressor: C, codec: Codec<D, P>, comp: Seq<u8>, text: String) -> bool where
    D: Fn(&C, &[u8]) -> Result<Vec<u8>, String>,
    P: Fn(Vec<u8>) -> Result<(B, BlockId), String>,
 {
    exists|s: &[u8], bytes: Vec<u8>|
        {
            &&& s@ == comp
            &&& #[trigger] call_ensures(codec.decompress, (&compressor, s), Ok(bytes))
            &&& call_ensures(codec.parse, (bytes,), Err(text))
        }
}

proof fn lemma_first_bad_block<B, C, D, P>(
    compressor: C,
    codec: Codec<D, P>,
    blocks: Seq<FrameBlock>,
    i: int,
    e: ReceiverError,
) where
    D: Fn(&C, &[u8]) -> Result<Vec<u8>, String>,
    P: Fn(Vec<u8>) -> Result<(B, BlockId), String>,

    requires
        fails_at::<B, C, D, P>(compressor, codec, blocks, i, e),
    ensures
        first_bad_block::<B, C, D, P>(compressor, codec, blocks, i, e),
{
    assert forall|j: int| 0 <= j < i implies names_some::<B, C, D, P>(compressor, codec, #[trigger] blocks[j]) by {
        assert(resolvable::<B, C, D, P>(compressor, codec, blocks[j]));
        let item = choose|item: Resolved<B>| #[trigger] resolves(compressor, codec, blocks[j], item);
        lemma_resolved_is_named(compressor, codec, blocks[j], item);
    }
    let comp = blocks[i]->Inline_0;
    let (s, canon) = choose|s: &[u8], canon: Result<Vec<u8>, String>|
        {
            &&& s@ == comp@
            &&& #[trigger] call_ensures(codec.decompress, (&compressor, s), canon)
            &&& match canon {
                Ok(bytes) => exists|parsed: Result<(B, BlockId), String>|
                    #[trigger] call_ensures(codec.parse, (bytes,), parsed) && Err::<(B, BlockId), ReceiverError>(e)
                        == parse_outcome(parsed),
                Err(t) => Err::<(B, BlockId), ReceiverError>(e) == Err::<(B, BlockId), ReceiverError>(
                    ReceiverError::Compress(t),
                ),
            }
        };
    match canon {
        Ok(bytes) => {
            let parsed = choose|parsed: Result<(B, BlockId), String>|
                #[trigger] call_ensures(codec.parse, (bytes,), parsed) && Err::<(B, BlockId), ReceiverError>(e)
                    == parse_outcome(parsed);
            let text = parsed->Err_0;
            assert(parsed == Err::<(B, BlockId), String>(text));
            assert(call_ensures(codec.decompress, (&compressor, s), Ok(bytes)));
            assert(call_ensures(codec.parse, (bytes,), Err(text)));
        },
        Err(text) => {
            assert(call_ensures(codec.decompress, (&compressor, s), Err(text)));
        },
    }
}

/// Block `n` of the frame is a reference to a block that is not in the store, and the log
/// has grown by `ids`, those of the blocks before it.
pub open spec fn stops_at_reference<B, G, C, D, P>(
    compressor: C,
    codec: Codec<D, P>,
    a: ReceiverView<B, G>,
    frame: AppendFrame,
    b: ReceiverView<B, G>,
    n: int,
    ids: Seq<BlockId>,
) -> bool where
    D: Fn(&C, &[u8]) -> Result<Vec<u8>, String>,
    P: Fn(Vec<u8>) -> Result<(B, BlockId), String>,
 {
    &&& 0 <= n < frame.blocks@.len()
    &&& frame.blocks@[n] matches FrameBlock::Ref(id) && !b.store.blocks.contains_key(id)
    &&& ids.len() == n
    &&& forall|i: int| 0 <= i < n ==> names::<B, C, D, P>(compressor, codec, frame.blocks@[i], #[trigger] ids[i])
    &&& b.sessions.contains_key(frame.session_id)
    &&& b.sessions[frame.session_id].ids == (if a.sessions.contains_key(frame.session_id) {
        a.sessions[frame.session_id].ids + ids
    } else {
        ids
    })
}

/// Every inline block of the frame decompresses and parses, whatever the codec answers.
pub open spec fn blocks_are_sound<B, C, D, P>(compressor: C, codec: Codec<D, P>, blocks: Seq<FrameBlock>) -> bool where
    D: Fn(&C, &[u8]) -> Result<Vec<u8>, String>,
    P: Fn(Vec<u8>) -> Result<(B, BlockId), String>,
 {
    forall|i: int, s: &[u8], x: Result<Vec<u8>, String>|
        #![trigger blocks[i], call_ensures(codec.decompress, (&compressor, s), x)]
        0 <= i < blocks.len() && (blocks[i] matches FrameBlock::Inline(comp) && comp@ == s@) && call_ensures(
            codec.decompress,
            (&compressor, s),
            x,
        ) ==> x is Ok && forall|y: Result<(B, BlockId), String>|
            #[trigger] call_ensures(codec.parse, (x->Ok_0,), y) ==> y is Ok
}

/// An append on the session's root, or on the zero root for a session that is new to the
/// receiver and the store, is acknowledged if its inline blocks are sound and its
/// references are to blocks in the store.
pub proof fn sound_append_is_acknowledged<B, G, H, C, D, P>(
    h: H,
    compressor: C,
    codec: Codec<D, P>,
    a: ReceiverView<B, G>,
    frame: AppendFrame,
    b: ReceiverView<B, G>,
    r: Result<AckFrame, ReceiverError>,
) where
    H: Fn(&MerkleRoot, &BlockId) -> MerkleRoot,
    D: Fn(&C, &[u8]) -> Result<Vec<u8>, String>,
    P: Fn(Vec<u8>) -> Result<(B, BlockId), String>,

    requires
        append_handled(h, compressor, codec, a, frame, b, r),
        a.sessions.contains_key(frame.session_id) ==> frame.base_root == a.sessions[frame.session_id].root,
        !a.sessions.contains_key(frame.session_id) ==> {
            &&& frame.base_root == ROOT_ZERO
            &&& !a.store.logs.contains_key(frame.session_id)
        },
        blocks_are_sound::<B, C, D, P>(compressor, codec, frame.blocks@),
        forall|i: int|
            0 <= i < frame.blocks@.len() ==> (#[trigger] frame.blocks@[i] matches FrameBlock::Ref(id)
                ==> a.store.blocks.contains_key(id)),
    ensures
        r is Ok,
{
    let sid = frame.session_id;
    let blocks = frame.blocks@;
    let start = a.knowing(sid);
    if let Err(e) = r {
        if exists|i: int| #[trigger] fails_at::<B, C, D, P>(compressor, codec, blocks, i, e) {
            let i = choose|i: int| #[trigger] fails_at::<B, C, D, P>(compressor, codec, blocks, i, e);
            lemma_first_bad_block(compressor, codec, blocks, i, e);
            assert(blocks[i] is Inline);
            assert(false);
        }
        let items = choose|items: Seq<Resolved<B>>|
            {
                &&& #[trigger] all_resolve(compressor, codec, blocks, items)
                &&& committed(h, a, sid, frame.base_root, items, b, r)
            };
        assert forall|n: int| 0 <= n < items.len() && (#[trigger] items[n]) is Ref implies start.store.blocks.contains_key(
            items[n].id(),
        ) by {
            assert(resolves(compressor, codec, blocks[n], items[n]));
        }
        assert(references_resolve(items, start.store.blocks));
        let n = choose|n: int| #[trigger] stuck_at(h, start, sid, items, n, b);
        lemma_not_stuck(h, start, sid, items, n, b);
    }
}

} // verus!
