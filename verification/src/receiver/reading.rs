//! What is read of a session's log, and what is answered.
use vstd::prelude::*;

use crate::bytes::{BlockId, MerkleRoot};
use crate::frame::{AckFrame, Frame, ResyncFrame};
use crate::receiver::bulk::{bulk_handled, DecodeFailure, Fountain};
use crate::receiver::dispatch::{append_answer, bulk_answer, frame_handled};
use crate::receiver::laws::whole_log_reads_back;
use crate::receiver::log::{absent, copies, present, resynced, window};
use crate::receiver::{append_handled, ReceiverView};
use crate::unpack::{Codec, ReceiverError};

verus! {

/// A range of a log has the ids at its positions: as many as lie between `from` and `to`,
/// and element `i` is element `from + i` of the log. Past the end of the log there is
/// nothing, and a range that ends before it begins is empty.
pub proof fn range_has_the_ids_at_its_positions(ids: Seq<BlockId>, from: int, to: int, i: int)
    requires
        0 <= from,
    ensures
        from <= to <= ids.len() ==> window(ids, from, to).len() == to - from,
        from <= to <= ids.len() && 0 <= i < to - from ==> window(ids, from, to)[i] == ids[from + i],
        to >= ids.len() ==> window(ids, from, to) == window(ids, from, ids.len() as int),
        to <= from || ids.len() <= from ==> window(ids, from, to).len() == 0,
{
}

/// A range that is cut anywhere is its two parts, and the range over everything is the log.
pub proof fn ranges_put_together_are_the_range(ids: Seq<BlockId>, from: int, m: int, to: int)
    requires
        0 <= from <= m <= to,
    ensures
        window(ids, from, m) + window(ids, m, to) == window(ids, from, to),
        window(ids, 0, ids.len() as int) == ids,
        m <= ids.len() ==> window(ids, 0, m) + window(ids, m, ids.len() as int) == ids,
{
    assert(window(ids, from, m) + window(ids, m, to) =~= window(ids, from, to));
    assert(window(ids, 0, ids.len() as int) =~= ids);
    if m <= ids.len() {
        assert(window(ids, 0, m) + window(ids, m, ids.len() as int) =~= ids);
    }
}

/// The ids whose block is there, and those whose block is not, are picked from the log by
/// that alone, and keep its order.
pub proof fn presence_alone_decides<B>(ids: Seq<BlockId>, blocks: Map<BlockId, B>)
    ensures
        present(ids, blocks) == ids.filter(|id: BlockId| blocks.contains_key(id)),
        absent(ids, blocks) == ids.filter(|id: BlockId| !blocks.contains_key(id)),
        present(ids, blocks).len() + absent(ids, blocks).len() == ids.len(),
    decreases ids.len(),
{
    reveal(Seq::filter);
    if ids.len() > 0 {
        presence_alone_decides(ids.drop_last(), blocks);
    }
}

/// Logs put together are read, and found missing, one after the other.
pub proof fn logs_are_read_part_by_part<B>(first: Seq<BlockId>, second: Seq<BlockId>, blocks: Map<BlockId, B>)
    ensures
        present(first + second, blocks) == present(first, blocks) + present(second, blocks),
        absent(first + second, blocks) == absent(first, blocks) + absent(second, blocks),
{
    presence_alone_decides(first, blocks);
    presence_alone_decides(second, blocks);
    presence_alone_decides(first + second, blocks);
    Seq::filter_distributes_over_add(first, second, |id: BlockId| blocks.contains_key(id));
    Seq::filter_distributes_over_add(first, second, |id: BlockId| !blocks.contains_key(id));
}

/// What is read is a copy of each block that is there, in the order of the ids.
pub proof fn blocks_are_read_in_order<B: Clone>(ids: Seq<BlockId>, blocks: Map<BlockId, B>, out: Seq<B>, i: int)
    requires
        copies(ids, blocks, out),
    ensures
        ({
            let kept = ids.filter(|id: BlockId| blocks.contains_key(id));
            &&& out.len() == kept.len()
            &&& 0 <= i < out.len() ==> cloned(blocks[kept[i]], out[i])
        }),
{
    presence_alone_decides(ids, blocks);
}

/// A range of a log whose blocks are all there reads back position by position: its block
/// `i` is a copy of the block of log position `from + i`.
pub proof fn whole_range_reads_back<B: Clone>(ids: Seq<BlockId>, blocks: Map<BlockId, B>, from: int, to: int, out: Seq<B>, i: int)
    requires
        0 <= from <= to <= ids.len(),
        forall|j: int| 0 <= j < ids.len() ==> blocks.contains_key(#[trigger] ids[j]),
        copies(window(ids, from, to), blocks, out),
    ensures
        out.len() == to - from,
        0 <= i < out.len() ==> cloned(blocks[ids[from + i]], out[i]),
{
    let part = window(ids, from, to);
    assert forall|j: int| 0 <= j < part.len() implies blocks.contains_key(#[trigger] part[j]) by {
        assert(blocks.contains_key(ids[from + j]));
    }
    whole_log_reads_back(part, blocks);
}

/// A resync gives the session the client's order and root and touches nothing else: not
/// the store, not the other sessions, not the generations in flight.
pub proof fn resync_sets_order_and_root<B, G>(a: ReceiverView<B, G>, frame: ResyncFrame)
    ensures
        ({
            let b = resynced(a, frame);
            &&& b.store == a.store
            &&& b.sessions.contains_key(frame.session_id)
            &&& b.sessions[frame.session_id].ids == frame.manifest@
            &&& b.sessions[frame.session_id].root == frame.client_root
            &&& b.sessions.remove(frame.session_id) == a.sessions.remove(frame.session_id)
            &&& a.sessions.contains_key(frame.session_id) ==> b.sessions[frame.session_id].decoders
                == a.sessions[frame.session_id].decoders
            &&& !a.sessions.contains_key(frame.session_id) ==> b.sessions[frame.session_id].decoders == Map::<
                u32,
                G,
            >::empty()
        }),
{
    assert(resynced(a, frame).sessions.remove(frame.session_id) =~= a.sessions.remove(frame.session_id));
}

/// What each frame is answered: an append its acknowledgement, a resync the ids of its
/// manifest that have no block, in the manifest's order, for its session, and any other
/// frame nothing. Errors are passed on as they are.
pub proof fn frames_are_answered_in_kind<B, G, S, H, C, D, P, N, A, F>(
    h: H,
    compressor: C,
    codec: Codec<D, P>,
    fountain: Fountain<N, A, F>,
    a: ReceiverView<B, G>,
    f: Frame<S>,
    b: ReceiverView<B, G>,
    r: Result<Option<Frame<S>>, ReceiverError>,
) where
    H: Fn(&MerkleRoot, &BlockId) -> MerkleRoot,
    D: Fn(&C, &[u8]) -> Result<Vec<u8>, String>,
    P: Fn(Vec<u8>) -> Result<(B, BlockId), String>,
    N: Fn(usize, usize) -> G,
    A: Fn(G, &S) -> (G, Result<(), String>),
    F: Fn(G) -> (G, Result<Vec<Vec<u8>>, DecodeFailure>),

    requires
        frame_handled(h, compressor, codec, fountain, a, f, b, r),
    ensures
        f matches Frame::Append(frame) ==> match r {
            Ok(Some(Frame::Ack(ack))) => append_handled(h, compressor, codec, a, frame, b, Ok(ack)),
            Ok(_) => false,
            Err(e) => append_handled(h, compressor, codec, a, frame, b, Err(e)),
        },
        f matches Frame::Resync(frame) ==> b == resynced(a, frame) && match r {
            Ok(Some(Frame::Missing(m))) => {
                &&& m.session_id == frame.session_id
                &&& m.missing@ == frame.manifest@.filter(|id: BlockId| !a.store.blocks.contains_key(id))
            },
            _ => false,
        },
        f matches Frame::Bulk(frame) ==> match r {
            Ok(answer) => {
                &&& answer is None
                &&& exists|done: bool| #[trigger] bulk_handled(h, compressor, codec, fountain, a, frame, b, Ok(done))
            },
            Err(e) => bulk_handled(h, compressor, codec, fountain, a, frame, b, Err(e)),
        },
        f is Ack || f is Missing ==> b == a && r == Ok::<Option<Frame<S>>, ReceiverError>(None),
{
    match f {
        Frame::Append(frame) => {
            let ack = choose|ack: Result<AckFrame, ReceiverError>|
                #[trigger] append_handled(h, compressor, codec, a, frame, b, ack)
                    && r == append_answer::<S>(ack);
        },
        Frame::Resync(frame) => {
            presence_alone_decides(frame.manifest@, a.store.blocks);
        },
        Frame::Bulk(frame) => {
            let done = choose|done: Result<bool, ReceiverError>|
                #[trigger] bulk_handled(h, compressor, codec, fountain, a, frame, b, done)
                    && r == bulk_answer::<S>(done);
            if let Ok(d) = done {
                assert(bulk_handled(h, compressor, codec, fountain, a, frame, b, Ok(d)));
            }
        },
        _ => {},
    }
}

} // verus!
