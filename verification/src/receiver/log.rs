//! Resync and reading: what is missing, and the session log in its true order.
use vstd::prelude::*;

use crate::bytes::{copy_ids, BlockId, MerkleRoot};
use crate::frame::ResyncFrame;
use crate::receiver::{LogPointer, Receiver, ReceiverView, SessionState, SessionView};

verus! {

broadcast use vstd::std_specs::hash::group_hash_axioms;

/// The ids, in their order, whose block is not there.
pub open spec fn absent<B>(ids: Seq<BlockId>, blocks: Map<BlockId, B>) -> Seq<BlockId>
    decreases ids.len(),
{
    if ids.len() == 0 {
        ids
    } else if blocks.contains_key(ids.last()) {
        absent(ids.drop_last(), blocks)
    } else {
        absent(ids.drop_last(), blocks).push(ids.last())
    }
}

/// The ids, in their order, whose block is there.
pub open spec fn present<B>(ids: Seq<BlockId>, blocks: Map<BlockId, B>) -> Seq<BlockId>
    decreases ids.len(),
{
    if ids.len() == 0 {
        ids
    } else if blocks.contains_key(ids.last()) {
        present(ids.drop_last(), blocks).push(ids.last())
    } else {
        present(ids.drop_last(), blocks)
    }
}

/// `out` are copies of the blocks of those `ids` that are there, in the order of the ids.
pub open spec fn copies<B: Clone>(ids: Seq<BlockId>, blocks: Map<BlockId, B>, out: Seq<B>) -> bool {
    &&& out.len() == present(ids, blocks).len()
    &&& forall|i: int| 0 <= i < out.len() ==> cloned(blocks[present(ids, blocks)[i]], #[trigger] out[i])
}

/// The part of a log from `from` up to, not including, `to`; `to` may lie past the end.
pub open spec fn window(ids: Seq<BlockId>, from: int, to: int) -> Seq<BlockId> {
    let end = if to < ids.len() { to } else { ids.len() as int };
    if from >= end {
        Seq::empty()
    } else {
        ids.subrange(from, end)
    }
}

/// The receiver after a resync: the manifest is the session's order, and the client's root
/// its root.
pub open spec fn resynced<B, G>(a: ReceiverView<B, G>, frame: ResyncFrame) -> ReceiverView<B, G> {
    a.with_session(
        frame.session_id,
        SessionView {
            ids: frame.manifest@,
            root: frame.client_root,
            decoders: a.session(frame.session_id).decoders,
        },
    )
}

impl<B, H: Fn(&MerkleRoot, &BlockId) -> MerkleRoot, C, G> Receiver<B, H, C, G> {
    /// Handles a resync frame: names the blocks of the manifest that the receiver lacks, and
    /// takes the manifest and the client's root for the session's order and root.
    pub fn handle_resync(&mut self, frame: &ResyncFrame) -> (missing: Vec<BlockId>)
        requires
            old(self).wf(),
        ensures
            final(self).wf(),
            final(self).append_root_fn() == old(self).append_root_fn(),
            final(self).compressor_value() == old(self).compressor_value(),
            missing@ == absent(frame.manifest@, old(self)@.store.blocks),
            final(self)@ == resynced(old(self)@, *frame),
    {
        let ghost before = self@;
        let ghost blocks = self.store@.blocks;
        let mut missing: Vec<BlockId> = Vec::new();
        let mut i: usize = 0;
        let ghost ids = frame.manifest@;
        assert(absent(ids.take(0), blocks) =~= Seq::<BlockId>::empty());
        while i < frame.manifest.len()
            invariant
                ids == frame.manifest@,
                blocks == self.store@.blocks,
                i <= ids.len(),
                missing@ == absent(ids.take(i as int), blocks),
            decreases ids.len() - i,
        {
            let ghost head = ids.take(i + 1);
            assert(head.drop_last() =~= ids.take(i as int));
            if !self.store.contains(&frame.manifest[i]) {
                missing.push(frame.manifest[i]);
            }
            i += 1;
        }
        assert(ids.take(i as int) =~= ids);
        let st: SessionState<G> = self.take_session(frame.session_id);
        let st = SessionState { ids: copy_ids(&frame.manifest), root: frame.client_root, decoders: st.decoders };
        self.put_session(frame.session_id, st);
        assert(self@.sessions =~= before.sessions.insert(frame.session_id, st@));
        missing
    }

    /// A pointer to a session's log.
    pub fn pointer(&self, session_id: u128) -> (p: Option<LogPointer>)
        ensures
            match p {
                Some(p) => {
                    &&& self@.sessions.contains_key(session_id)
                    &&& p.session_id == session_id
                    &&& p.root == self@.sessions[session_id].root
                    &&& p.len == self@.sessions[session_id].ids.len()
                },
                None => !self@.sessions.contains_key(session_id),
            },
    {
        match self.sessions.get(&session_id) {
            Some(st) => Some(LogPointer { session_id, root: st.root, len: st.ids.len() }),
            None => None,
        }
    }

    /// The blocks of the ids from `from` up to `to` that are there.
    fn fetch(&self, ids: &Vec<BlockId>, from: usize, to: usize) -> (out: Vec<B>) where B: Clone
        requires
            from <= to <= ids@.len(),
        ensures
            copies(ids@.subrange(from as int, to as int), self@.store.blocks, out@),
    {
        let ghost blocks = self.store@.blocks;
        let mut out: Vec<B> = Vec::new();
        let mut i: usize = from;
        assert(present(ids@.subrange(from as int, from as int), blocks) =~= Seq::<BlockId>::empty());
        while i < to
            invariant
                blocks == self.store@.blocks,
                from <= i <= to <= ids@.len(),
                copies(ids@.subrange(from as int, i as int), blocks, out@),
            decreases to - i,
        {
            let ghost part = ids@.subrange(from as int, i as int);
            let ghost longer = ids@.subrange(from as int, i + 1);
            let ghost before = out@;
            assert(longer.drop_last() =~= part);
            assert(longer.last() == ids@[i as int]);
            match self.store.get(&ids[i]) {
                Some(block) => {
                    out.push(block);
                    proof {
                        let now = present(longer, blocks);
                        assert forall|j: int| 0 <= j < out@.len() implies cloned(blocks[now[j]], #[trigger] out@[j]) by {
                            if j < before.len() {
                                assert(cloned(blocks[present(part, blocks)[j]], before[j]));
                            }
                        }
                    }
                },
                None => {},
            }
            i += 1;
        }
        out
    }

    /// The session's log in its order: that of the manifest, then of the appends. Blocks
    /// that are not stored yet are left out.
    pub fn reconstruct(&self, session_id: u128) -> (out: Vec<B>) where B: Clone
        ensures
            copies(self@.session(session_id).ids, self@.store.blocks, out@),
    {
        match self.sessions.get(&session_id) {
            Some(st) => {
                assert(st.ids@.subrange(0, st.ids@.len() as int) =~= st.ids@);
                self.fetch(&st.ids, 0, st.ids.len())
            },
            None => Vec::new(),
        }
    }

    /// A window of the session's log, in the order of [`Receiver::reconstruct`].
    pub fn reconstruct_range(&self, session_id: u128, from: usize, to: usize) -> (out: Vec<B>) where B: Clone
        ensures
            copies(window(self@.session(session_id).ids, from as int, to as int), self@.store.blocks, out@),
    {
        match self.sessions.get(&session_id) {
            Some(st) => {
                let end: usize = if to < st.ids.len() { to } else { st.ids.len() };
                if from >= end {
                    return Vec::new();
                }
                self.fetch(&st.ids, from, end)
            },
            None => Vec::new(),
        }
    }
}

} // verus!
