//! One entry for every frame.
use vstd::prelude::*;

use crate::bytes::{BlockId, MerkleRoot};
use crate::frame::{AckFrame, Frame, MissingFrame, ResyncFrame};
use crate::receiver::bulk::{bulk_handled, fountain_total, DecodeFailure, Fountain};
use crate::receiver::log::{absent, resynced};
use crate::receiver::{append_handled, Receiver, ReceiverView};
use crate::unpack::{codec_total, Codec, ReceiverError};

verus! {

/// The answer to an append frame: its acknowledgement, or its error.
pub open spec fn append_answer<S>(r: Result<AckFrame, ReceiverError>) -> Result<Option<Frame<S>>, ReceiverError> {
    match r {
        Ok(ack) => Ok(Some(Frame::Ack(ack))),
        Err(e) => Err(e),
    }
}

/// The answer to a bulk frame: none, or its error.
pub open spec fn bulk_answer<S>(r: Result<bool, ReceiverError>) -> Result<Option<Frame<S>>, ReceiverError> {
    match r {
        Ok(_) => Ok(None),
        Err(e) => Err(e),
    }
}

/// What a resync frame does and answers: the manifest becomes the session's order, and the
/// missing ids are named.
pub open spec fn resync_answered<B, G, S>(
    a: ReceiverView<B, G>,
    frame: ResyncFrame,
    b: ReceiverView<B, G>,
    r: Result<Option<Frame<S>>, ReceiverError>,
) -> bool {
    &&& b == resynced(a, frame)
    &&& r matches Ok(Some(Frame::Missing(m))) && m.session_id == frame.session_id && m.missing@ == absent(
        frame.manifest@,
        a.store.blocks,
    )
}

/// What a frame does and answers.
pub open spec fn frame_handled<B, G, S, H, C, D, P, N, A, F>(
    h: H,
    compressor: C,
    codec: Codec<D, P>,
    fountain: Fountain<N, A, F>,
    a: ReceiverView<B, G>,
    f: Frame<S>,
    b: ReceiverView<B, G>,
    r: Result<Option<Frame<S>>, ReceiverError>,
) -> bool where
    H: Fn(&MerkleRoot, &BlockId) -> MerkleRoot,
    D: Fn(&C, &[u8]) -> Result<Vec<u8>, String>,
    P: Fn(Vec<u8>) -> Result<(B, BlockId), String>,
    N: Fn(usize, usize) -> G,
    A: Fn(G, &S) -> (G, Result<(), String>),
    F: Fn(G) -> (G, Result<Vec<Vec<u8>>, DecodeFailure>),
 {
    match f {
        Frame::Append(frame) => exists|ack: Result<AckFrame, ReceiverError>|
            #[trigger] append_handled(h, compressor, codec, a, frame, b, ack) && r == append_answer::<S>(ack),
        Frame::Resync(frame) => resync_answered(a, frame, b, r),
        Frame::Bulk(frame) => exists|done: Result<bool, ReceiverError>|
            #[trigger] bulk_handled(h, compressor, codec, fountain, a, frame, b, done) && r == bulk_answer::<S>(done),
        Frame::Ack(_) => r == Ok::<Option<Frame<S>>, ReceiverError>(None) && b == a,
        Frame::Missing(_) => r == Ok::<Option<Frame<S>>, ReceiverError>(None) && b == a,
    }
}

/// `states` are the receivers that frames, handled one after the other, pass through.
pub open spec fn frames_handled<B, G, S, H, C, D, P, N, A, F>(
    h: H,
    compressor: C,
    codec: Codec<D, P>,
    fountain: Fountain<N, A, F>,
    frames: Seq<Frame<S>>,
    answers: Seq<Result<Option<Frame<S>>, ReceiverError>>,
    states: Seq<ReceiverView<B, G>>,
) -> bool where
    H: Fn(&MerkleRoot, &BlockId) -> MerkleRoot,
    D: Fn(&C, &[u8]) -> Result<Vec<u8>, String>,
    P: Fn(Vec<u8>) -> Result<(B, BlockId), String>,
    N: Fn(usize, usize) -> G,
    A: Fn(G, &S) -> (G, Result<(), String>),
    F: Fn(G) -> (G, Result<Vec<Vec<u8>>, DecodeFailure>),
 {
    &&& answers.len() == frames.len()
    &&& states.len() == frames.len() + 1
    &&& forall|i: int|
        0 <= i < frames.len() ==> frame_handled(
            h,
            compressor,
            codec,
            fountain,
            states[i],
            #[trigger] frames[i],
            states[i + 1],
            answers[i],
        )
}

impl<B, H: Fn(&MerkleRoot, &BlockId) -> MerkleRoot, C, G> Receiver<B, H, C, G> {
    /// Handles any frame and returns the frame to send back, if there is one.
    pub fn handle_frame<S, D, P, N, A, F>(
        &mut self,
        f: Frame<S>,
        codec: &Codec<D, P>,
        fountain: &Fountain<N, A, F>,
    ) -> (r: Result<Option<Frame<S>>, ReceiverError>) where
        B: Send,
        C: Sync,
        D: Fn(&C, &[u8]) -> Result<Vec<u8>, String> + Sync,
        P: Fn(Vec<u8>) -> Result<(B, BlockId), String> + Sync,
        N: Fn(usize, usize) -> G,
        A: Fn(G, &S) -> (G, Result<(), String>),
        F: Fn(G) -> (G, Result<Vec<Vec<u8>>, DecodeFailure>),

        requires
            old(self).wf(),
            codec_total::<B, C, D, P>(*codec),
            fountain_total::<G, S, N, A, F>(*fountain),
        ensures
            final(self).wf(),
            final(self).append_root_fn() == old(self).append_root_fn(),
            final(self).compressor_value() == old(self).compressor_value(),
            frame_handled(
                old(self).append_root_fn(),
                old(self).compressor_value(),
                *codec,
                *fountain,
                old(self)@,
                f,
                final(self)@,
                r,
            ),
    {
        match f {
            Frame::Append(frame) => match self.handle_append(frame, codec) {
                Ok(ack) => Ok(Some(Frame::Ack(ack))),
                Err(e) => Err(e),
            },
            Frame::Resync(frame) => {
                let missing: Vec<BlockId> = self.handle_resync(&frame);
                Ok(Some(Frame::Missing(MissingFrame { session_id: frame.session_id, missing })))
            },
            Frame::Bulk(frame) => match self.handle_bulk(&frame, codec, fountain) {
                Ok(_) => Ok(None),
                Err(e) => Err(e),
            },
            Frame::Ack(_) => Ok(None),
            Frame::Missing(_) => Ok(None),
        }
    }
}

} // verus!
