//! The frames of the replication protocol, as the receiver sees them.
use vstd::prelude::*;

use crate::bytes::{BlockId, MerkleRoot};

verus! {

/// A block in an append frame.
#[derive(Debug)]
pub enum FrameBlock {
    /// The compressed canonical encoding of a block.
    Inline(Vec<u8>),
    /// The id of a block that the receiver has.
    Ref(BlockId),
}

/// New blocks for a session whose root is `base_root`.
#[derive(Debug)]
pub struct AppendFrame {
    pub session_id: u128,
    pub base_root: MerkleRoot,
    pub blocks: Vec<FrameBlock>,
}

/// The sender's ordered block ids and root, for a receiver that has fallen out of step.
#[derive(Debug)]
pub struct ResyncFrame {
    pub session_id: u128,
    pub client_root: MerkleRoot,
    pub manifest: Vec<BlockId>,
}

/// Fountain symbols of one generation of missing blocks.
#[derive(Debug)]
pub struct BulkFrame<S> {
    pub session_id: u128,
    pub generation: u32,
    pub k: u32,
    pub symbol_size: u32,
    pub symbols: Vec<S>,
}

/// The receiver's root after an append.
#[derive(Debug)]
pub struct AckFrame {
    pub session_id: u128,
    pub root: MerkleRoot,
}

/// The ids of the manifest that the receiver lacks.
#[derive(Debug)]
pub struct MissingFrame {
    pub session_id: u128,
    pub missing: Vec<BlockId>,
}

/// Any frame.
#[derive(Debug)]
pub enum Frame<S> {
    Append(AppendFrame),
    Resync(ResyncFrame),
    Bulk(BulkFrame<S>),
    Ack(AckFrame),
    Missing(MissingFrame),
}

} // verus!
