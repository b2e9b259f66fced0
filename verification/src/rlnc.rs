//! Random linear network coding over the field of bytes.
//!
//! A coded packet is a random linear combination of the `k` source symbols of a
//! generation and carries its coefficient vector. A receiver recovers the symbols
//! from any `k` linearly independent packets, whichever arrived.
use vstd::prelude::*;

use crate::linalg::combo;

pub mod encoder;
pub mod decoder;
pub mod laws;
pub mod packets;
pub mod sparse;

pub use decoder::RlncDecoder;
pub use encoder::RlncEncoder;
pub use sparse::sparse_decode;

verus! {

/// Why a generation cannot be decoded, or a packet not be taken.
#[derive(Debug, PartialEq, Eq, Structural)]
pub enum RlncError {
    /// Fewer independent packets than source symbols.
    Insufficient { have: usize, need: usize },
    /// The packets admit no solution.
    Singular { have: usize },
    /// A coefficient vector or a payload of the wrong length.
    SizeMismatch { exp: usize, got: usize },
}

/// A coded packet: coefficient vector (length `k`) and payload (one symbol).
#[derive(Debug)]
pub struct CodedPacket {
    pub coeffs: Vec<u8>,
    pub payload: Vec<u8>,
}

impl Clone for CodedPacket {
    fn clone(&self) -> (copy: Self)
        ensures
            copy.coeffs@ == self.coeffs@,
            copy.payload@ == self.payload@,
    {
        CodedPacket { coeffs: self.coeffs.clone(), payload: self.payload.clone() }
    }
}

/// The payload is the combination of the source symbols that the coefficients name.
pub open spec fn codes_for(p: CodedPacket, source: Seq<Seq<u8>>, symbol_size: nat) -> bool {
    &&& p.coeffs@.len() == source.len()
    &&& p.payload@ == combo(p.coeffs@, source, symbol_size)
}

/// Some coefficient is not zero.
pub open spec fn nonzero(c: Seq<u8>) -> bool {
    exists|i: int| 0 <= i < c.len() && #[trigger] c[i] != 0
}

/// The coefficient vectors of some packets.
pub open spec fn coefficient_rows(ps: Seq<CodedPacket>) -> Seq<Seq<u8>> {
    Seq::new(ps.len(), |i: int| ps[i].coeffs@)
}

/// A packet as one row: coefficients, then payload.
pub open spec fn packet_row(p: CodedPacket) -> Seq<u8> {
    p.coeffs@ + p.payload@
}

/// Some packets as rows.
pub open spec fn packet_rows(ps: Seq<CodedPacket>) -> Seq<Seq<u8>> {
    Seq::new(ps.len(), |i: int| packet_row(ps[i]))
}

/// Every packet has `k` coefficients and a payload of `symbol_size` bytes.
pub open spec fn sized(ps: Seq<CodedPacket>, k: nat, symbol_size: nat) -> bool {
    forall|i: int|
        0 <= i < ps.len() ==> (#[trigger] ps[i]).coeffs@.len() == k && ps[i].payload@.len() == symbol_size
}

} // verus!
