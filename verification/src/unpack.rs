//! Turning compressed bytes into blocks.
//!
//! Decompression and the canonical parser are functions that the receiver is given;
//! what is proved here holds for any two.
use rayon::iter::{IntoParallelRefIterator, ParallelIterator};
use vstd::prelude::*;
use vstd::slice::slice_subrange;

use crate::bytes::{le_bytes, le_value, lemma_le_value_bound, lemma_le_value_of_bytes,
    lemma_pow256_values, read_le, BlockId};

verus! {

/// Why a frame is refused.
#[derive(Debug)]
pub enum ReceiverError {
    /// The fountain decoder failed.
    Fountain(String),
    /// Decompression failed.
    Compress(String),
    /// The frame or a block in it is malformed, or builds on another root.
    Frame(String),
    /// A referenced block is not in the store.
    MissingRef,
    /// The session is not known.
    NoSession(u128),
}

/// How compressed bytes become a block: `decompress` with the receiver's compressor,
/// then `parse`, which also derives the block's id.
pub struct Codec<D, P> {
    pub decompress: D,
    pub parse: P,
}

/// Both functions of a codec are defined on every input.
pub open spec fn codec_total<B, C, D, P>(codec: Codec<D, P>) -> bool where
    D: Fn(&C, &[u8]) -> Result<Vec<u8>, String>,
    P: Fn(Vec<u8>) -> Result<(B, BlockId), String>,
 {
    &&& forall|c: &C, s: &[u8]| call_requires(codec.decompress, (c, s))
    &&& forall|canon: Vec<u8>| call_requires(codec.parse, (canon,))
}

/// What a parse result makes of a block.
pub open spec fn parse_outcome<B>(parsed: Result<(B, BlockId), String>) -> Result<(B, BlockId), ReceiverError> {
    match parsed {
        Ok(block) => Ok(block),
        Err(e) => Err(ReceiverError::Frame(e)),
    }
}

/// `out` is what unpacking the compressed bytes `comp` may give: the error of a failed
/// decompression, or what the parser made of the decompressed bytes.
pub open spec fn unpacks<B, C, D, P>(
    compressor: C,
    codec: Codec<D, P>,
    comp: Seq<u8>,
    out: Result<(B, BlockId), ReceiverError>,
) -> bool where
    D: Fn(&C, &[u8]) -> Result<Vec<u8>, String>,
    P: Fn(Vec<u8>) -> Result<(B, BlockId), String>,
 {
    exists|s: &[u8], canon: Result<Vec<u8>, String>|
        {
            &&& s@ == comp
            &&& #[trigger] call_ensures(codec.decompress, (&compressor, s), canon)
            &&& match canon {
                Ok(bytes) => exists|parsed: Result<(B, BlockId), String>|
                    #[trigger] call_ensures(codec.parse, (bytes,), parsed) && out == parse_outcome(parsed),
                Err(e) => out == Err::<(B, BlockId), ReceiverError>(ReceiverError::Compress(e)),
            }
        }
}

/// Decompresses and parses one block.
pub fn unpack<B, C, D, P>(comp: &[u8], compressor: &C, codec: &Codec<D, P>) -> (out: Result<(B, BlockId), ReceiverError>) where
    D: Fn(&C, &[u8]) -> Result<Vec<u8>, String>,
    P: Fn(Vec<u8>) -> Result<(B, BlockId), String>,

    requires
        codec_total::<B, C, D, P>(*codec),
    ensures
        unpacks(*compressor, *codec, comp@, out),
{
    let canon: Vec<u8> = match (codec.decompress)(compressor, comp) {
        Ok(canon) => canon,
        Err(e) => {
            return Err(ReceiverError::Compress(e));
        },
    };
    match (codec.parse)(canon) {
        Ok(block) => Ok(block),
        Err(e) => Err(ReceiverError::Frame(e)),
    }
}

/// Unpacks every chunk, in parallel. `par_iter` hands each chunk to `unpack`, and
/// `collect` of rayon gathers the blocks in the order of the chunks, or gives an error of
/// one of them; of several errors, which one is not determined.
#[verifier::external_body]
pub(crate) fn unpack_each<B, C, D, P>(chunks: &Vec<&[u8]>, compressor: &C, codec: &Codec<D, P>) -> (out: Result<
    Vec<(B, BlockId)>,
    ReceiverError,
>) where
    B: Send,
    C: Sync,
    D: Fn(&C, &[u8]) -> Result<Vec<u8>, String> + Sync,
    P: Fn(Vec<u8>) -> Result<(B, BlockId), String> + Sync,

    requires
        codec_total::<B, C, D, P>(*codec),
    ensures
        match out {
            Ok(blocks) => {
                &&& blocks@.len() == chunks@.len()
                &&& forall|i: int| 0 <= i < chunks@.len() ==> unpacks(*compressor, *codec, chunks@[i]@, Ok(#[trigger] blocks@[i]))
            },
            Err(e) => exists|i: int| 0 <= i < chunks@.len() && unpacks::<B, C, D, P>(*compressor, *codec, (#[trigger] chunks@[i])@, Err(e)),
        },
{
    chunks.par_iter().map(|chunk| unpack(chunk, compressor, codec)).collect()
}

/// The chunks of a coded stream: each is a length (4 bytes, little-endian) and that many
/// bytes. A zero length is the padding at the stream's end; what follows the last whole
/// chunk is left out.
pub open spec fn chunks(stream: Seq<u8>) -> Seq<Seq<u8>>
    decreases stream.len(),
{
    if stream.len() < 4 {
        Seq::empty()
    } else {
        let n = le_value(stream.take(4));
        if n == 0 || stream.len() < 4 + n {
            Seq::empty()
        } else {
            seq![stream.subrange(4, 4 + n as int)] + chunks(stream.skip(4 + n as int))
        }
    }
}

/// Splits a coded stream into its chunks.
pub fn split_chunks<'a>(stream: &'a [u8]) -> (out: Vec<&'a [u8]>)
    ensures
        out@.len() == chunks(stream@).len(),
        forall|i: int| 0 <= i < out@.len() ==> (#[trigger] out@[i])@ == chunks(stream@)[i],
{
    let mut out: Vec<&'a [u8]> = Vec::new();
    let total: usize = stream.len();
    let mut off: usize = 0;
    let ghost mut done: Seq<Seq<u8>> = Seq::empty();
    assert(stream@.skip(0) =~= stream@);
    assert(done + chunks(stream@) =~= chunks(stream@));
    while total - off >= 4
        invariant
            total == stream@.len(),
            off <= total,
            done + chunks(stream@.skip(off as int)) == chunks(stream@),
            out@.len() == done.len(),
            forall|i: int| 0 <= i < out@.len() ==> (#[trigger] out@[i])@ == done[i],
        ensures
            chunks(stream@.skip(off as int)).len() == 0,
        decreases total - off,
    {
        let ghost here = stream@.skip(off as int);
        let field: &[u8] = slice_subrange(stream, off, off + 4);
        assert(field@ =~= here.take(4));
        let n: u128 = read_le(field);
        proof {
            lemma_le_value_bound(here.take(4));
            lemma_pow256_values();
        }
        let len: usize = n as usize;
        if len == 0 {
            break;
        }
        if len > total - off - 4 {
            break;
        }
        let start: usize = off + 4;
        let chunk: &'a [u8] = slice_subrange(stream, start, start + len);
        out.push(chunk);
        proof {
            assert(chunk@ =~= here.subrange(4, 4 + len as int));
            assert(here.skip(4 + len as int) =~= stream@.skip(start + len));
            let more = done.push(chunk@);
            assert(more + chunks(stream@.skip(start + len)) =~= done + chunks(here));
            done = more;
        }
        off = start + len;
    }
    assert(done + chunks(stream@.skip(off as int)) =~= done);
    out
}

/// A stream of chunks, each behind its length, and then padding.
pub open spec fn framed(cs: Seq<Seq<u8>>, padding: Seq<u8>) -> Seq<u8>
    decreases cs.len(),
{
    if cs.len() == 0 {
        padding
    } else {
        le_bytes(cs[0].len(), 4) + cs[0] + framed(cs.drop_first(), padding)
    }
}

/// A stream splits back into the chunks it was framed from, if none is empty and each
/// length fits its field; zero padding at the end adds nothing.
pub proof fn framed_chunks_split_back(cs: Seq<Seq<u8>>, padding: Seq<u8>)
    requires
        forall|i: int| 0 <= i < cs.len() ==> 0 < (#[trigger] cs[i]).len() < 0x1_0000_0000,
        forall|i: int| 0 <= i < padding.len() ==> #[trigger] padding[i] == 0,
    ensures
        chunks(framed(cs, padding)) == cs,
    decreases cs.len(),
{
    if cs.len() == 0 {
        if padding.len() >= 4 {
            let f = padding.take(4);
            assert(f[0] == 0 && f[1] == 0 && f[2] == 0 && f[3] == 0);
            reveal_with_fuel(le_value, 5);
            assert(le_value(f) == 0);
        }
        assert(chunks(padding) =~= cs);
    } else {
        let c = cs[0];
        let more = cs.drop_first();
        assert forall|i: int| 0 <= i < more.len() implies 0 < (#[trigger] more[i]).len() < 0x1_0000_0000 by {
            assert(cs[i + 1].len() > 0);
        }
        framed_chunks_split_back(more, padding);
        let stream = framed(cs, padding);
        lemma_pow256_values();
        lemma_le_value_of_bytes(c.len(), 4);
        assert(stream.take(4) =~= le_bytes(c.len(), 4));
        assert(stream.subrange(4, 4 + c.len() as int) =~= c);
        assert(stream.skip(4 + c.len() as int) =~= framed(more, padding));
        assert(seq![c] + more =~= cs);
    }
}

/// What the codec decides of compressed bytes: where it has one answer for them, so has
/// unpacking. Bytes that do not decompress are a compression error, bytes that do not
/// parse a frame error, each with the codec's own words, and others are the parsed block.
pub proof fn codec_decides_what_unpacks<B, C, D, P>(
    compressor: C,
    codec: Codec<D, P>,
    comp: Seq<u8>,
    canon: Result<Vec<u8>, String>,
    parsed: Result<(B, BlockId), String>,
    out: Result<(B, BlockId), ReceiverError>,
) where
    D: Fn(&C, &[u8]) -> Result<Vec<u8>, String>,
    P: Fn(Vec<u8>) -> Result<(B, BlockId), String>,

    requires
        unpacks(compressor, codec, comp, out),
        forall|s: &[u8], x: Result<Vec<u8>, String>|
            s@ == comp && #[trigger] call_ensures(codec.decompress, (&compressor, s), x) ==> x == canon,
        forall|x: Result<(B, BlockId), String>|
            canon is Ok && #[trigger] call_ensures(codec.parse, (canon->Ok_0,), x) ==> x == parsed,
    ensures
        canon matches Err(e) ==> out == Err::<(B, BlockId), ReceiverError>(ReceiverError::Compress(e)),
        canon is Ok ==> (parsed matches Err(e) ==> out == Err::<(B, BlockId), ReceiverError>(ReceiverError::Frame(e))),
        canon is Ok ==> (parsed matches Ok(block) ==> out == Ok::<(B, BlockId), ReceiverError>(block)),
{
}

/// A block that unpacks was decompressed and parsed, in that order, from its bytes.
pub proof fn unpacked_block_is_parsed<B, C, D, P>(
    compressor: C,
    codec: Codec<D, P>,
    comp: Seq<u8>,
    block: B,
    id: BlockId,
) where
    D: Fn(&C, &[u8]) -> Result<Vec<u8>, String>,
    P: Fn(Vec<u8>) -> Result<(B, BlockId), String>,

    requires
        unpacks(compressor, codec, comp, Ok((block, id))),
    ensures
        exists|s: &[u8], bytes: Vec<u8>|
            {
                &&& s@ == comp
                &&& #[trigger] call_ensures(codec.decompress, (&compressor, s), Ok(bytes))
                &&& call_ensures(codec.parse, (bytes,), Ok((block, id)))
            },
{
    let (s, canon) = choose|s: &[u8], canon: Result<Vec<u8>, String>|
        {
            &&& s@ == comp
            &&& #[trigger] call_ensures(codec.decompress, (&compressor, s), canon)
            &&& match canon {
                Ok(bytes) => exists|parsed: Result<(B, BlockId), String>|
                    #[trigger] call_ensures(codec.parse, (bytes,), parsed) && Ok::<(B, BlockId), ReceiverError>((block, id))
                        == parse_outcome(parsed),
                Err(e) => false,
            }
        };
    let bytes = canon->Ok_0;
    let parsed = choose|parsed: Result<(B, BlockId), String>|
        #[trigger] call_ensures(codec.parse, (bytes,), parsed) && Ok::<(B, BlockId), ReceiverError>((block, id))
            == parse_outcome(parsed);
    assert(parsed == Ok::<(B, BlockId), String>((block, id)));
    assert(call_ensures(codec.decompress, (&compressor, s), Ok(bytes)));
}

/// A chunk in front of a stream is split off: its length, in four bytes with the least
/// first, then its bytes, then the chunks of what follows. A length of zero, a length that
/// the stream falls short of, and fewer than four bytes end the stream.
pub proof fn chunk_in_front_is_split_off(a: u8, b: u8, c: u8, d: u8, after: Seq<u8>)
    ensures
        ({
            let stream = seq![a, b, c, d] + after;
            let n = a as int + 0x100 * b + 0x1_0000 * c + 0x100_0000 * d;
            &&& 0 < n <= after.len() ==> chunks(stream) == seq![after.take(n)] + chunks(after.skip(n))
            &&& n == 0 || n > after.len() ==> chunks(stream) == Seq::<Seq<u8>>::empty()
        }),
        after.len() < 4 ==> chunks(after) == Seq::<Seq<u8>>::empty(),
{
    let stream = seq![a, b, c, d] + after;
    let f = stream.take(4);
    let n = a as int + 0x100 * b + 0x1_0000 * c + 0x100_0000 * d;
    reveal_with_fuel(le_value, 5);
    assert(f.drop_first().drop_first().drop_first().drop_first() =~= Seq::<u8>::empty());
    assert(f[0] == a && f[1] == b && f[2] == c && f[3] == d);
    assert(le_value(f) == n);
    if 0 < n <= after.len() {
        assert(stream.subrange(4, 4 + n) =~= after.take(n));
        assert(stream.skip(4 + n) =~= after.skip(n));
    }
}

} // verus!
