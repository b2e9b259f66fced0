//! What a generation comes to, told on its symbols and its stream.
use vstd::prelude::*;

use crate::bytes::{BlockId, MerkleRoot};
use crate::frame::BulkFrame;
use crate::receiver::appends::{does_not_decompress, does_not_parse, holds_block};
use crate::receiver::bulk::{adding, all_unpack, bulk_finished, bulk_handled, dropped, fed, holding, joined, opens,
    refuses_symbol, some_fails, stores, stores_to, takes_symbols, with_decoders, DecodeFailure, Fountain};
use crate::receiver::laws::{block_ids, lemma_stores_last};
use crate::receiver::{ReceiverView, SessionView};
use crate::store::{lemma_rolls_nowhere, lemma_rolls_on, rolls_to, StoreView};
use crate::unpack::{chunks, parse_outcome, unpacked_block_is_parsed, unpacks, Codec, ReceiverError};

verus! {

/// Symbols join in their order, for any number of them: the streams of two runs of symbols
/// put together are the stream of both, one symbol is its own stream, and none is empty.
pub proof fn symbols_join_in_their_order(first: Seq<Vec<u8>>, second: Seq<Vec<u8>>, one: Vec<u8>)
    ensures
        joined(first + second) == joined(first) + joined(second),
        joined(seq![one]) == one@,
        joined(Seq::empty()) == Seq::<u8>::empty(),
    decreases second.len(),
{
    reveal_with_fuel(joined, 2);
    let single = seq![one];
    assert(single.drop_last() =~= Seq::<Vec<u8>>::empty());
    assert(joined(single) =~= one@);
    let all = first + second;
    if second.len() == 0 {
        assert(all =~= first);
        assert(joined(all) =~= joined(first) + joined(second));
    } else {
        symbols_join_in_their_order(first, second.drop_last(), one);
        assert(all.drop_last() =~= first + second.drop_last());
        assert(all.last() == second.last());
        assert(joined(all) =~= joined(first) + joined(second));
    }
}

/// The total length of some symbols.
pub open spec fn total_len(symbols: Seq<Vec<u8>>) -> int {
    symbols.fold_left(0int, |n: int, s: Vec<u8>| n + s@.len())
}

proof fn lemma_total_len(symbols: Seq<Vec<u8>>)
    ensures
        joined(symbols).len() == total_len(symbols),
    decreases symbols.len(),
{
    reveal_with_fuel(Seq::fold_left, 2);
    if symbols.len() > 0 {
        lemma_total_len(symbols.drop_last());
    }
}

/// Every symbol is in its place in the stream: behind all the symbols before it, and the
/// stream is as long as all of them together.
pub proof fn symbol_is_in_its_place(symbols: Seq<Vec<u8>>, i: int)
    requires
        0 <= i < symbols.len(),
    ensures
        joined(symbols).len() == total_len(symbols),
        ({
            let at = total_len(symbols.take(i));
            &&& 0 <= at
            &&& at + symbols[i]@.len() <= joined(symbols).len()
            &&& joined(symbols).subrange(at, at + symbols[i]@.len()) == symbols[i]@
        }),
{
    let before = symbols.take(i);
    let here = seq![symbols[i]];
    let after = symbols.skip(i + 1);
    lemma_total_len(symbols);
    lemma_total_len(before);
    symbols_join_in_their_order(before, here, symbols[i]);
    symbols_join_in_their_order(before + here, after, symbols[i]);
    assert(symbols =~= before + here + after);
    let at = total_len(before);
    assert(joined(symbols).subrange(at, at + symbols[i]@.len()) =~= symbols[i]@);
}

/// A stream that is cut into symbols, wherever the cuts are, joins back to itself.
pub proof fn cut_stream_joins_back(stream: Seq<u8>, cuts: Seq<int>, symbols: Seq<Vec<u8>>)
    requires
        cuts.len() == symbols.len() + 1,
        cuts[0] == 0,
        cuts.last() == stream.len(),
        forall|i: int| 0 <= i < symbols.len() ==> 0 <= #[trigger] cuts[i] <= cuts[i + 1] <= stream.len(),
        forall|i: int| 0 <= i < symbols.len() ==> (#[trigger] symbols[i])@ == stream.subrange(cuts[i], cuts[i + 1]),
    ensures
        joined(symbols) == stream,
{
    lemma_cut_joins(stream, cuts, symbols, symbols.len());
    assert(symbols.take(symbols.len() as int) =~= symbols);
    assert(stream.take(stream.len() as int) =~= stream);
}

proof fn lemma_cut_joins(stream: Seq<u8>, cuts: Seq<int>, symbols: Seq<Vec<u8>>, n: nat)
    requires
        cuts.len() == symbols.len() + 1,
        cuts[0] == 0,
        forall|i: int| 0 <= i < symbols.len() ==> 0 <= #[trigger] cuts[i] <= cuts[i + 1] <= stream.len(),
        forall|i: int| 0 <= i < symbols.len() ==> (#[trigger] symbols[i])@ == stream.subrange(cuts[i], cuts[i + 1]),
        n <= symbols.len(),
    ensures
        joined(symbols.take(n as int)) == stream.take(cuts[n as int]),
        0 <= cuts[n as int],
    decreases n,
{
    if n == 0 {
        assert(joined(symbols.take(0)) =~= stream.take(0));
    } else {
        let m = n - 1;
        lemma_cut_joins(stream, cuts, symbols, m as nat);
        let head = symbols.take(n as int);
        assert(head.drop_last() =~= symbols.take(m));
        assert(head.last() == symbols[m]);
        assert(cuts[m] <= cuts[m + 1] <= stream.len());
        assert(joined(head) =~= stream.take(cuts[n as int]));
    }
}

/// Feeding hands the decoder every symbol of the frame, in the frame's order, each to the
/// decoder that the one before it left, and then decodes; a symbol that is refused ends it.
pub proof fn feeding_adds_every_symbol<G, S, N, A, F>(
    f: Fountain<N, A, F>,
    g: G,
    symbols: Seq<S>,
    to: G,
    out: Result<Vec<Vec<u8>>, DecodeFailure>,
) -> (states: Seq<G>) where
    N: Fn(usize, usize) -> G,
    A: Fn(G, &S) -> (G, Result<(), String>),
    F: Fn(G) -> (G, Result<Vec<Vec<u8>>, DecodeFailure>),

    requires
        fed(f, g, symbols, to, out),
    ensures
        states.len() > 0,
        states[0] == g,
        forall|i: int|
            0 <= i < states.len() - 1 ==> call_ensures(
                f.add,
                (#[trigger] states[i], &symbols[i]),
                (states[i + 1], Ok::<(), String>(())),
            ),
        ({
            ||| states.len() == symbols.len() + 1 && call_ensures(f.decode, (states.last(),), (to, out))
            ||| states.len() <= symbols.len() && (out matches Err(DecodeFailure::Other(e)) && call_ensures(
                f.add,
                (states.last(), &symbols[states.len() - 1]),
                (to, Err::<(), String>(e)),
            ))
        }),
{
    let len = symbols.len() as int;
    if exists|mid: G|
        {
            &&& #[trigger] takes_symbols(f, g, symbols, len, mid)
            &&& call_ensures(f.decode, (mid,), (to, out))
        } {
        let mid = choose|mid: G|
            {
                &&& #[trigger] takes_symbols(f, g, symbols, len, mid)
                &&& call_ensures(f.decode, (mid,), (to, out))
            };
        let states = choose|states: Seq<G>|
            #[trigger] adding(f, symbols, len, states) && states[0] == g && states.last() == mid;
        assert forall|i: int| 0 <= i < states.len() - 1 implies call_ensures(
            f.add,
            (#[trigger] states[i], &symbols[i]),
            (states[i + 1], Ok::<(), String>(())),
        ) by {
            let s = symbols[i];
        }
        states
    } else {
        let (n, e) = choose|n: int, e: String|
            {
                &&& #[trigger] refuses_symbol(f, g, symbols, n, e, to)
                &&& out == Err::<Vec<Vec<u8>>, DecodeFailure>(DecodeFailure::Other(e))
            };
        let mid = choose|mid: G|
            {
                &&& #[trigger] takes_symbols(f, g, symbols, n, mid)
                &&& call_ensures(f.add, (mid, &symbols[n]), (to, Err::<(), String>(e)))
            };
        let states = choose|states: Seq<G>|
            #[trigger] adding(f, symbols, n, states) && states[0] == g && states.last() == mid;
        assert forall|i: int| 0 <= i < states.len() - 1 implies call_ensures(
            f.add,
            (#[trigger] states[i], &symbols[i]),
            (states[i + 1], Ok::<(), String>(())),
        ) by {
            let s = symbols[i];
        }
        states
    }
}

/// Storing blocks one after the other: the log grows by their ids in their order, the root
/// absorbs them in that order, every id has a block, the first to come under an id stays,
/// and no other session's log changes.
pub proof fn stored_blocks_extend_the_log<B, H: Fn(&MerkleRoot, &BlockId) -> MerkleRoot>(
    h: H,
    a: StoreView<B>,
    session_id: u128,
    blocks: Seq<(B, BlockId)>,
    b: StoreView<B>,
)
    requires
        stores_to(h, a, session_id, blocks, b),
    ensures
        blocks.len() == 0 ==> b == a,
        blocks.len() > 0 ==> {
            &&& b.logs.contains_key(session_id)
            &&& b.logs[session_id].ids == (if a.logs.contains_key(session_id) {
                a.logs[session_id].ids + block_ids(blocks)
            } else {
                block_ids(blocks)
            })
        },
        rolls_to(h, a.log(session_id).root, block_ids(blocks), b.log(session_id).root),
        b.logs.remove(session_id) == a.logs.remove(session_id),
        forall|i: int| 0 <= i < blocks.len() ==> b.blocks.contains_key((#[trigger] blocks[i]).1),
        forall|id: BlockId| #[trigger] a.blocks.contains_key(id) ==> b.blocks.contains_key(id) && b.blocks[id] == a.blocks[id],
        forall|id: BlockId|
            #[trigger] b.blocks.contains_key(id) && !a.blocks.contains_key(id) ==> blocks.contains((b.blocks[id], id)),
    decreases blocks.len(),
{
    if blocks.len() == 0 {
        let states = choose|states: Seq<StoreView<B>>|
            #[trigger] stores(h, session_id, blocks, states) && states[0] == a && states.last() == b;
        assert(b == a);
        assert(block_ids(blocks) =~= Seq::empty());
        lemma_rolls_nowhere(h, a.log(session_id).root);
    } else {
        let head = blocks.drop_last();
        let last = blocks.last();
        let mid = lemma_stores_last(h, a, session_id, blocks, b);
        stored_blocks_extend_the_log(h, a, session_id, head, mid);
        assert(block_ids(blocks) =~= block_ids(head).push(last.1));
        lemma_rolls_on(h, a.log(session_id).root, block_ids(head), mid.log(session_id).root, last.1, b.log(session_id).root);
        assert(b.logs.contains_key(session_id));
        assert(b.logs.remove(session_id) =~= mid.logs.remove(session_id));
        if a.logs.contains_key(session_id) {
            assert(b.logs[session_id].ids =~= a.logs[session_id].ids + block_ids(blocks));
        } else {
            assert(b.logs[session_id].ids =~= block_ids(blocks));
        }
        assert forall|i: int| 0 <= i < blocks.len() implies b.blocks.contains_key((#[trigger] blocks[i]).1) by {
            if i < head.len() {
                assert(mid.blocks.contains_key(head[i].1));
            }
        }
        assert forall|id: BlockId| #[trigger] b.blocks.contains_key(id) && !a.blocks.contains_key(id) implies blocks.contains(
            (b.blocks[id], id),
        ) by {
            if mid.blocks.contains_key(id) {
                assert(head.contains((mid.blocks[id], id)));
                let i = choose|i: int| 0 <= i < head.len() && head[i] == (mid.blocks[id], id);
                assert(blocks[i] == (b.blocks[id], id));
            } else {
                assert(blocks[blocks.len() - 1] == (b.blocks[id], id));
            }
        }
    }
}

/// Dropping the decoder of a generation drops it alone.
pub proof fn dropping_spares_the_rest<G>(sessions: Map<u128, SessionView<G>>, session_id: u128, generation: u32)
    ensures
        dropped(sessions, session_id, generation).remove(session_id) == sessions.remove(session_id),
        !sessions.contains_key(session_id) ==> dropped(sessions, session_id, generation) == sessions,
        sessions.contains_key(session_id) ==> {
            let s = dropped(sessions, session_id, generation)[session_id];
            &&& dropped(sessions, session_id, generation).contains_key(session_id)
            &&& s.ids == sessions[session_id].ids
            &&& s.root == sessions[session_id].root
            &&& !s.decoders.contains_key(generation)
            &&& s.decoders.remove(generation) == sessions[session_id].decoders.remove(generation)
        },
{
    let d = dropped(sessions, session_id, generation);
    assert(d.remove(session_id) =~= sessions.remove(session_id));
    if sessions.contains_key(session_id) {
        assert(d[session_id].decoders.remove(generation) =~= sessions[session_id].decoders.remove(generation));
    }
}

/// Keeping a decoder for a generation changes that alone: the other decoders, the order and
/// the root of the session, the other sessions and the store stay; a session that was not
/// known has no ids and the zero root.
pub proof fn keeping_a_decoder_spares_the_rest<B, G>(a: ReceiverView<B, G>, session_id: u128, generation: u32, g: G)
    ensures
        ({
            let b = holding(a, session_id, generation, g);
            let s = b.sessions[session_id];
            &&& b.store == a.store
            &&& b.sessions.contains_key(session_id)
            &&& b.sessions.remove(session_id) == a.sessions.remove(session_id)
            &&& s.decoders.contains_key(generation)
            &&& s.decoders[generation] == g
            &&& a.sessions.contains_key(session_id) ==> {
                &&& s.ids == a.sessions[session_id].ids
                &&& s.root == a.sessions[session_id].root
                &&& s.decoders.remove(generation) == a.sessions[session_id].decoders.remove(generation)
            }
            &&& !a.sessions.contains_key(session_id) ==> {
                &&& s.ids.len() == 0
                &&& forall|i: int| 0 <= i < 32 ==> #[trigger] s.root@[i] == 0
                &&& s.decoders.remove(generation) == Map::<u32, G>::empty()
            }
        }),
{
    let b = holding(a, session_id, generation, g);
    let s = b.sessions[session_id];
    assert(b.sessions.remove(session_id) =~= a.sessions.remove(session_id));
    if a.sessions.contains_key(session_id) {
        assert(s.decoders.remove(generation) =~= a.sessions[session_id].decoders.remove(generation));
    } else {
        assert(s.decoders.remove(generation) =~= Map::<u32, G>::empty());
    }
}

/// Taking a decoder out and keeping another is keeping the other.
pub proof fn taking_out_and_keeping<B, G>(a: ReceiverView<B, G>, session_id: u128, generation: u32, g: G)
    ensures
        holding(
            with_decoders(a, session_id, a.session(session_id).decoders.remove(generation)),
            session_id,
            generation,
            g,
        ) == holding(a, session_id, generation, g),
{
    let out = with_decoders(a, session_id, a.session(session_id).decoders.remove(generation));
    let x = holding(out, session_id, generation, g);
    let y = holding(a, session_id, generation, g);
    assert(a.session(session_id).decoders.remove(generation).insert(generation, g) =~= a.session(
        session_id,
    ).decoders.insert(generation, g));
    assert(x.sessions =~= y.sessions);
}

/// The blocks are those of the chunks of the stream, each in the place of its chunk.
pub open spec fn blocks_of_stream<B, C, D, P>(
    compressor: C,
    codec: Codec<D, P>,
    stream: Seq<u8>,
    blocks: Seq<(B, BlockId)>,
) -> bool where
    D: Fn(&C, &[u8]) -> Result<Vec<u8>, String>,
    P: Fn(Vec<u8>) -> Result<(B, BlockId), String>,
 {
    &&& blocks.len() == chunks(stream).len()
    &&& forall|i: int|
        0 <= i < blocks.len() ==> holds_block(compressor, codec, chunks(stream)[i], (#[trigger] blocks[i]).0, blocks[i].1)
}

/// Some chunk of the stream does not decompress, or does not parse, as `e` says.
pub open spec fn stream_has_bad_chunk<B, C, D, P>(
    compressor: C,
    codec: Codec<D, P>,
    stream: Seq<u8>,
    e: ReceiverError,
) -> bool where
    D: Fn(&C, &[u8]) -> Result<Vec<u8>, String>,
    P: Fn(Vec<u8>) -> Result<(B, BlockId), String>,
 {
    exists|i: int|
        0 <= i < chunks(stream).len() && bad_chunk::<B, C, D, P>(compressor, codec, #[trigger] chunks(stream)[i], e)
}

/// The chunk does not decompress, or does not parse, as `e` says.
pub open spec fn bad_chunk<B, C, D, P>(compressor: C, codec: Codec<D, P>, chunk: Seq<u8>, e: ReceiverError) -> bool where
    D: Fn(&C, &[u8]) -> Result<Vec<u8>, String>,
    P: Fn(Vec<u8>) -> Result<(B, BlockId), String>,
 {
    match e {
        ReceiverError::Compress(text) => does_not_decompress(compressor, codec, chunk, text),
        ReceiverError::Frame(text) => does_not_parse::<B, C, D, P>(compressor, codec, chunk, text),
        _ => false,
    }
}

proof fn lemma_bad_chunk<B, C, D, P>(compressor: C, codec: Codec<D, P>, chunk: Seq<u8>, e: ReceiverError) where
    D: Fn(&C, &[u8]) -> Result<Vec<u8>, String>,
    P: Fn(Vec<u8>) -> Result<(B, BlockId), String>,

    requires
        unpacks::<B, C, D, P>(compressor, codec, chunk, Err(e)),
    ensures
        bad_chunk::<B, C, D, P>(compressor, codec, chunk, e),
{
    let (s, canon) = choose|s: &[u8], canon: Result<Vec<u8>, String>|
        {
            &&& s@ == chunk
            &&& #[trigger] call_ensures(codec.decompress, (&compressor, s), canon)
            &&& match canon {
                Ok(bytes) => exists|parsed: Result<(B, BlockId), String>|
                    #[trigger] call_ensures(codec.parse, (bytes,), parsed) && Err::<(B, BlockId), ReceiverError>(e)
                        == parse_outcome(parsed),
                Err(t) => Err::<(B, BlockId), ReceiverError>(e) == Err::<(B, BlockId), ReceiverError>(
                    ReceiverError::Compress(t),
                ),
            }
        };
    match canon {
        Ok(bytes) => {
            let parsed = choose|parsed: Result<(B, BlockId), String>|
                #[trigger] call_ensures(codec.parse, (bytes,), parsed) && Err::<(B, BlockId), ReceiverError>(e)
                    == parse_outcome(parsed);
            let text = parsed->Err_0;
            assert(parsed == Err::<(B, BlockId), String>(text));
            assert(call_ensures(codec.decompress, (&compressor, s), Ok(bytes)));
        },
        Err(text) => {
            assert(call_ensures(codec.decompress, (&compressor, s), Err(text)));
        },
    }
}

/// What comes of a decoded generation: either every chunk of its stream is a block, all of
/// them are stored in the stream's order and the decoder is dropped, or some chunk is no
/// block, which the error says, and nothing changes.
pub proof fn decoded_generation_is_stored_or_refused<B, G, H, C, D, P>(
    h: H,
    compressor: C,
    codec: Codec<D, P>,
    a: ReceiverView<B, G>,
    session_id: u128,
    generation: u32,
    symbols: Vec<Vec<u8>>,
    b: ReceiverView<B, G>,
    r: Result<bool, ReceiverError>,
) where
    H: Fn(&MerkleRoot, &BlockId) -> MerkleRoot,
    D: Fn(&C, &[u8]) -> Result<Vec<u8>, String>,
    P: Fn(Vec<u8>) -> Result<(B, BlockId), String>,

    requires
        bulk_finished(h, compressor, codec, a, session_id, generation, Ok(symbols), b, r),
    ensures
        r is Ok ==> r == Ok::<bool, ReceiverError>(true),
        r is Ok ==> exists|blocks: Seq<(B, BlockId)>|
            {
                &&& #[trigger] blocks_of_stream(compressor, codec, joined(symbols@), blocks)
                &&& stores_to(h, a.store, session_id, blocks, b.store)
            },
        r is Ok ==> b.sessions == dropped(a.sessions, session_id, generation),
        r matches Err(e) ==> b == a && stream_has_bad_chunk::<B, C, D, P>(compressor, codec, joined(symbols@), e),
{
    let stream = joined(symbols@);
    let cs = chunks(stream);
    match r {
        Ok(_) => {
            let blocks = choose|blocks: Seq<(B, BlockId)>|
                {
                    &&& #[trigger] all_unpack(compressor, codec, cs, blocks)
                    &&& stores_to(h, a.store, session_id, blocks, b.store)
                };
            assert forall|i: int| 0 <= i < blocks.len() implies holds_block(
                compressor,
                codec,
                cs[i],
                (#[trigger] blocks[i]).0,
                blocks[i].1,
            ) by {
                let c = cs[i];
                let t = blocks[i];
                assert(unpacks(compressor, codec, c, Ok((t.0, t.1))));
                unpacked_block_is_parsed(compressor, codec, c, t.0, t.1);
            }
            assert(blocks_of_stream(compressor, codec, stream, blocks));
        },
        Err(e) => {
            assert(some_fails::<B, C, D, P>(compressor, codec, cs, e));
            let i = choose|i: int| 0 <= i < cs.len() && unpacks::<B, C, D, P>(compressor, codec, #[trigger] cs[i], Err(e));
            lemma_bad_chunk(compressor, codec, cs[i], e);
        },
    }
}

/// A generation that decodes to a stream of sound chunks is complete.
pub proof fn sound_stream_completes_the_generation<B, G, H, C, D, P>(
    h: H,
    compressor: C,
    codec: Codec<D, P>,
    a: ReceiverView<B, G>,
    session_id: u128,
    generation: u32,
    symbols: Vec<Vec<u8>>,
    b: ReceiverView<B, G>,
    r: Result<bool, ReceiverError>,
) where
    H: Fn(&MerkleRoot, &BlockId) -> MerkleRoot,
    D: Fn(&C, &[u8]) -> Result<Vec<u8>, String>,
    P: Fn(Vec<u8>) -> Result<(B, BlockId), String>,

    requires
        bulk_finished(h, compressor, codec, a, session_id, generation, Ok(symbols), b, r),
        forall|i: int, s: &[u8], x: Result<Vec<u8>, String>|
            #![trigger chunks(joined(symbols@))[i], call_ensures(codec.decompress, (&compressor, s), x)]
            0 <= i < chunks(joined(symbols@)).len() && s@ == chunks(joined(symbols@))[i] && call_ensures(
                codec.decompress,
                (&compressor, s),
                x,
            ) ==> x is Ok && forall|y: Result<(B, BlockId), String>|
                #[trigger] call_ensures(codec.parse, (x->Ok_0,), y) ==> y is Ok,
    ensures
        r == Ok::<bool, ReceiverError>(true),
{
    decoded_generation_is_stored_or_refused(h, compressor, codec, a, session_id, generation, symbols, b, r);
    if let Err(e) = r {
        let cs = chunks(joined(symbols@));
        let i = choose|i: int| 0 <= i < cs.len() && bad_chunk::<B, C, D, P>(compressor, codec, #[trigger] cs[i], e);
        assert(bad_chunk::<B, C, D, P>(compressor, codec, cs[i], e));
        assert(false);
    }
}

/// What a bulk frame comes to. Its symbols, all of them and in their order, are fed to the
/// decoder of its generation, or to a new one made for the frame's `k` and symbol size.
/// Short of symbols, or refused by the decoder, nothing is stored and the decoder is kept
/// as it then is; decoded, the generation is finished with that outcome.
pub proof fn bulk_frame_is_fed_and_finished<B, G, S, H, C, D, P, N, A, F>(
    h: H,
    compressor: C,
    codec: Codec<D, P>,
    fountain: Fountain<N, A, F>,
    a: ReceiverView<B, G>,
    frame: BulkFrame<S>,
    b: ReceiverView<B, G>,
    r: Result<bool, ReceiverError>,
) -> (fed_with: (G, G, Result<Vec<Vec<u8>>, DecodeFailure>)) where
    H: Fn(&MerkleRoot, &BlockId) -> MerkleRoot,
    D: Fn(&C, &[u8]) -> Result<Vec<u8>, String>,
    P: Fn(Vec<u8>) -> Result<(B, BlockId), String>,
    N: Fn(usize, usize) -> G,
    A: Fn(G, &S) -> (G, Result<(), String>),
    F: Fn(G) -> (G, Result<Vec<Vec<u8>>, DecodeFailure>),

    requires
        bulk_handled(h, compressor, codec, fountain, a, frame, b, r),
    ensures
        ({
            let (g, to, outcome) = fed_with;
            let sid = frame.session_id;
            let known = a.sessions.contains_key(sid) && a.sessions[sid].decoders.contains_key(frame.generation);
            &&& known ==> g == a.sessions[sid].decoders[frame.generation]
            &&& !known ==> call_ensures(fountain.make, (frame.k as usize, frame.symbol_size as usize), g)
            &&& fed(fountain, g, frame.symbols@, to, outcome)
            &&& outcome matches Err(e) ==> {
                &&& b == holding(a, sid, frame.generation, to)
                &&& e is Underdetermined ==> r == Ok::<bool, ReceiverError>(false)
                &&& e matches DecodeFailure::Other(text) ==> r == Err::<bool, ReceiverError>(ReceiverError::Fountain(text))
            }
            &&& outcome matches Ok(symbols) ==> bulk_finished(
                h,
                compressor,
                codec,
                holding(a, sid, frame.generation, to),
                sid,
                frame.generation,
                Ok(symbols),
                b,
                r,
            )
        }),
{
    let (g, to, outcome) = choose|g: G, to: G, outcome: Result<Vec<Vec<u8>>, DecodeFailure>|
        {
            &&& opens(
                fountain.make,
                a,
                frame.session_id,
                frame.generation,
                frame.k as usize,
                frame.symbol_size as usize,
                g,
            )
            &&& #[trigger] fed(fountain, g, frame.symbols@, to, outcome)
            &&& bulk_finished(
                h,
                compressor,
                codec,
                holding(a, frame.session_id, frame.generation, to),
                frame.session_id,
                frame.generation,
                outcome,
                b,
                r,
            )
        };
    (g, to, outcome)
}

} // verus!
