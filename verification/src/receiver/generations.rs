//! What holds of a generation whose symbols arrive over several frames.
use vstd::prelude::*;

use crate::bytes::{BlockId, MerkleRoot};
use crate::frame::{AckFrame, BulkFrame, Frame};
use crate::receiver::bulk::{adding, all_unpack, bulk_finished, bulk_handled, fed, holding, joined, opens, refuses_symbol,
    some_fails, stores_to, takes_symbols, DecodeFailure, Fountain};
use crate::receiver::dispatch::{frame_handled, frames_handled};
use crate::receiver::laws::lemma_appends_last;
use crate::receiver::{all_resolve, append_handled, appends, appends_to, committed, stuck_at, ReceiverView, Resolved};
use crate::unpack::{chunks, unpacks, Codec, ReceiverError};

verus! {

/// The functions of a fountain give one result for the same arguments.
pub open spec fn fountain_one_way<G, S, N, A, F>(f: Fountain<N, A, F>) -> bool where
    N: Fn(usize, usize) -> G,
    A: Fn(G, &S) -> (G, Result<(), String>),
    F: Fn(G) -> (G, Result<Vec<Vec<u8>>, DecodeFailure>),
 {
    &&& forall|k: usize, size: usize, x: G, y: G|
        #[trigger] call_ensures(f.make, (k, size), x) && #[trigger] call_ensures(f.make, (k, size), y) ==> x == y
    &&& forall|g: G, s: &S, x: (G, Result<(), String>), y: (G, Result<(), String>)|
        #[trigger] call_ensures(f.add, (g, s), x) && #[trigger] call_ensures(f.add, (g, s), y) ==> x == y
    &&& forall|
        g: G,
        x: (G, Result<Vec<Vec<u8>>, DecodeFailure>),
        y: (G, Result<Vec<Vec<u8>>, DecodeFailure>),
    | #[trigger]
        call_ensures(f.decode, (g,), x) && #[trigger] call_ensures(f.decode, (g,), y) ==> x == y
}

/// Decoding that is short of symbols gives the decoder back as it was.
pub open spec fn fountain_patient<G, N, A, F>(f: Fountain<N, A, F>) -> bool where
    F: Fn(G) -> (G, Result<Vec<Vec<u8>>, DecodeFailure>),
 {
    forall|g: G, x: (G, Result<Vec<Vec<u8>>, DecodeFailure>)| #[trigger]
        call_ensures(f.decode, (g,), x) && x.1 == Err::<Vec<Vec<u8>>, DecodeFailure>(DecodeFailure::Underdetermined)
            ==> x.0 == g
}

/// The functions of a codec give one result for the same arguments.
pub open spec fn codec_one_way<B, C, D, P>(codec: Codec<D, P>) -> bool where
    D: Fn(&C, &[u8]) -> Result<Vec<u8>, String>,
    P: Fn(Vec<u8>) -> Result<(B, BlockId), String>,
 {
    &&& forall|c: &C, s: &[u8], x: Result<Vec<u8>, String>, y: Result<Vec<u8>, String>|
        #[trigger] call_ensures(codec.decompress, (c, s), x) && #[trigger] call_ensures(codec.decompress, (c, s), y)
            ==> x == y
    &&& forall|canon: Vec<u8>, x: Result<(B, BlockId), String>, y: Result<(B, BlockId), String>|
        #[trigger] call_ensures(codec.parse, (canon,), x) && #[trigger] call_ensures(codec.parse, (canon,), y) ==> x == y
}

/// The decoder of a generation in flight.
pub open spec fn decoder_of<B, G>(a: ReceiverView<B, G>, session_id: u128, generation: u32) -> Option<G> {
    if a.session(session_id).decoders.contains_key(generation) {
        Some(a.session(session_id).decoders[generation])
    } else {
        None
    }
}

/// Two runs of the same additions pass through the same decoders.
proof fn lemma_same_adding<G, S, N, A, F>(
    f: Fountain<N, A, F>,
    symbols: Seq<S>,
    n: int,
    xs: Seq<G>,
    m: int,
    ys: Seq<G>,
    i: int,
) where
    N: Fn(usize, usize) -> G,
    A: Fn(G, &S) -> (G, Result<(), String>),
    F: Fn(G) -> (G, Result<Vec<Vec<u8>>, DecodeFailure>),

    requires
        fountain_one_way::<G, S, N, A, F>(f),
        adding(f, symbols, n, xs),
        adding(f, symbols, m, ys),
        xs[0] == ys[0],
        0 <= i <= n,
        i <= m,
    ensures
        xs[i] == ys[i],
    decreases i,
{
    if i > 0 {
        lemma_same_adding(f, symbols, n, xs, m, ys, i - 1);
        let s = symbols[i - 1];
        assert(call_ensures(f.add, (xs[i - 1], &s), (xs[i], Ok::<(), String>(()))));
        assert(call_ensures(f.add, (ys[i - 1], &s), (ys[i], Ok::<(), String>(()))));
    }
}

/// A decoder that takes the first `m` symbols does not refuse one of them.
proof fn lemma_taken_not_refused<G, S, N, A, F>(
    f: Fountain<N, A, F>,
    g: G,
    symbols: Seq<S>,
    m: int,
    to: G,
    n: int,
    e: String,
    end: G,
) where
    N: Fn(usize, usize) -> G,
    A: Fn(G, &S) -> (G, Result<(), String>),
    F: Fn(G) -> (G, Result<Vec<Vec<u8>>, DecodeFailure>),

    requires
        fountain_one_way::<G, S, N, A, F>(f),
        takes_symbols(f, g, symbols, m, to),
        refuses_symbol(f, g, symbols, n, e, end),
    ensures
        m <= n,
{
    if n < m {
        let xs = choose|states: Seq<G>|
            #[trigger] adding(f, symbols, m, states) && states[0] == g && states.last() == to;
        let mid = choose|mid: G|
            {
                &&& #[trigger] takes_symbols(f, g, symbols, n, mid)
                &&& call_ensures(f.add, (mid, &symbols[n]), (end, Err::<(), String>(e)))
            };
        let ys = choose|states: Seq<G>|
            #[trigger] adding(f, symbols, n, states) && states[0] == g && states.last() == mid;
        lemma_same_adding(f, symbols, m, xs, n, ys, n);
        let s = symbols[n];
        assert(call_ensures(f.add, (xs[n], &s), (xs[n + 1], Ok::<(), String>(()))));
        assert(call_ensures(f.add, (xs[n], &s), (end, Err::<(), String>(e))));
    }
}

/// Taking the same symbols leads to the same decoder.
proof fn lemma_taken_one_way<G, S, N, A, F>(f: Fountain<N, A, F>, g: G, symbols: Seq<S>, n: int, x: G, y: G) where
    N: Fn(usize, usize) -> G,
    A: Fn(G, &S) -> (G, Result<(), String>),
    F: Fn(G) -> (G, Result<Vec<Vec<u8>>, DecodeFailure>),

    requires
        fountain_one_way::<G, S, N, A, F>(f),
        n >= 0,
        takes_symbols(f, g, symbols, n, x),
        takes_symbols(f, g, symbols, n, y),
    ensures
        x == y,
{
    let xs = choose|states: Seq<G>| #[trigger] adding(f, symbols, n, states) && states[0] == g && states.last() == x;
    let ys = choose|states: Seq<G>| #[trigger] adding(f, symbols, n, states) && states[0] == g && states.last() == y;
    lemma_same_adding(f, symbols, n, xs, n, ys, n);
}

/// Where the fountain is a function, feeding the same symbols to the same decoder has one
/// outcome.
pub proof fn feeding_has_one_outcome<G, S, N, A, F>(
    f: Fountain<N, A, F>,
    g: G,
    symbols: Seq<S>,
    x: G,
    x_out: Result<Vec<Vec<u8>>, DecodeFailure>,
    y: G,
    y_out: Result<Vec<Vec<u8>>, DecodeFailure>,
) where
    N: Fn(usize, usize) -> G,
    A: Fn(G, &S) -> (G, Result<(), String>),
    F: Fn(G) -> (G, Result<Vec<Vec<u8>>, DecodeFailure>),

    requires
        fountain_one_way::<G, S, N, A, F>(f),
        fed(f, g, symbols, x, x_out),
        fed(f, g, symbols, y, y_out),
    ensures
        x == y,
        x_out == y_out,
{
    let len = symbols.len() as int;
    if exists|mid: G|
        {
            &&& #[trigger] takes_symbols(f, g, symbols, len, mid)
            &&& call_ensures(f.decode, (mid,), (x, x_out))
        } {
        let mid = choose|mid: G|
            {
                &&& #[trigger] takes_symbols(f, g, symbols, len, mid)
                &&& call_ensures(f.decode, (mid,), (x, x_out))
            };
        if exists|n: int, e: String| #[trigger] refuses_symbol(f, g, symbols, n, e, y) {
            let (n, e) = choose|n: int, e: String| #[trigger] refuses_symbol(f, g, symbols, n, e, y);
            lemma_taken_not_refused(f, g, symbols, len, mid, n, e, y);
        } else {
            let other = choose|mid: G|
                {
                    &&& #[trigger] takes_symbols(f, g, symbols, len, mid)
                    &&& call_ensures(f.decode, (mid,), (y, y_out))
                };
            lemma_taken_one_way(f, g, symbols, len, mid, other);
        }
    } else {
        let (n, e) = choose|n: int, e: String|
            {
                &&& #[trigger] refuses_symbol(f, g, symbols, n, e, x)
                &&& x_out == Err::<Vec<Vec<u8>>, DecodeFailure>(DecodeFailure::Other(e))
            };
        if exists|mid: G| #[trigger] takes_symbols(f, g, symbols, len, mid) {
            let mid = choose|mid: G| #[trigger] takes_symbols(f, g, symbols, len, mid);
            lemma_taken_not_refused(f, g, symbols, len, mid, n, e, x);
        }
        let (m, d) = choose|m: int, d: String|
            {
                &&& #[trigger] refuses_symbol(f, g, symbols, m, d, y)
                &&& y_out == Err::<Vec<Vec<u8>>, DecodeFailure>(DecodeFailure::Other(d))
            };
        let a = choose|mid: G|
            {
                &&& #[trigger] takes_symbols(f, g, symbols, n, mid)
                &&& call_ensures(f.add, (mid, &symbols[n]), (x, Err::<(), String>(e)))
            };
        let b = choose|mid: G|
            {
                &&& #[trigger] takes_symbols(f, g, symbols, m, mid)
                &&& call_ensures(f.add, (mid, &symbols[m]), (y, Err::<(), String>(d)))
            };
        lemma_taken_not_refused(f, g, symbols, n, a, m, d, y);
        lemma_taken_not_refused(f, g, symbols, m, b, n, e, x);
        lemma_taken_one_way(f, g, symbols, n, a, b);
    }
}

/// Taking some symbols and then `n` of others is taking them in a row.
proof fn lemma_takes_join<G, S, N, A, F>(
    f: Fountain<N, A, F>,
    g: G,
    first: Seq<S>,
    mid: G,
    second: Seq<S>,
    n: int,
    to: G,
) where A: Fn(G, &S) -> (G, Result<(), String>)
    requires
        takes_symbols(f, g, first, first.len() as int, mid),
        takes_symbols(f, mid, second, n, to),
        0 <= n <= second.len(),
    ensures
        takes_symbols(f, g, first + second, first.len() + n, to),
{
    let l = first.len() as int;
    let xs = choose|states: Seq<G>| #[trigger] adding(f, first, l, states) && states[0] == g && states.last() == mid;
    let ys = choose|states: Seq<G>| #[trigger] adding(f, second, n, states) && states[0] == mid && states.last() == to;
    let all = first + second;
    let states = xs + ys.drop_first();
    assert forall|i: int| 0 <= i < l + n implies call_ensures(
        f.add,
        (states[i], &#[trigger] all[i]),
        (states[i + 1], Ok::<(), String>(())),
    ) by {
        if i < l {
            assert(call_ensures(f.add, (xs[i], &first[i]), (xs[i + 1], Ok::<(), String>(()))));
        } else {
            let j = i - l;
            assert(call_ensures(f.add, (ys[j], &second[j]), (ys[j + 1], Ok::<(), String>(()))));
            assert(states[i] == ys[j]);
        }
    }
    assert(adding(f, all, l + n, states));
    assert(states.last() == to);
}

/// Symbols that are fed in two parts, the first of which is not enough to decode, are fed
/// as they would be in one.
pub proof fn symbols_in_two_parts_are_fed_as_one<G, S, N, A, F>(
    f: Fountain<N, A, F>,
    g: G,
    first: Seq<S>,
    mid: G,
    second: Seq<S>,
    to: G,
    out: Result<Vec<Vec<u8>>, DecodeFailure>,
) where
    N: Fn(usize, usize) -> G,
    A: Fn(G, &S) -> (G, Result<(), String>),
    F: Fn(G) -> (G, Result<Vec<Vec<u8>>, DecodeFailure>),

    requires
        fountain_patient::<G, N, A, F>(f),
        fed(f, g, first, mid, Err::<Vec<Vec<u8>>, DecodeFailure>(DecodeFailure::Underdetermined)),
        fed(f, mid, second, to, out),
    ensures
        fed(f, g, first + second, to, out),
{
    let l = first.len() as int;
    let all = first + second;
    let short = Err::<Vec<Vec<u8>>, DecodeFailure>(DecodeFailure::Underdetermined);
    let end = choose|end: G|
        {
            &&& #[trigger] takes_symbols(f, g, first, l, end)
            &&& call_ensures(f.decode, (end,), (mid, short))
        };
    assert(mid == end);
    if exists|n: int, e: String|
        {
            &&& #[trigger] refuses_symbol(f, mid, second, n, e, to)
            &&& out == Err::<Vec<Vec<u8>>, DecodeFailure>(DecodeFailure::Other(e))
        } {
        let (n, e) = choose|n: int, e: String|
            {
                &&& #[trigger] refuses_symbol(f, mid, second, n, e, to)
                &&& out == Err::<Vec<Vec<u8>>, DecodeFailure>(DecodeFailure::Other(e))
            };
        let stop = choose|stop: G|
            {
                &&& #[trigger] takes_symbols(f, mid, second, n, stop)
                &&& call_ensures(f.add, (stop, &second[n]), (to, Err::<(), String>(e)))
            };
        lemma_takes_join(f, g, first, mid, second, n, stop);
        assert(all[l + n] == second[n]);
        assert(refuses_symbol(f, g, all, l + n, e, to));
    } else {
        let stop = choose|stop: G|
            {
                &&& #[trigger] takes_symbols(f, mid, second, second.len() as int, stop)
                &&& call_ensures(f.decode, (stop,), (to, out))
            };
        lemma_takes_join(f, g, first, mid, second, second.len() as int, stop);
        assert(takes_symbols(f, g, all, all.len() as int, stop));
    }
}

/// Appending leaves the decoders of every session as they are.
proof fn lemma_appends_keep_decoders<B, G, H: Fn(&MerkleRoot, &BlockId) -> MerkleRoot>(
    h: H,
    a: ReceiverView<B, G>,
    session_id: u128,
    items: Seq<Resolved<B>>,
    b: ReceiverView<B, G>,
    any: u128,
)
    requires
        appends_to(h, a, session_id, items, b),
    ensures
        b.session(any).decoders == a.session(any).decoders,
    decreases items.len(),
{
    if items.len() == 0 {
        let states = choose|states: Seq<ReceiverView<B, G>>|
            #[trigger] appends(h, session_id, items, states) && states[0] == a && states.last() == b;
        assert(b == a);
    } else {
        let mid = lemma_appends_last(h, a, session_id, items, b);
        lemma_appends_keep_decoders(h, a, session_id, items.drop_last(), mid, any);
    }
}

/// The frame is not a bulk frame of the generation.
pub open spec fn spares<S>(f: Frame<S>, session_id: u128, generation: u32) -> bool {
    f matches Frame::Bulk(frame) ==> frame.session_id != session_id || frame.generation != generation
}

proof fn lemma_frame_spares<B, G, S, H, C, D, P, N, A, F>(
    h: H,
    compressor: C,
    codec: Codec<D, P>,
    fountain: Fountain<N, A, F>,
    a: ReceiverView<B, G>,
    f: Frame<S>,
    b: ReceiverView<B, G>,
    r: Result<Option<Frame<S>>, ReceiverError>,
    session_id: u128,
    generation: u32,
) where
    H: Fn(&MerkleRoot, &BlockId) -> MerkleRoot,
    D: Fn(&C, &[u8]) -> Result<Vec<u8>, String>,
    P: Fn(Vec<u8>) -> Result<(B, BlockId), String>,
    N: Fn(usize, usize) -> G,
    A: Fn(G, &S) -> (G, Result<(), String>),
    F: Fn(G) -> (G, Result<Vec<Vec<u8>>, DecodeFailure>),

    requires
        frame_handled(h, compressor, codec, fountain, a, f, b, r),
        spares(f, session_id, generation),
    ensures
        decoder_of(b, session_id, generation) == decoder_of(a, session_id, generation),
{
    if let Frame::Append(frame) = f {
        if b != a {
            let ack = choose|ack: Result<AckFrame, ReceiverError>|
                #[trigger] append_handled(h, compressor, codec, a, frame, b, ack);
            let items = choose|items: Seq<Resolved<B>>|
                {
                    &&& #[trigger] all_resolve(compressor, codec, frame.blocks@, items)
                    &&& committed(h, a, frame.session_id, frame.base_root, items, b, ack)
                };
            let start = a.knowing(frame.session_id);
            if b != start {
                if ack is Ok {
                    lemma_appends_keep_decoders(h, start, frame.session_id, items, b, session_id);
                } else {
                    let n = choose|n: int| #[trigger] stuck_at(h, start, frame.session_id, items, n, b);
                    lemma_appends_keep_decoders(h, start, frame.session_id, items.take(n), b, session_id);
                }
            }
        }
    }
}

/// Frames of other generations and sessions, and frames that are no bulk frames, leave a
/// generation's decoder as it is.
pub proof fn other_frames_leave_a_generation<B, G, S, H, C, D, P, N, A, F>(
    h: H,
    compressor: C,
    codec: Codec<D, P>,
    fountain: Fountain<N, A, F>,
    frames: Seq<Frame<S>>,
    answers: Seq<Result<Option<Frame<S>>, ReceiverError>>,
    states: Seq<ReceiverView<B, G>>,
    session_id: u128,
    generation: u32,
) where
    H: Fn(&MerkleRoot, &BlockId) -> MerkleRoot,
    D: Fn(&C, &[u8]) -> Result<Vec<u8>, String>,
    P: Fn(Vec<u8>) -> Result<(B, BlockId), String>,
    N: Fn(usize, usize) -> G,
    A: Fn(G, &S) -> (G, Result<(), String>),
    F: Fn(G) -> (G, Result<Vec<Vec<u8>>, DecodeFailure>),

    requires
        frames_handled(h, compressor, codec, fountain, frames, answers, states),
        forall|i: int| 0 <= i < frames.len() ==> spares(#[trigger] frames[i], session_id, generation),
    ensures
        decoder_of(states.last(), session_id, generation) == decoder_of(states[0], session_id, generation),
    decreases frames.len(),
{
    if frames.len() > 0 {
        let n = frames.len() - 1;
        let head = frames.drop_last();
        let before = answers.drop_last();
        let fewer = states.drop_last();
        assert forall|i: int| 0 <= i < head.len() implies frame_handled(
            h,
            compressor,
            codec,
            fountain,
            fewer[i],
            #[trigger] head[i],
            fewer[i + 1],
            before[i],
        ) by {
            assert(frame_handled(h, compressor, codec, fountain, states[i], frames[i], states[i + 1], answers[i]));
        }
        assert forall|i: int| 0 <= i < head.len() implies spares(#[trigger] head[i], session_id, generation) by {
            assert(spares(frames[i], session_id, generation));
        }
        other_frames_leave_a_generation(
            h,
            compressor,
            codec,
            fountain,
            head,
            before,
            fewer,
            session_id,
            generation,
        );
        assert(frame_handled(h, compressor, codec, fountain, states[n], frames[n], states[n + 1], answers[n]));
        lemma_frame_spares(
            h,
            compressor,
            codec,
            fountain,
            states[n],
            frames[n],
            states[n + 1],
            answers[n],
            session_id,
            generation,
        );
    }
}

/// Where the codec is a function, unpacking has one result.
proof fn lemma_unpacks_one_way<B, C, D, P>(
    compressor: C,
    codec: Codec<D, P>,
    comp: Seq<u8>,
    x: Result<(B, BlockId), ReceiverError>,
    y: Result<(B, BlockId), ReceiverError>,
) where D: Fn(&C, &[u8]) -> Result<Vec<u8>, String>, P: Fn(Vec<u8>) -> Result<(B, BlockId), String>
    requires
        codec_one_way::<B, C, D, P>(codec),
        unpacks(compressor, codec, comp, x),
        unpacks(compressor, codec, comp, y),
    ensures
        x == y,
{
    assert forall|s: &[u8], t: &[u8]| s@ == comp && t@ == comp implies s == t by {
        assert(s =~= t);
    }
}

/// Receivers that finish a generation from the same decoder and the same outcome of
/// decoding it answer alike.
proof fn lemma_finish_alike<B, G, H, C, D, P>(
    h: H,
    compressor: C,
    codec: Codec<D, P>,
    session_id: u128,
    generation: u32,
    g: G,
    outcome: Result<Vec<Vec<u8>>, DecodeFailure>,
    p: ReceiverView<B, G>,
    p_to: ReceiverView<B, G>,
    p_answer: Result<bool, ReceiverError>,
    q: ReceiverView<B, G>,
    q_to: ReceiverView<B, G>,
    q_answer: Result<bool, ReceiverError>,
) where
    H: Fn(&MerkleRoot, &BlockId) -> MerkleRoot,
    D: Fn(&C, &[u8]) -> Result<Vec<u8>, String>,
    P: Fn(Vec<u8>) -> Result<(B, BlockId), String>,

    requires
        codec_one_way::<B, C, D, P>(codec),
        bulk_finished(
            h,
            compressor,
            codec,
            holding(p, session_id, generation, g),
            session_id,
            generation,
            outcome,
            p_to,
            p_answer,
        ),
        bulk_finished(
            h,
            compressor,
            codec,
            holding(q, session_id, generation, g),
            session_id,
            generation,
            outcome,
            q_to,
            q_answer,
        ),
    ensures
        same_finish(h, session_id, generation, p, p_to, p_answer, q, q_to, q_answer),
{
    if let Ok(symbols) = outcome {
        let cs = chunks(joined(symbols@));
        let p_held = holding(p, session_id, generation, g);
        let q_held = holding(q, session_id, generation, g);
        if p_answer is Ok && q_answer is Ok {
            let x = choose|blocks: Seq<(B, BlockId)>|
                {
                    &&& #[trigger] all_unpack(compressor, codec, cs, blocks)
                    &&& stores_to(h, p_held.store, session_id, blocks, p_to.store)
                };
            let y = choose|blocks: Seq<(B, BlockId)>|
                {
                    &&& #[trigger] all_unpack(compressor, codec, cs, blocks)
                    &&& stores_to(h, q_held.store, session_id, blocks, q_to.store)
                };
            assert forall|i: int| 0 <= i < cs.len() implies x[i] == y[i] by {
                let c = cs[i];
                lemma_unpacks_one_way(compressor, codec, c, Ok(x[i]), Ok(y[i]));
            }
            assert(x =~= y);
            assert(stores_to(h, p.store, session_id, x, p_to.store));
        } else if p_answer is Ok {
            let x = choose|blocks: Seq<(B, BlockId)>| #[trigger] all_unpack(compressor, codec, cs, blocks);
            lemma_all_or_some(compressor, codec, cs, x, q_answer->Err_0);
        } else if q_answer is Ok {
            let y = choose|blocks: Seq<(B, BlockId)>| #[trigger] all_unpack(compressor, codec, cs, blocks);
            lemma_all_or_some(compressor, codec, cs, y, p_answer->Err_0);
        }
    }
}

/// Where the codec is a function, chunks that unpack do not fail.
proof fn lemma_all_or_some<B, C, D, P>(
    compressor: C,
    codec: Codec<D, P>,
    cs: Seq<Seq<u8>>,
    blocks: Seq<(B, BlockId)>,
    e: ReceiverError,
) where D: Fn(&C, &[u8]) -> Result<Vec<u8>, String>, P: Fn(Vec<u8>) -> Result<(B, BlockId), String>
    requires
        codec_one_way::<B, C, D, P>(codec),
        all_unpack(compressor, codec, cs, blocks),
    ensures
        !some_fails::<B, C, D, P>(compressor, codec, cs, e),
{
    if some_fails::<B, C, D, P>(compressor, codec, cs, e) {
        let i = choose|i: int| 0 <= i < cs.len() && unpacks::<B, C, D, P>(compressor, codec, #[trigger] cs[i], Err(e));
        lemma_unpacks_one_way(compressor, codec, cs[i], Ok(blocks[i]), Err(e));
    }
}

/// Receivers `p` and `q` answer a generation alike: both or neither complete it, and if
/// both do, with the same blocks in the same order, after which the generation is in
/// flight no more; else both keep the same decoder and store nothing. Of two answers that
/// each name a block which does not unpack, the blocks may differ.
pub open spec fn same_finish<B, G, H: Fn(&MerkleRoot, &BlockId) -> MerkleRoot>(
    h: H,
    session_id: u128,
    generation: u32,
    p: ReceiverView<B, G>,
    p_to: ReceiverView<B, G>,
    p_answer: Result<bool, ReceiverError>,
    q: ReceiverView<B, G>,
    q_to: ReceiverView<B, G>,
    q_answer: Result<bool, ReceiverError>,
) -> bool {
    &&& p_answer is Ok <==> q_answer is Ok
    &&& p_answer is Ok ==> q_answer == p_answer
    &&& p_answer is Err && (p_answer->Err_0 is Fountain || q_answer->Err_0 is Fountain) ==> q_answer == p_answer
    &&& if p_answer == Ok::<bool, ReceiverError>(true) {
        &&& exists|blocks: Seq<(B, BlockId)>|
            {
                &&& #[trigger] stores_to(h, p.store, session_id, blocks, p_to.store)
                &&& stores_to(h, q.store, session_id, blocks, q_to.store)
            }
        &&& decoder_of(p_to, session_id, generation) is None
        &&& decoder_of(q_to, session_id, generation) is None
    } else {
        &&& p_to.store == p.store
        &&& q_to.store == q.store
        &&& decoder_of(p_to, session_id, generation) is Some
        &&& decoder_of(q_to, session_id, generation) == decoder_of(p_to, session_id, generation)
    }
}

/// The symbols of a new generation that arrive over two frames, the first of which is not
/// enough, give what they would give in one frame, whatever frames of other generations
/// and sessions come in between. This holds of fountains and codecs whose functions give
/// one result for the same arguments, if decoding that is short of symbols gives the
/// decoder back as it was.
pub proof fn two_frames_give_what_one_gives<B, G, S, H, C, D, P, N, A, F>(
    h: H,
    compressor: C,
    codec: Codec<D, P>,
    fountain: Fountain<N, A, F>,
    a: ReceiverView<B, G>,
    first: BulkFrame<S>,
    between: Seq<Frame<S>>,
    answers: Seq<Result<Option<Frame<S>>, ReceiverError>>,
    states: Seq<ReceiverView<B, G>>,
    second: BulkFrame<S>,
    b: ReceiverView<B, G>,
    b_answer: Result<bool, ReceiverError>,
    x: ReceiverView<B, G>,
    whole: BulkFrame<S>,
    y: ReceiverView<B, G>,
    y_answer: Result<bool, ReceiverError>,
) where
    H: Fn(&MerkleRoot, &BlockId) -> MerkleRoot,
    D: Fn(&C, &[u8]) -> Result<Vec<u8>, String>,
    P: Fn(Vec<u8>) -> Result<(B, BlockId), String>,
    N: Fn(usize, usize) -> G,
    A: Fn(G, &S) -> (G, Result<(), String>),
    F: Fn(G) -> (G, Result<Vec<Vec<u8>>, DecodeFailure>),

    requires
        fountain_one_way::<G, S, N, A, F>(fountain),
        fountain_patient::<G, N, A, F>(fountain),
        codec_one_way::<B, C, D, P>(codec),
        first.session_id == whole.session_id && second.session_id == whole.session_id,
        first.generation == whole.generation && second.generation == whole.generation,
        first.k == whole.k && second.k == whole.k,
        first.symbol_size == whole.symbol_size && second.symbol_size == whole.symbol_size,
        whole.symbols@ == first.symbols@ + second.symbols@,
        decoder_of(a, whole.session_id, whole.generation) is None,
        decoder_of(x, whole.session_id, whole.generation) is None,
        bulk_handled(h, compressor, codec, fountain, a, first, states[0], Ok(false)),
        frames_handled(h, compressor, codec, fountain, between, answers, states),
        forall|i: int| 0 <= i < between.len() ==> spares(#[trigger] between[i], whole.session_id, whole.generation),
        bulk_handled(h, compressor, codec, fountain, states.last(), second, b, b_answer),
        bulk_handled(h, compressor, codec, fountain, x, whole, y, y_answer),
    ensures
        same_finish(h, whole.session_id, whole.generation, states.last(), b, b_answer, x, y, y_answer),
{
    let sid = whole.session_id;
    let gen = whole.generation;
    let k = whole.k as usize;
    let size = whole.symbol_size as usize;
    let (g1, t1, o1) = choose|g: G, to: G, outcome: Result<Vec<Vec<u8>>, DecodeFailure>|
        {
            &&& opens(fountain.make, a, sid, gen, k, size, g)
            &&& #[trigger] fed(fountain, g, first.symbols@, to, outcome)
            &&& bulk_finished(h, compressor, codec, holding(a, sid, gen, to), sid, gen, outcome, states[0], Ok(false))
        };
    let (g2, t2, o2) = choose|g: G, to: G, outcome: Result<Vec<Vec<u8>>, DecodeFailure>|
        {
            &&& opens(fountain.make, states.last(), sid, gen, k, size, g)
            &&& #[trigger] fed(fountain, g, second.symbols@, to, outcome)
            &&& bulk_finished(h, compressor, codec, holding(states.last(), sid, gen, to), sid, gen, outcome, b, b_answer)
        };
    let (g3, t3, o3) = choose|g: G, to: G, outcome: Result<Vec<Vec<u8>>, DecodeFailure>|
        {
            &&& opens(fountain.make, x, sid, gen, k, size, g)
            &&& #[trigger] fed(fountain, g, whole.symbols@, to, outcome)
            &&& bulk_finished(h, compressor, codec, holding(x, sid, gen, to), sid, gen, outcome, y, y_answer)
        };
    other_frames_leave_a_generation(h, compressor, codec, fountain, between, answers, states, sid, gen);
    assert(g1 == g3);
    assert(g2 == t1);
    symbols_in_two_parts_are_fed_as_one(fountain, g1, first.symbols@, t1, second.symbols@, t2, o2);
    feeding_has_one_outcome(fountain, g1, whole.symbols@, t2, o2, t3, o3);
    lemma_finish_alike(h, compressor, codec, sid, gen, t2, o2, states.last(), b, b_answer, x, y, y_answer);
}

} // verus!
