//! Bulk transfer: fountain-decoding a generation and storing the blocks it carries.
//!
//! The fountain decoder of a generation is a value that the receiver is given the
//! functions of; what is proved here holds for any.
use vstd::prelude::*;

use crate::bytes::{BlockId, MerkleRoot};
use crate::frame::BulkFrame;
use crate::receiver::{Receiver, ReceiverView, SessionState, SessionView};
use crate::store::{inserted, StoreView};
use crate::unpack::{chunks, codec_total, split_chunks, unpack_each, unpacks, Codec, ReceiverError};

verus! {

broadcast use vstd::std_specs::hash::group_hash_axioms;

/// Why a generation does not decode.
#[derive(Debug)]
pub enum DecodeFailure {
    /// More symbols are needed.
    Underdetermined,
    /// The decoder refuses the symbols.
    Other(String),
}

/// The functions of a fountain decoder: `make` one for `k` symbols of a size, `add` a
/// symbol, `decode` what has been added. The last two give back the decoder as it is
/// afterwards.
pub struct Fountain<N, A, F> {
    pub make: N,
    pub add: A,
    pub decode: F,
}

/// The functions are defined on every input.
pub open spec fn fountain_total<G, S, N, A, F>(f: Fountain<N, A, F>) -> bool where
    N: Fn(usize, usize) -> G,
    A: Fn(G, &S) -> (G, Result<(), String>),
    F: Fn(G) -> (G, Result<Vec<Vec<u8>>, DecodeFailure>),
 {
    &&& forall|k: usize, size: usize| call_requires(f.make, (k, size))
    &&& forall|g: G, s: &S| call_requires(f.add, (g, s))
    &&& forall|g: G| call_requires(f.decode, (g,))
}

/// `states` are the decoders that adding the first `n` symbols one after the other, each
/// taken, passes through.
pub open spec fn adding<G, S, N, A, F>(f: Fountain<N, A, F>, symbols: Seq<S>, n: int, states: Seq<G>) -> bool where
    A: Fn(G, &S) -> (G, Result<(), String>),
 {
    &&& states.len() == n + 1
    &&& forall|i: int|
        0 <= i < n ==> call_ensures(
            f.add,
            (states[i], &#[trigger] symbols[i]),
            (states[i + 1], Ok::<(), String>(())),
        )
}

/// Decoder `g` takes the first `n` symbols and becomes `to`.
pub open spec fn takes_symbols<G, S, N, A, F>(f: Fountain<N, A, F>, g: G, symbols: Seq<S>, n: int, to: G) -> bool where
    A: Fn(G, &S) -> (G, Result<(), String>),
 {
    exists|states: Seq<G>| #[trigger] adding(f, symbols, n, states) && states[0] == g && states.last() == to
}

/// Decoder `g` takes the first `n` symbols, refuses the next with `e`, and becomes `to`.
pub open spec fn refuses_symbol<G, S, N, A, F>(
    f: Fountain<N, A, F>,
    g: G,
    symbols: Seq<S>,
    n: int,
    e: String,
    to: G,
) -> bool where A: Fn(G, &S) -> (G, Result<(), String>) {
    &&& 0 <= n < symbols.len()
    &&& exists|mid: G|
        {
            &&& #[trigger] takes_symbols(f, g, symbols, n, mid)
            &&& call_ensures(f.add, (mid, &symbols[n]), (to, Err::<(), String>(e)))
        }
}

/// Feeding the symbols to decoder `g` in their order, up to the first it refuses, and then
/// decoding if it refuses none, may give `out` and leave the decoder `to`.
pub open spec fn fed<G, S, N, A, F>(
    f: Fountain<N, A, F>,
    g: G,
    symbols: Seq<S>,
    to: G,
    out: Result<Vec<Vec<u8>>, DecodeFailure>,
) -> bool where
    A: Fn(G, &S) -> (G, Result<(), String>),
    F: Fn(G) -> (G, Result<Vec<Vec<u8>>, DecodeFailure>),
 {
    ||| exists|mid: G|
        {
            &&& #[trigger] takes_symbols(f, g, symbols, symbols.len() as int, mid)
            &&& call_ensures(f.decode, (mid,), (to, out))
        }
    ||| exists|n: int, e: String|
        {
            &&& #[trigger] refuses_symbol(f, g, symbols, n, e, to)
            &&& out == Err::<Vec<Vec<u8>>, DecodeFailure>(DecodeFailure::Other(e))
        }
}

/// Feeds symbols to a decoder and tries to decode.
pub fn feed<G, S, N, A, F>(dec: G, symbols: &Vec<S>, fountain: &Fountain<N, A, F>) -> (r: (
    G,
    Result<Vec<Vec<u8>>, DecodeFailure>,
)) where
    N: Fn(usize, usize) -> G,
    A: Fn(G, &S) -> (G, Result<(), String>),
    F: Fn(G) -> (G, Result<Vec<Vec<u8>>, DecodeFailure>),

    requires
        fountain_total::<G, S, N, A, F>(*fountain),
    ensures
        fed(*fountain, dec, symbols@, r.0, r.1),
{
    let ghost mut states: Seq<G> = seq![dec];
    let mut now: G = dec;
    let mut i: usize = 0;
    while i < symbols.len()
        invariant
            i <= symbols@.len(),
            fountain_total::<G, S, N, A, F>(*fountain),
            adding(*fountain, symbols@, i as int, states),
            states[0] == dec,
            states.last() == now,
        decreases symbols@.len() - i,
    {
        let ghost before = now;
        let (next, taken): (G, Result<(), String>) = (fountain.add)(now, &symbols[i]);
        match taken {
            Ok(done) => {
                assert(done == ());
            },
            Err(e) => {
                assert(takes_symbols(*fountain, dec, symbols@, i as int, before));
                assert(refuses_symbol(*fountain, dec, symbols@, i as int, e, next));
                return (next, Err(DecodeFailure::Other(e)));
            },
        }
        proof {
            let more = states.push(next);
            assert forall|j: int| 0 <= j < i + 1 implies call_ensures(
                fountain.add,
                (more[j], &#[trigger] symbols@[j]),
                (more[j + 1], Ok::<(), String>(())),
            ) by {
                if j < i {
                    assert(call_ensures(
                        fountain.add,
                        (states[j], &symbols@[j]),
                        (states[j + 1], Ok::<(), String>(())),
                    ));
                }
            }
            states = more;
        }
        now = next;
        i += 1;
    }
    assert(takes_symbols(*fountain, dec, symbols@, symbols@.len() as int, now));
    (fountain.decode)(now)
}

/// The symbols of a generation, one after the other.
pub open spec fn joined(symbols: Seq<Vec<u8>>) -> Seq<u8>
    decreases symbols.len(),
{
    if symbols.len() == 0 {
        Seq::empty()
    } else {
        joined(symbols.drop_last()) + symbols.last()@
    }
}

/// Joins the symbols of a generation into the stream that they carry.
pub fn join_symbols(symbols: &Vec<Vec<u8>>) -> (stream: Vec<u8>)
    ensures
        stream@ == joined(symbols@),
{
    let mut stream: Vec<u8> = Vec::new();
    let mut i: usize = 0;
    assert(joined(symbols@.take(0)) =~= Seq::<u8>::empty());
    while i < symbols.len()
        invariant
            i <= symbols@.len(),
            stream@ == joined(symbols@.take(i as int)),
        decreases symbols@.len() - i,
    {
        let ghost head = symbols@.take(i + 1);
        let ghost before = stream@;
        assert(head.drop_last() =~= symbols@.take(i as int));
        stream.extend_from_slice(symbols[i].as_slice());
        assert(stream@ =~= before + symbols@[i as int]@);
        i += 1;
    }
    assert(symbols@.take(i as int) =~= symbols@);
    stream
}

/// Every chunk may unpack to the block in its place.
pub open spec fn all_unpack<B, C, D, P>(
    compressor: C,
    codec: Codec<D, P>,
    cs: Seq<Seq<u8>>,
    blocks: Seq<(B, BlockId)>,
) -> bool where D: Fn(&C, &[u8]) -> Result<Vec<u8>, String>, P: Fn(Vec<u8>) -> Result<(B, BlockId), String> {
    &&& blocks.len() == cs.len()
    &&& forall|i: int| 0 <= i < cs.len() ==> unpacks(compressor, codec, #[trigger] cs[i], Ok(blocks[i]))
}

/// Some chunk may fail to unpack with `e`.
pub open spec fn some_fails<B, C, D, P>(compressor: C, codec: Codec<D, P>, cs: Seq<Seq<u8>>, e: ReceiverError) -> bool where
    D: Fn(&C, &[u8]) -> Result<Vec<u8>, String>,
    P: Fn(Vec<u8>) -> Result<(B, BlockId), String>,
 {
    exists|i: int| 0 <= i < cs.len() && unpacks::<B, C, D, P>(compressor, codec, #[trigger] cs[i], Err(e))
}

/// What the outcome of decoding a generation gives: nothing yet, the blocks of the stream
/// in its order, or an error.
pub open spec fn recovers<B, C, D, P>(
    compressor: C,
    codec: Codec<D, P>,
    outcome: Result<Vec<Vec<u8>>, DecodeFailure>,
    r: Result<Option<Vec<(B, BlockId)>>, ReceiverError>,
) -> bool where D: Fn(&C, &[u8]) -> Result<Vec<u8>, String>, P: Fn(Vec<u8>) -> Result<(B, BlockId), String> {
    match outcome {
        Err(DecodeFailure::Underdetermined) => r == Ok::<Option<Vec<(B, BlockId)>>, ReceiverError>(None),
        Err(DecodeFailure::Other(e)) => r == Err::<Option<Vec<(B, BlockId)>>, ReceiverError>(ReceiverError::Fountain(e)),
        Ok(symbols) => {
            let cs = chunks(joined(symbols@));
            match r {
                Ok(Some(blocks)) => all_unpack(compressor, codec, cs, blocks@),
                Ok(None) => false,
                Err(e) => some_fails::<B, C, D, P>(compressor, codec, cs, e),
            }
        },
    }
}

/// Turns the outcome of decoding a generation into the blocks it carries.
pub fn recover<B, C, D, P>(outcome: Result<Vec<Vec<u8>>, DecodeFailure>, compressor: &C, codec: &Codec<D, P>) -> (r: Result<
    Option<Vec<(B, BlockId)>>,
    ReceiverError,
>) where
    B: Send,
    C: Sync,
    D: Fn(&C, &[u8]) -> Result<Vec<u8>, String> + Sync,
    P: Fn(Vec<u8>) -> Result<(B, BlockId), String> + Sync,

    requires
        codec_total::<B, C, D, P>(*codec),
    ensures
        recovers(*compressor, *codec, outcome, r),
{
    let symbols: Vec<Vec<u8>> = match outcome {
        Ok(symbols) => symbols,
        Err(DecodeFailure::Underdetermined) => {
            return Ok(None);
        },
        Err(DecodeFailure::Other(e)) => {
            return Err(ReceiverError::Fountain(e));
        },
    };
    let stream: Vec<u8> = join_symbols(&symbols);
    let parts: Vec<&[u8]> = split_chunks(stream.as_slice());
    let ghost cs = chunks(joined(symbols@));
    match unpack_each(&parts, compressor, codec) {
        Ok(blocks) => {
            proof {
                assert forall|i: int| 0 <= i < cs.len() implies unpacks(*compressor, *codec, #[trigger] cs[i], Ok(blocks@[i])) by {
                    assert(parts@[i]@ == cs[i]);
                    assert(unpacks(*compressor, *codec, parts@[i]@, Ok(blocks@[i])));
                }
            }
            Ok(Some(blocks))
        },
        Err(e) => {
            proof {
                let i = choose|i: int|
                    0 <= i < parts@.len() && unpacks::<B, C, D, P>(*compressor, *codec, (#[trigger] parts@[i])@, Err(e));
                assert(parts@[i]@ == cs[i]);
            }
            Err(e)
        },
    }
}

/// `states` are the stores that inserting `blocks` one after the other passes through.
pub open spec fn stores<B, H: Fn(&MerkleRoot, &BlockId) -> MerkleRoot>(
    h: H,
    session_id: u128,
    blocks: Seq<(B, BlockId)>,
    states: Seq<StoreView<B>>,
) -> bool {
    &&& states.len() == blocks.len() + 1
    &&& forall|i: int|
        0 <= i < blocks.len() ==> inserted(h, states[i], session_id, (#[trigger] blocks[i]).0, blocks[i].1, states[i + 1])
}

/// Inserting `blocks` one after the other leads from store `a` to store `b`.
pub open spec fn stores_to<B, H: Fn(&MerkleRoot, &BlockId) -> MerkleRoot>(
    h: H,
    a: StoreView<B>,
    session_id: u128,
    blocks: Seq<(B, BlockId)>,
    b: StoreView<B>,
) -> bool {
    exists|states: Seq<StoreView<B>>|
        #[trigger] stores(h, session_id, blocks, states) && states[0] == a && states.last() == b
}

/// The sessions once a generation's decoder has been dropped.
pub open spec fn dropped<G>(sessions: Map<u128, SessionView<G>>, session_id: u128, generation: u32) -> Map<
    u128,
    SessionView<G>,
> {
    if sessions.contains_key(session_id) {
        let s = sessions[session_id];
        sessions.insert(
            session_id,
            SessionView { ids: s.ids, root: s.root, decoders: s.decoders.remove(generation) },
        )
    } else {
        sessions
    }
}

/// What the outcome of decoding a generation does and answers. Short of symbols, nothing
/// happens; decoded, the blocks of the stream are stored in its order, all or none, and
/// the decoder is dropped.
pub open spec fn bulk_finished<B, G, H, C, D, P>(
    h: H,
    compressor: C,
    codec: Codec<D, P>,
    a: ReceiverView<B, G>,
    session_id: u128,
    generation: u32,
    outcome: Result<Vec<Vec<u8>>, DecodeFailure>,
    b: ReceiverView<B, G>,
    r: Result<bool, ReceiverError>,
) -> bool where
    H: Fn(&MerkleRoot, &BlockId) -> MerkleRoot,
    D: Fn(&C, &[u8]) -> Result<Vec<u8>, String>,
    P: Fn(Vec<u8>) -> Result<(B, BlockId), String>,
 {
    match outcome {
        Err(DecodeFailure::Underdetermined) => r == Ok::<bool, ReceiverError>(false) && b == a,
        Err(DecodeFailure::Other(e)) => r == Err::<bool, ReceiverError>(ReceiverError::Fountain(e)) && b == a,
        Ok(symbols) => {
            let cs = chunks(joined(symbols@));
            match r {
                Ok(done) => {
                    &&& done
                    &&& exists|blocks: Seq<(B, BlockId)>|
                        {
                            &&& #[trigger] all_unpack(compressor, codec, cs, blocks)
                            &&& stores_to(h, a.store, session_id, blocks, b.store)
                        }
                    &&& b.sessions == dropped(a.sessions, session_id, generation)
                },
                Err(e) => some_fails::<B, C, D, P>(compressor, codec, cs, e) && b == a,
            }
        },
    }
}

/// `g` is the decoder of a generation: the one that is there, or a new one.
pub open spec fn opens<B, G, N: Fn(usize, usize) -> G>(
    make: N,
    a: ReceiverView<B, G>,
    session_id: u128,
    generation: u32,
    k: usize,
    symbol_size: usize,
    g: G,
) -> bool {
    let decoders = a.session(session_id).decoders;
    if decoders.contains_key(generation) {
        g == decoders[generation]
    } else {
        call_ensures(make, (k, symbol_size), g)
    }
}

/// The receiver with other decoders for a session.
pub open spec fn with_decoders<B, G>(a: ReceiverView<B, G>, session_id: u128, decoders: Map<u32, G>) -> ReceiverView<B, G> {
    let s = a.session(session_id);
    a.with_session(session_id, SessionView { ids: s.ids, root: s.root, decoders })
}

/// The receiver with `g` for the decoder of a generation.
pub open spec fn holding<B, G>(a: ReceiverView<B, G>, session_id: u128, generation: u32, g: G) -> ReceiverView<B, G> {
    with_decoders(a, session_id, a.session(session_id).decoders.insert(generation, g))
}

/// What a bulk frame does and answers: a decoder is there or made, the symbols are fed to
/// it, and the outcome is acted on.
pub open spec fn bulk_handled<B, G, S, H, C, D, P, N, A, F>(
    h: H,
    compressor: C,
    codec: Codec<D, P>,
    fountain: Fountain<N, A, F>,
    a: ReceiverView<B, G>,
    frame: BulkFrame<S>,
    b: ReceiverView<B, G>,
    r: Result<bool, ReceiverError>,
) -> bool where
    H: Fn(&MerkleRoot, &BlockId) -> MerkleRoot,
    D: Fn(&C, &[u8]) -> Result<Vec<u8>, String>,
    P: Fn(Vec<u8>) -> Result<(B, BlockId), String>,
    N: Fn(usize, usize) -> G,
    A: Fn(G, &S) -> (G, Result<(), String>),
    F: Fn(G) -> (G, Result<Vec<Vec<u8>>, DecodeFailure>),
 {
    exists|g: G, to: G, outcome: Result<Vec<Vec<u8>>, DecodeFailure>|
        {
            &&& opens(
                fountain.make,
                a,
                frame.session_id,
                frame.generation,
                frame.k as usize,
                frame.symbol_size as usize,
                g,
            )
            &&& #[trigger] fed(fountain, g, frame.symbols@, to, outcome)
            &&& bulk_finished(
                h,
                compressor,
                codec,
                holding(a, frame.session_id, frame.generation, to),
                frame.session_id,
                frame.generation,
                outcome,
                b,
                r,
            )
        }
}

impl<B, H: Fn(&MerkleRoot, &BlockId) -> MerkleRoot, C, G> Receiver<B, H, C, G> {
    /// Takes out the decoder of a generation, or makes one.
    pub fn open_generation<N: Fn(usize, usize) -> G>(
        &mut self,
        session_id: u128,
        generation: u32,
        k: usize,
        symbol_size: usize,
        make: &N,
    ) -> (g: G)
        requires
            old(self).wf(),
            forall|k: usize, size: usize| call_requires(*make, (k, size)),
        ensures
            final(self).wf(),
            final(self).append_root_fn() == old(self).append_root_fn(),
            final(self).compressor_value() == old(self).compressor_value(),
            opens(*make, old(self)@, session_id, generation, k, symbol_size, g),
            final(self)@ == with_decoders(
                old(self)@,
                session_id,
                old(self)@.session(session_id).decoders.remove(generation),
            ),
    {
        let ghost before = self@;
        let mut st: SessionState<G> = self.take_session(session_id);
        let ghost s = st@;
        let g: G = match st.decoders.remove(&generation) {
            Some(g) => g,
            None => make(k, symbol_size),
        };
        assert(st@.decoders =~= s.decoders.remove(generation));
        self.put_session(session_id, st);
        assert(self@.sessions =~= before.sessions.insert(session_id, st@));
        g
    }

    /// Puts the decoder of a generation in its place.
    pub fn keep_generation(&mut self, session_id: u128, generation: u32, g: G)
        requires
            old(self).wf(),
        ensures
            final(self).wf(),
            final(self).append_root_fn() == old(self).append_root_fn(),
            final(self).compressor_value() == old(self).compressor_value(),
            final(self)@ == holding(old(self)@, session_id, generation, g),
    {
        let ghost before = self@;
        let mut st: SessionState<G> = self.take_session(session_id);
        let ghost s = st@;
        st.decoders.insert(generation, g);
        assert(st@.decoders =~= s.decoders.insert(generation, g));
        self.put_session(session_id, st);
        assert(self@.sessions =~= before.sessions.insert(session_id, st@));
    }

    /// Stores recovered blocks in their order and drops the generation's decoder.
    pub fn complete_generation(&mut self, session_id: u128, generation: u32, blocks: Vec<(B, BlockId)>)
        requires
            old(self).wf(),
        ensures
            final(self).wf(),
            final(self).append_root_fn() == old(self).append_root_fn(),
            final(self).compressor_value() == old(self).compressor_value(),
            stores_to(old(self).append_root_fn(), old(self)@.store, session_id, blocks@, final(self)@.store),
            final(self)@.sessions == dropped(old(self)@.sessions, session_id, generation),
    {
        let ghost before = *self;
        let ghost h = self.append_root_fn();
        let ghost all = blocks@;
        let ghost mut states: Seq<StoreView<B>> = seq![self.store@];
        let ghost mut n: int = 0;
        assert(all.take(0) =~= Seq::<(B, BlockId)>::empty());
        for item in iter: blocks
            invariant
                iter.seq() == all,
                n == iter.index(),
                all == blocks@,
                self.store.wf(),
                self.store.append_root_fn() == h,
                self.compressor == before.compressor,
                self.sessions == before.sessions,
                stores(h, session_id, all.take(n), states),
                states[0] == before.store@,
                states.last() == self.store@,
        {
            assert(item == all[n]);
            self.store.insert_with_id(session_id, item.0, item.1);
            proof {
                let more = states.push(self.store@);
                let taken = all.take(n + 1);
                assert forall|i: int| 0 <= i < taken.len() implies inserted(h, more[i], session_id, (#[trigger] taken[i]).0, taken[i].1, more[i + 1]) by {
                    if i < n {
                        let t = all.take(n)[i];
                        assert(inserted(h, states[i], session_id, t.0, t.1, states[i + 1]));
                    }
                }
                states = more;
                n = n + 1;
            }
        }
        assert(all.take(n) =~= all);
        assert(self@.sessions == before@.sessions);
        if self.sessions.contains_key(&session_id) {
            let mut st: SessionState<G> = self.take_session(session_id);
            st.decoders.remove(&generation);
            self.put_session(session_id, st);
        }
        assert(self@.sessions =~= dropped(before@.sessions, session_id, generation));
    }

    /// Acts on the outcome of decoding a generation; says whether it decoded.
    pub fn finish_bulk<D, P>(
        &mut self,
        session_id: u128,
        generation: u32,
        outcome: Result<Vec<Vec<u8>>, DecodeFailure>,
        codec: &Codec<D, P>,
    ) -> (r: Result<bool, ReceiverError>) where
        B: Send,
        C: Sync,
        D: Fn(&C, &[u8]) -> Result<Vec<u8>, String> + Sync,
        P: Fn(Vec<u8>) -> Result<(B, BlockId), String> + Sync,

        requires
            old(self).wf(),
            codec_total::<B, C, D, P>(*codec),
        ensures
            final(self).wf(),
            final(self).append_root_fn() == old(self).append_root_fn(),
            final(self).compressor_value() == old(self).compressor_value(),
            bulk_finished(
                old(self).append_root_fn(),
                old(self).compressor_value(),
                *codec,
                old(self)@,
                session_id,
                generation,
                outcome,
                final(self)@,
                r,
            ),
    {
        match recover(outcome, &self.compressor, codec) {
            Ok(Some(blocks)) => {
                self.complete_generation(session_id, generation, blocks);
                Ok(true)
            },
            Ok(None) => Ok(false),
            Err(e) => Err(e),
        }
    }

    /// Handles a bulk frame: feeds its symbols to the generation's decoder and, once it
    /// decodes, stores the blocks it carries. Says whether this frame completed it.
    pub fn handle_bulk<S, D, P, N, A, F>(
        &mut self,
        frame: &BulkFrame<S>,
        codec: &Codec<D, P>,
        fountain: &Fountain<N, A, F>,
    ) -> (r: Result<bool, ReceiverError>) where
        B: Send,
        C: Sync,
        D: Fn(&C, &[u8]) -> Result<Vec<u8>, String> + Sync,
        P: Fn(Vec<u8>) -> Result<(B, BlockId), String> + Sync,
        N: Fn(usize, usize) -> G,
        A: Fn(G, &S) -> (G, Result<(), String>),
        F: Fn(G) -> (G, Result<Vec<Vec<u8>>, DecodeFailure>),

        requires
            old(self).wf(),
            codec_total::<B, C, D, P>(*codec),
            fountain_total::<G, S, N, A, F>(*fountain),
        ensures
            final(self).wf(),
            final(self).append_root_fn() == old(self).append_root_fn(),
            final(self).compressor_value() == old(self).compressor_value(),
            bulk_handled(
                old(self).append_root_fn(),
                old(self).compressor_value(),
                *codec,
                *fountain,
                old(self)@,
                *frame,
                final(self)@,
                r,
            ),
    {
        let ghost before = self@;
        let dec: G = self.open_generation(
            frame.session_id,
            frame.generation,
            frame.k as usize,
            frame.symbol_size as usize,
            &fountain.make,
        );
        let (dec, outcome): (G, Result<Vec<Vec<u8>>, DecodeFailure>) = feed(dec, &frame.symbols, fountain);
        self.keep_generation(frame.session_id, frame.generation, dec);
        proof {
            let held = holding(before, frame.session_id, frame.generation, dec);
            let decoders = before.session(frame.session_id).decoders;
            assert(decoders.remove(frame.generation).insert(frame.generation, dec) =~= decoders.insert(frame.generation, dec));
            assert(self@.sessions =~= held.sessions);
        }
        self.finish_bulk(frame.session_id, frame.generation, outcome, codec)
    }
}

} // verus!
