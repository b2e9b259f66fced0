//! The receiver: session logs over a content-addressed store.
//!
//! It decodes appended blocks into the store, resolves references, names what is missing
//! on a resync, stores what bulk transfer recovers, and hands out the session log in its
//! true order.
use std::collections::HashMap;
use vstd::prelude::*;

use crate::bytes::{same_bytes, BlockId, MerkleRoot, ROOT_ZERO};
use crate::frame::{AckFrame, AppendFrame, FrameBlock};
use crate::store::{inserted, referenced, ContentStore, StoreView};
use crate::text::{mismatch, mismatch_text};
use crate::unpack::{codec_total, unpack, unpacks, Codec, ReceiverError};

pub mod appends;
pub mod bulk;
pub mod dispatch;
pub mod generations;
pub mod laws;
pub mod log;
pub mod reading;
pub mod recovery;
pub mod repair;

verus! {

broadcast use vstd::std_specs::hash::group_hash_axioms;

/// What the receiver knows of a session: its ordered ids, its root, and the decoders of
/// the generations in flight.
#[verifier::reject_recursive_types(G)]
pub struct SessionView<G> {
    pub ids: Seq<BlockId>,
    pub root: MerkleRoot,
    pub decoders: Map<u32, G>,
}

/// What a receiver holds.
#[verifier::reject_recursive_types(B)]
#[verifier::reject_recursive_types(G)]
pub struct ReceiverView<B, G> {
    pub store: StoreView<B>,
    pub sessions: Map<u128, SessionView<G>>,
}

impl<B, G> ReceiverView<B, G> {
    /// A session; one that is not known is empty, with the zero root.
    pub open spec fn session(self, session_id: u128) -> SessionView<G> {
        if self.sessions.contains_key(session_id) {
            self.sessions[session_id]
        } else {
            SessionView { ids: Seq::empty(), root: ROOT_ZERO, decoders: Map::empty() }
        }
    }

    /// The receiver with `s` for the session.
    pub open spec fn with_session(self, session_id: u128, s: SessionView<G>) -> Self {
        ReceiverView { store: self.store, sessions: self.sessions.insert(session_id, s) }
    }

    /// The receiver once the session is known.
    pub open spec fn knowing(self, session_id: u128) -> Self {
        self.with_session(session_id, self.session(session_id))
    }
}

/// A handle on an assembled session log: where it is, not a copy of it.
#[derive(Debug, Clone, Copy)]
pub struct LogPointer {
    pub session_id: u128,
    pub root: MerkleRoot,
    pub len: usize,
}

/// A frame block whose id is known.
pub enum Resolved<B> {
    /// A block that came with the frame.
    Inline { id: BlockId, block: B },
    /// A block that is expected in the store.
    Ref(BlockId),
}

impl<B> Resolved<B> {
    /// The id.
    pub open spec fn id(self) -> BlockId {
        match self {
            Resolved::Inline { id, block } => id,
            Resolved::Ref(id) => id,
        }
    }
}

/// `item` is what a frame block may resolve to.
pub open spec fn resolves<B, C, D, P>(compressor: C, codec: Codec<D, P>, fb: FrameBlock, item: Resolved<B>) -> bool where
    D: Fn(&C, &[u8]) -> Result<Vec<u8>, String>,
    P: Fn(Vec<u8>) -> Result<(B, BlockId), String>,
 {
    match fb {
        FrameBlock::Inline(comp) => match item {
            Resolved::Inline { id, block } => unpacks(compressor, codec, comp@, Ok((block, id))),
            Resolved::Ref(_) => false,
        },
        FrameBlock::Ref(id) => item == Resolved::<B>::Ref(id),
    }
}

/// A frame block may resolve to something.
pub open spec fn resolvable<B, C, D, P>(compressor: C, codec: Codec<D, P>, fb: FrameBlock) -> bool where
    D: Fn(&C, &[u8]) -> Result<Vec<u8>, String>,
    P: Fn(Vec<u8>) -> Result<(B, BlockId), String>,
 {
    exists|item: Resolved<B>| #[trigger] resolves(compressor, codec, fb, item)
}

/// Frame block `i` is inline and unpacking it may give the error `e`, when every block
/// before it may resolve.
pub open spec fn fails_at<B, C, D, P>(
    compressor: C,
    codec: Codec<D, P>,
    blocks: Seq<FrameBlock>,
    i: int,
    e: ReceiverError,
) -> bool where D: Fn(&C, &[u8]) -> Result<Vec<u8>, String>, P: Fn(Vec<u8>) -> Result<(B, BlockId), String> {
    &&& 0 <= i < blocks.len()
    &&& blocks[i] matches FrameBlock::Inline(comp) && unpacks::<B, C, D, P>(compressor, codec, comp@, Err(e))
    &&& forall|j: int|
        0 <= j < i ==> resolvable::<B, C, D, P>(compressor, codec, #[trigger] blocks[j])
}

/// Every frame block resolves to the item in its place.
pub open spec fn all_resolve<B, C, D, P>(
    compressor: C,
    codec: Codec<D, P>,
    blocks: Seq<FrameBlock>,
    items: Seq<Resolved<B>>,
) -> bool where D: Fn(&C, &[u8]) -> Result<Vec<u8>, String>, P: Fn(Vec<u8>) -> Result<(B, BlockId), String> {
    &&& items.len() == blocks.len()
    &&& forall|i: int| 0 <= i < blocks.len() ==> resolves(compressor, codec, #[trigger] blocks[i], items[i])
}

/// Resolves the blocks of a frame in their order, up to the first that fails.
pub fn resolve_blocks<B, C, D, P>(blocks: &Vec<FrameBlock>, compressor: &C, codec: &Codec<D, P>) -> (out: Result<
    Vec<Resolved<B>>,
    ReceiverError,
>) where D: Fn(&C, &[u8]) -> Result<Vec<u8>, String>, P: Fn(Vec<u8>) -> Result<(B, BlockId), String>
    requires
        codec_total::<B, C, D, P>(*codec),
    ensures
        match out {
            Ok(items) => all_resolve(*compressor, *codec, blocks@, items@),
            Err(e) => exists|i: int| #[trigger] fails_at::<B, C, D, P>(*compressor, *codec, blocks@, i, e),
        },
{
    let mut items: Vec<Resolved<B>> = Vec::with_capacity(blocks.len());
    let mut i: usize = 0;
    while i < blocks.len()
        invariant
            i <= blocks@.len(),
            codec_total::<B, C, D, P>(*codec),
            items@.len() == i,
            forall|j: int| 0 <= j < i ==> resolves(*compressor, *codec, #[trigger] blocks@[j], items@[j]),
        decreases blocks@.len() - i,
    {
        match &blocks[i] {
            FrameBlock::Inline(comp) => {
                match unpack(comp.as_slice(), compressor, codec) {
                    Ok((block, id)) => {
                        items.push(Resolved::Inline { id, block });
                    },
                    Err(e) => {
                        assert forall|j: int| 0 <= j < i implies resolvable::<B, C, D, P>(*compressor, *codec, #[trigger] blocks@[j]) by {
                            assert(resolves(*compressor, *codec, blocks@[j], items@[j]));
                        }
                        assert(fails_at::<B, C, D, P>(*compressor, *codec, blocks@, i as int, e));
                        return Err(e);
                    },
                }
            },
            FrameBlock::Ref(id) => {
                items.push(Resolved::Ref(*id));
            },
        }
        i += 1;
    }
    Ok(items)
}

/// Receiver `b` is receiver `a` with one item appended to the session: to its ids and
/// root, and to the store.
pub open spec fn appended<B, G, H: Fn(&MerkleRoot, &BlockId) -> MerkleRoot>(
    h: H,
    a: ReceiverView<B, G>,
    session_id: u128,
    item: Resolved<B>,
    b: ReceiverView<B, G>,
) -> bool {
    let x = a.session(session_id);
    let y = b.session(session_id);
    &&& y.ids == x.ids.push(item.id())
    &&& call_ensures(h, (&x.root, &item.id()), y.root)
    &&& y.decoders == x.decoders
    &&& b.sessions == a.sessions.insert(session_id, y)
    &&& match item {
        Resolved::Inline { id, block } => inserted(h, a.store, session_id, block, id, b.store),
        Resolved::Ref(id) => referenced(h, a.store, session_id, id, b.store),
    }
}

/// `states` are the receivers that appending `items` one after the other passes through.
pub open spec fn appends<B, G, H: Fn(&MerkleRoot, &BlockId) -> MerkleRoot>(
    h: H,
    session_id: u128,
    items: Seq<Resolved<B>>,
    states: Seq<ReceiverView<B, G>>,
) -> bool {
    &&& states.len() == items.len() + 1
    &&& forall|i: int|
        0 <= i < items.len() ==> appended(h, states[i], session_id, #[trigger] items[i], states[i + 1])
}

/// Appending `items` one after the other leads from receiver `a` to receiver `b`.
pub open spec fn appends_to<B, G, H: Fn(&MerkleRoot, &BlockId) -> MerkleRoot>(
    h: H,
    a: ReceiverView<B, G>,
    session_id: u128,
    items: Seq<Resolved<B>>,
    b: ReceiverView<B, G>,
) -> bool {
    exists|states: Seq<ReceiverView<B, G>>|
        #[trigger] appends(h, session_id, items, states) && states[0] == a && states.last() == b
}

/// The error says that a frame builds on `client` where the receiver is at `ours`.
pub open spec fn says_mismatch(e: ReceiverError, client: MerkleRoot, ours: MerkleRoot) -> bool {
    e matches ReceiverError::Frame(text) && text@ == mismatch_text(client@, ours@)
}

/// Item `n` is a reference to a block that receiver `b`, which has taken the items before
/// it, does not have.
pub open spec fn stuck_at<B, G, H: Fn(&MerkleRoot, &BlockId) -> MerkleRoot>(
    h: H,
    a: ReceiverView<B, G>,
    session_id: u128,
    items: Seq<Resolved<B>>,
    n: int,
    b: ReceiverView<B, G>,
) -> bool {
    &&& 0 <= n < items.len()
    &&& appends_to(h, a, session_id, items.take(n), b)
    &&& items[n] matches Resolved::Ref(id) && !b.store.blocks.contains_key(id)
}

/// What appending resolved items to a session does and answers: nothing is appended unless
/// the frame builds on the session's root, and appending stops at a reference to a block
/// that is not there.
pub open spec fn committed<B, G, H: Fn(&MerkleRoot, &BlockId) -> MerkleRoot>(
    h: H,
    a: ReceiverView<B, G>,
    session_id: u128,
    base_root: MerkleRoot,
    items: Seq<Resolved<B>>,
    b: ReceiverView<B, G>,
    r: Result<AckFrame, ReceiverError>,
) -> bool {
    let start = a.knowing(session_id);
    if base_root != a.session(session_id).root {
        &&& r matches Err(e) && says_mismatch(e, base_root, a.session(session_id).root)
        &&& b == start
    } else {
        match r {
            Ok(ack) => {
                &&& appends_to(h, start, session_id, items, b)
                &&& ack == AckFrame { session_id, root: b.session(session_id).root }
            },
            Err(e) => {
                &&& e is MissingRef
                &&& exists|n: int| #[trigger] stuck_at(h, start, session_id, items, n, b)
            },
        }
    }
}

/// The root that the receiver is at for a session: that of the session or, if the session
/// is not known, that of the store's log.
pub open spec fn current_root<B, G>(a: ReceiverView<B, G>, session_id: u128) -> MerkleRoot {
    if a.sessions.contains_key(session_id) {
        a.sessions[session_id].root
    } else {
        a.store.log(session_id).root
    }
}

/// What an append frame does and answers. It is refused unless it builds on the root that
/// the receiver is at. A session that the receiver does not know starts at the zero root, so
/// one of which only the store has a log takes appends again after a resync.
pub open spec fn append_handled<B, G, H, C, D, P>(
    h: H,
    compressor: C,
    codec: Codec<D, P>,
    a: ReceiverView<B, G>,
    frame: AppendFrame,
    b: ReceiverView<B, G>,
    r: Result<AckFrame, ReceiverError>,
) -> bool where
    H: Fn(&MerkleRoot, &BlockId) -> MerkleRoot,
    D: Fn(&C, &[u8]) -> Result<Vec<u8>, String>,
    P: Fn(Vec<u8>) -> Result<(B, BlockId), String>,
 {
    let ours = current_root(a, frame.session_id);
    if frame.base_root != ours {
        &&& r matches Err(e) && says_mismatch(e, frame.base_root, ours)
        &&& b == a
    } else {
        ||| exists|items: Seq<Resolved<B>>|
            {
                &&& #[trigger] all_resolve(compressor, codec, frame.blocks@, items)
                &&& committed(h, a, frame.session_id, frame.base_root, items, b, r)
            }
        ||| b == a && (r matches Err(e) && exists|i: int|
            #[trigger] fails_at::<B, C, D, P>(compressor, codec, frame.blocks@, i, e))
    }
}

struct SessionState<G> {
    ids: Vec<BlockId>,
    root: MerkleRoot,
    decoders: HashMap<u32, G>,
}

impl<G> View for SessionState<G> {
    type V = SessionView<G>;

    closed spec fn view(&self) -> SessionView<G> {
        SessionView { ids: self.ids@, root: self.root, decoders: self.decoders@ }
    }
}

/// A content-addressed store plus the session logs.
#[verifier::reject_recursive_types(B)]
#[verifier::reject_recursive_types(G)]
pub struct Receiver<B, H, C, G> {
    store: ContentStore<B, H>,
    compressor: C,
    sessions: HashMap<u128, SessionState<G>>,
}

impl<B, H, C, G> View for Receiver<B, H, C, G> {
    type V = ReceiverView<B, G>;

    closed spec fn view(&self) -> ReceiverView<B, G> {
        ReceiverView { store: self.store@, sessions: self.sessions@.map_values(|s: SessionState<G>| s@) }
    }
}

impl<B, H, C, G> Receiver<B, H, C, G> {
    /// The function that absorbs an id into a root.
    pub closed spec fn append_root_fn(&self) -> H {
        self.store.append_root_fn()
    }

    /// The compressor that the receiver was made with.
    pub closed spec fn compressor_value(&self) -> C {
        self.compressor
    }
}

impl<B, H: Fn(&MerkleRoot, &BlockId) -> MerkleRoot, C, G> Receiver<B, H, C, G> {
    /// The store is well formed.
    pub closed spec fn wf(&self) -> bool {
        self.store.wf()
    }

    /// A receiver without sessions over a store.
    pub fn new(store: ContentStore<B, H>, compressor: C) -> (r: Self)
        requires
            store.wf(),
        ensures
            r.wf(),
            r.append_root_fn() == store.append_root_fn(),
            r.compressor_value() == compressor,
            r@.store == store@,
            r@.sessions == Map::<u128, SessionView<G>>::empty(),
    {
        let r = Receiver { store, compressor, sessions: HashMap::new() };
        assert(r@.sessions =~= Map::<u128, SessionView<G>>::empty());
        r
    }

    /// The store.
    pub fn store(&self) -> (store: &ContentStore<B, H>)
        ensures
            store@ == self@.store,
            store.append_root_fn() == self.append_root_fn(),
            self.wf() ==> store.wf(),
    {
        &self.store
    }

    /// The compressor.
    pub fn compressor(&self) -> (compressor: &C)
        ensures
            *compressor == self.compressor_value(),
    {
        &self.compressor
    }

    /// The session's state, taken out; a fresh one if the session is not known.
    fn take_session(&mut self, session_id: u128) -> (s: SessionState<G>)
        ensures
            s@ == old(self)@.session(session_id),
            final(self).store == old(self).store,
            final(self).compressor == old(self).compressor,
            final(self)@.sessions == old(self)@.sessions.remove(session_id),
    {
        let ghost before = self@;
        let s = match self.sessions.remove(&session_id) {
            Some(s) => s,
            None => {
                let s = SessionState { ids: Vec::new(), root: ROOT_ZERO, decoders: HashMap::new() };
                assert(s@.decoders =~= Map::<u32, G>::empty());
                s
            },
        };
        assert(self@.sessions =~= before.sessions.remove(session_id));
        s
    }

    /// Puts a session's state in its place.
    fn put_session(&mut self, session_id: u128, s: SessionState<G>)
        ensures
            final(self).store == old(self).store,
            final(self).compressor == old(self).compressor,
            final(self)@ == old(self)@.with_session(session_id, s@),
    {
        let ghost before = self@;
        self.sessions.insert(session_id, s);
        assert(self@.sessions =~= before.sessions.insert(session_id, s@));
    }

    /// Refuses a frame that does not build on the root that the receiver is at, before any
    /// work is spent on its blocks.
    pub fn check_base(&self, session_id: u128, base_root: MerkleRoot) -> (ok: Result<(), ReceiverError>)
        ensures
            match ok {
                Ok(_) => base_root == current_root(self@, session_id),
                Err(e) => {
                    &&& base_root != current_root(self@, session_id)
                    &&& says_mismatch(e, base_root, current_root(self@, session_id))
                },
            },
    {
        let ours: MerkleRoot = match self.sessions.get(&session_id) {
            Some(st) => st.root,
            None => self.store.session_root(session_id),
        };
        if !same_bytes(&base_root, &ours) {
            return Err(ReceiverError::Frame(mismatch(&base_root, &ours)));
        }
        Ok(())
    }

    /// Appends resolved items to a session in their order, if the frame builds on the
    /// session's root.
    pub fn commit_append(&mut self, session_id: u128, base_root: MerkleRoot, items: Vec<Resolved<B>>) -> (r: Result<
        AckFrame,
        ReceiverError,
    >)
        requires
            old(self).wf(),
        ensures
            final(self).wf(),
            final(self).append_root_fn() == old(self).append_root_fn(),
            final(self).compressor_value() == old(self).compressor_value(),
            committed(old(self).append_root_fn(), old(self)@, session_id, base_root, items@, final(self)@, r),
    {
        let ghost before = self@;
        let ghost h = self.append_root_fn();
        let ghost start = before.knowing(session_id);
        let mut st: SessionState<G> = self.take_session(session_id);
        if !same_bytes(&base_root, &st.root) {
            let e = ReceiverError::Frame(mismatch(&base_root, &st.root));
            self.put_session(session_id, st);
            assert(self@.sessions =~= start.sessions);
            return Err(e);
        }
        let ghost others = self@.sessions;
        let ghost compressor = self.compressor;
        let ghost mut states: Seq<ReceiverView<B, G>> = seq![
            ReceiverView { store: self.store@, sessions: others.insert(session_id, st@) },
        ];
        assert(states[0].sessions =~= start.sessions);
        let ghost all = items@;
        let ghost mut n: int = 0;
        assert(all.take(0) =~= Seq::<Resolved<B>>::empty());
        for item in iter: items
            invariant
                iter.seq() == all,
                n == iter.index(),
                all == items@,
                before == old(self)@,
                h == old(self).append_root_fn(),
                compressor == old(self).compressor_value(),
                start == before.knowing(session_id),
                base_root == before.session(session_id).root,
                self.store.wf(),
                self.store.append_root_fn() == h,
                self.compressor == compressor,
                self@.sessions == others,
                !others.contains_key(session_id),
                appends(h, session_id, all.take(n), states),
                states[0] == start,
                states.last() == (ReceiverView { store: self.store@, sessions: others.insert(session_id, st@) }),
        {
            let ghost a = states.last();
            let ghost x = st@;
            let ghost store0 = self.store@;
            assert(a.session(session_id) == x);
            assert(item == all[n]);
            match item {
                Resolved::Inline { id, block } => {
                    st.root = self.store.absorb(&st.root, &id);
                    st.ids.push(id);
                    self.store.insert_with_id(session_id, block, id);
                },
                Resolved::Ref(id) => {
                    if !self.store.contains(&id) {
                        self.put_session(session_id, st);
                        assert(self@.sessions =~= a.sessions);
                        assert(appends_to(h, start, session_id, all.take(n), self@));
                        assert(stuck_at(h, start, session_id, all, n, self@));
                        return Err(ReceiverError::MissingRef);
                    }
                    st.root = self.store.absorb(&st.root, &id);
                    st.ids.push(id);
                    match self.store.reference(session_id, id) {
                        Ok(_) => {},
                        Err(_) => {
                            self.put_session(session_id, st);
                            return Err(ReceiverError::MissingRef);
                        },
                    }
                },
            }
            proof {
                let b = ReceiverView { store: self.store@, sessions: others.insert(session_id, st@) };
                assert(b.sessions =~= a.sessions.insert(session_id, st@));
                assert(appended(h, a, session_id, all[n], b));
                let more = states.push(b);
                let taken = all.take(n + 1);
                assert forall|i: int| 0 <= i < taken.len() implies appended(h, more[i], session_id, #[trigger] taken[i], more[i + 1]) by {
                    if i < n {
                        assert(appended(h, states[i], session_id, all.take(n)[i], states[i + 1]));
                    }
                }
                states = more;
                n = n + 1;
            }
        }
        assert(all.take(n) =~= all);
        let ack = AckFrame { session_id, root: st.root };
        self.put_session(session_id, st);
        assert(self@ == states.last());
        assert(appends_to(h, start, session_id, all, self@));
        Ok(ack)
    }

    /// Handles an append frame: unpacks and stores its inline blocks, resolves its
    /// references, advances the session's root and acknowledges it.
    pub fn handle_append<D, P>(&mut self, frame: AppendFrame, codec: &Codec<D, P>) -> (r: Result<AckFrame, ReceiverError>) where
        D: Fn(&C, &[u8]) -> Result<Vec<u8>, String>,
        P: Fn(Vec<u8>) -> Result<(B, BlockId), String>,

        requires
            old(self).wf(),
            codec_total::<B, C, D, P>(*codec),
        ensures
            final(self).wf(),
            final(self).append_root_fn() == old(self).append_root_fn(),
            final(self).compressor_value() == old(self).compressor_value(),
            append_handled(
                old(self).append_root_fn(),
                old(self).compressor_value(),
                *codec,
                old(self)@,
                frame,
                final(self)@,
                r,
            ),
    {
        match self.check_base(frame.session_id, frame.base_root) {
            Ok(_) => {},
            Err(e) => {
                return Err(e);
            },
        }
        let items: Vec<Resolved<B>> = match resolve_blocks(&frame.blocks, &self.compressor, codec) {
            Ok(items) => items,
            Err(e) => {
                return Err(e);
            },
        };
        self.commit_append(frame.session_id, frame.base_root, items)
    }
}

} // verus!
