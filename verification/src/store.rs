//! The content-addressed store: blocks by id, and per session the ordered log of ids
//! with its rolling root.
//!
//! How a root absorbs an id is the store's `append_root` function, any function from a
//! root and an id to a root.
use std::collections::HashMap;
use vstd::prelude::*;

use crate::bytes::{copy_ids, halves, lemma_halves_injective, split_id, BlockId, MerkleRoot, ROOT_ZERO};

verus! {

broadcast use vstd::std_specs::hash::group_hash_axioms;

/// The ordered ids of a session and their rolling root.
pub struct LogView {
    pub ids: Seq<BlockId>,
    pub root: MerkleRoot,
}

/// What a store holds.
#[verifier::reject_recursive_types(B)]
pub struct StoreView<B> {
    pub blocks: Map<BlockId, B>,
    pub logs: Map<u128, LogView>,
}

impl<B> StoreView<B> {
    /// The log of a session; one that was never written to is empty, with the zero root.
    pub open spec fn log(self, session_id: u128) -> LogView {
        if self.logs.contains_key(session_id) {
            self.logs[session_id]
        } else {
            LogView { ids: Seq::empty(), root: ROOT_ZERO }
        }
    }
}

/// `append_root` is defined on every root and id.
pub open spec fn total<H: Fn(&MerkleRoot, &BlockId) -> MerkleRoot>(h: H) -> bool {
    forall|root: &MerkleRoot, id: &BlockId| call_requires(h, (root, id))
}

/// `append_root` gives one root for a root and an id.
pub open spec fn deterministic<H: Fn(&MerkleRoot, &BlockId) -> MerkleRoot>(h: H) -> bool {
    forall|root: &MerkleRoot, id: &BlockId, a: MerkleRoot, b: MerkleRoot|
        #[trigger] call_ensures(h, (root, id), a) && #[trigger] call_ensures(h, (root, id), b) ==> a == b
}

/// Log `b` is log `a` with `id` appended and absorbed into the root.
pub open spec fn logged<H: Fn(&MerkleRoot, &BlockId) -> MerkleRoot>(h: H, a: LogView, id: BlockId, b: LogView) -> bool {
    &&& b.ids == a.ids.push(id)
    &&& call_ensures(h, (&a.root, &id), b.root)
}

/// `roots` are the roots that absorbing `ids` one after the other passes through.
pub open spec fn rolls<H: Fn(&MerkleRoot, &BlockId) -> MerkleRoot>(
    h: H,
    ids: Seq<BlockId>,
    roots: Seq<MerkleRoot>,
) -> bool {
    &&& roots.len() == ids.len() + 1
    &&& forall|i: int| 0 <= i < ids.len() ==> call_ensures(h, (&roots[i], &#[trigger] ids[i]), roots[i + 1])
}

/// `to` is what `from` becomes by absorbing `ids` one after the other.
pub open spec fn rolls_to<H: Fn(&MerkleRoot, &BlockId) -> MerkleRoot>(
    h: H,
    from: MerkleRoot,
    ids: Seq<BlockId>,
    to: MerkleRoot,
) -> bool {
    exists|roots: Seq<MerkleRoot>| #[trigger] rolls(h, ids, roots) && roots[0] == from && roots.last() == to
}

/// Absorbing nothing leaves a root as it is.
pub proof fn lemma_rolls_nowhere<H: Fn(&MerkleRoot, &BlockId) -> MerkleRoot>(h: H, from: MerkleRoot)
    ensures
        rolls_to(h, from, Seq::empty(), from),
{
    assert(rolls(h, Seq::empty(), seq![from]));
}

/// Absorbing one more id rolls the root on.
pub proof fn lemma_rolls_on<H: Fn(&MerkleRoot, &BlockId) -> MerkleRoot>(
    h: H,
    from: MerkleRoot,
    ids: Seq<BlockId>,
    mid: MerkleRoot,
    id: BlockId,
    to: MerkleRoot,
)
    requires
        rolls_to(h, from, ids, mid),
        call_ensures(h, (&mid, &id), to),
    ensures
        rolls_to(h, from, ids.push(id), to),
{
    let roots = choose|roots: Seq<MerkleRoot>| #[trigger] rolls(h, ids, roots) && roots[0] == from && roots.last() == mid;
    let more = roots.push(to);
    let all = ids.push(id);
    assert forall|i: int| 0 <= i < all.len() implies call_ensures(h, (&more[i], &#[trigger] all[i]), more[i + 1]) by {
        if i < ids.len() {
            assert(call_ensures(h, (&roots[i], &ids[i]), roots[i + 1]));
        }
    }
    assert(rolls(h, all, more));
}

/// Where `append_root` is a function, ids roll a root to one root only.
pub proof fn rolling_root_is_unique<H: Fn(&MerkleRoot, &BlockId) -> MerkleRoot>(
    h: H,
    from: MerkleRoot,
    ids: Seq<BlockId>,
    a: MerkleRoot,
    b: MerkleRoot,
)
    requires
        deterministic(h),
        rolls_to(h, from, ids, a),
        rolls_to(h, from, ids, b),
    ensures
        a == b,
{
    let x = choose|roots: Seq<MerkleRoot>| #[trigger] rolls(h, ids, roots) && roots[0] == from && roots.last() == a;
    let y = choose|roots: Seq<MerkleRoot>| #[trigger] rolls(h, ids, roots) && roots[0] == from && roots.last() == b;
    lemma_same_rolls(h, ids, x, y, ids.len());
}

proof fn lemma_same_rolls<H: Fn(&MerkleRoot, &BlockId) -> MerkleRoot>(
    h: H,
    ids: Seq<BlockId>,
    x: Seq<MerkleRoot>,
    y: Seq<MerkleRoot>,
    n: nat,
)
    requires
        deterministic(h),
        rolls(h, ids, x),
        rolls(h, ids, y),
        x[0] == y[0],
        n <= ids.len(),
    ensures
        x[n as int] == y[n as int],
    decreases n,
{
    if n > 0 {
        lemma_same_rolls(h, ids, x, y, (n - 1) as nat);
        assert(call_ensures(h, (&x[n - 1], &ids[n - 1]), x[n as int]));
        assert(call_ensures(h, (&y[n - 1], &ids[n - 1]), y[n as int]));
    }
}

/// Every session's root is the rolling hash of its ids, in their order, from the zero root.
pub open spec fn rooted<H: Fn(&MerkleRoot, &BlockId) -> MerkleRoot>(h: H, logs: Map<u128, LogView>) -> bool {
    forall|s: u128| #[trigger] logs.contains_key(s) ==> rolls_to(h, ROOT_ZERO, logs[s].ids, logs[s].root)
}

/// The blocks with `block` kept under `id`; a block that is there already stays.
pub open spec fn stored<B>(blocks: Map<BlockId, B>, id: BlockId, block: B) -> Map<BlockId, B> {
    if blocks.contains_key(id) {
        blocks
    } else {
        blocks.insert(id, block)
    }
}

/// Store `b` is store `a` with `block` kept under `id` and logged for the session.
pub open spec fn inserted<B, H: Fn(&MerkleRoot, &BlockId) -> MerkleRoot>(
    h: H,
    a: StoreView<B>,
    session_id: u128,
    block: B,
    id: BlockId,
    b: StoreView<B>,
) -> bool {
    &&& b.blocks == stored(a.blocks, id, block)
    &&& logged(h, a.log(session_id), id, b.log(session_id))
    &&& b.logs == a.logs.insert(session_id, b.log(session_id))
}

/// Store `b` is store `a` with `id`, whose block is kept, logged for the session.
pub open spec fn referenced<B, H: Fn(&MerkleRoot, &BlockId) -> MerkleRoot>(
    h: H,
    a: StoreView<B>,
    session_id: u128,
    id: BlockId,
    b: StoreView<B>,
) -> bool {
    &&& a.blocks.contains_key(id)
    &&& b.blocks == a.blocks
    &&& logged(h, a.log(session_id), id, b.log(session_id))
    &&& b.logs == a.logs.insert(session_id, b.log(session_id))
}

/// The reason a reference is refused.
#[derive(Debug, PartialEq, Eq, Structural)]
pub enum StoreError {
    /// No block is kept under the id.
    UnknownBlock,
}

struct SessionLog {
    ids: Vec<BlockId>,
    root: MerkleRoot,
}

impl View for SessionLog {
    type V = LogView;

    closed spec fn view(&self) -> LogView {
        LogView { ids: self.ids@, root: self.root }
    }
}

/// Blocks by content address, and the session logs.
#[verifier::reject_recursive_types(B)]
pub struct ContentStore<B, H> {
    append_root: H,
    blocks: HashMap<u128, HashMap<u128, B>>,
    logs: HashMap<u128, SessionLog>,
}

impl<B, H> ContentStore<B, H> {
    spec fn holds(&self, id: BlockId) -> bool {
        &&& self.blocks@.contains_key(halves(id).0)
        &&& self.blocks@[halves(id).0]@.contains_key(halves(id).1)
    }

    /// The function that absorbs an id into a root.
    pub closed spec fn append_root_fn(&self) -> H {
        self.append_root
    }
}

impl<B, H> View for ContentStore<B, H> {
    type V = StoreView<B>;

    closed spec fn view(&self) -> StoreView<B> {
        StoreView {
            blocks: Map::new(
                |id: BlockId| self.holds(id),
                |id: BlockId| self.blocks@[halves(id).0]@[halves(id).1],
            ),
            logs: self.logs@.map_values(|l: SessionLog| l@),
        }
    }
}

impl<B, H: Fn(&MerkleRoot, &BlockId) -> MerkleRoot> ContentStore<B, H> {
    /// `append_root` is total and every root is the rolling hash of its log.
    pub open spec fn wf(&self) -> bool {
        &&& total(self.append_root_fn())
        &&& rooted(self.append_root_fn(), self@.logs)
    }

    /// An empty store.
    pub fn new(append_root: H) -> (store: Self)
        requires
            total(append_root),
        ensures
            store.wf(),
            store.append_root_fn() == append_root,
            store@.blocks == Map::<BlockId, B>::empty(),
            store@.logs == Map::<u128, LogView>::empty(),
    {
        let store = ContentStore { append_root, blocks: HashMap::new(), logs: HashMap::new() };
        assert(store@.blocks =~= Map::<BlockId, B>::empty());
        assert(store@.logs =~= Map::<u128, LogView>::empty());
        store
    }

    /// Absorbs an id into a root.
    pub fn absorb(&self, root: &MerkleRoot, id: &BlockId) -> (next: MerkleRoot)
        requires
            self.wf(),
        ensures
            call_ensures(self.append_root_fn(), (root, id), next),
    {
        (self.append_root)(root, id)
    }

    /// Whether a block is kept under the id.
    pub fn contains(&self, id: &BlockId) -> (there: bool)
        ensures
            there == self@.blocks.contains_key(*id),
    {
        let (lo, hi): (u128, u128) = split_id(id);
        match self.blocks.get(&lo) {
            Some(bucket) => bucket.contains_key(&hi),
            None => false,
        }
    }

    /// A copy of the block kept under the id.
    pub fn get(&self, id: &BlockId) -> (block: Option<B>) where B: Clone
        ensures
            match block {
                Some(b) => self@.blocks.contains_key(*id) && cloned(self@.blocks[*id], b),
                None => !self@.blocks.contains_key(*id),
            },
    {
        let (lo, hi): (u128, u128) = split_id(id);
        match self.blocks.get(&lo) {
            Some(bucket) => match bucket.get(&hi) {
                Some(b) => Some(b.clone()),
                None => None,
            },
            None => None,
        }
    }

    /// The rolling root of a session.
    pub fn session_root(&self, session_id: u128) -> (root: MerkleRoot)
        ensures
            root == self@.log(session_id).root,
    {
        match self.logs.get(&session_id) {
            Some(log) => log.root,
            None => ROOT_ZERO,
        }
    }

    /// The ids of a session in insertion order.
    pub fn session_log(&self, session_id: u128) -> (ids: Vec<BlockId>)
        ensures
            ids@ == self@.log(session_id).ids,
    {
        match self.logs.get(&session_id) {
            Some(log) => copy_ids(&log.ids),
            None => Vec::new(),
        }
    }

    fn append_log(&mut self, session_id: u128, id: BlockId)
        requires
            old(self).wf(),
        ensures
            final(self).wf(),
            final(self).append_root_fn() == old(self).append_root_fn(),
            final(self)@.blocks == old(self)@.blocks,
            logged(old(self).append_root_fn(), old(self)@.log(session_id), id, final(self)@.log(session_id)),
            final(self)@.logs == old(self)@.logs.insert(session_id, final(self)@.log(session_id)),
    {
        let ghost before = self@;
        let ghost h = self.append_root;
        let (mut ids, root): (Vec<BlockId>, MerkleRoot) = match self.logs.remove(&session_id) {
            Some(log) => (log.ids, log.root),
            None => (Vec::new(), ROOT_ZERO),
        };
        assert(ids@ == before.log(session_id).ids);
        let next: MerkleRoot = (self.append_root)(&root, &id);
        ids.push(id);
        self.logs.insert(session_id, SessionLog { ids, root: next });
        proof {
            assert(self@.blocks =~= before.blocks);
            assert(self@.logs =~= before.logs.insert(session_id, self@.log(session_id)));
            assert forall|s: u128| #[trigger] self@.logs.contains_key(s) implies rolls_to(h, ROOT_ZERO, self@.logs[s].ids, self@.logs[s].root) by {
                if s == session_id {
                    if !before.logs.contains_key(s) {
                        lemma_rolls_nowhere(h, ROOT_ZERO);
                    }
                    lemma_rolls_on(h, ROOT_ZERO, before.log(s).ids, before.log(s).root, id, next);
                } else {
                    assert(before.logs.contains_key(s));
                }
            }
        }
    }

    /// Keeps a block under its id and appends the id to the session's log.
    pub fn insert_with_id(&mut self, session_id: u128, block: B, id: BlockId)
        requires
            old(self).wf(),
        ensures
            final(self).wf(),
            final(self).append_root_fn() == old(self).append_root_fn(),
            inserted(old(self).append_root_fn(), old(self)@, session_id, block, id, final(self)@),
    {
        let ghost before = self@;
        if !self.contains(&id) {
            let (lo, hi): (u128, u128) = split_id(&id);
            let mut bucket: HashMap<u128, B> = match self.blocks.remove(&lo) {
                Some(bucket) => bucket,
                None => HashMap::new(),
            };
            bucket.insert(hi, block);
            self.blocks.insert(lo, bucket);
            proof {
                assert forall|other: BlockId| other != id implies halves(other) != (lo, hi) by {
                    if halves(other) == (lo, hi) {
                        lemma_halves_injective(other, id);
                    }
                }
                assert(self@.blocks =~= before.blocks.insert(id, block));
                assert(self@.logs =~= before.logs);
            }
        }
        self.append_log(session_id, id);
    }

    /// Appends the id of a block that is kept already to the session's log.
    pub fn reference(&mut self, session_id: u128, id: BlockId) -> (done: Result<(), StoreError>)
        requires
            old(self).wf(),
        ensures
            final(self).wf(),
            final(self).append_root_fn() == old(self).append_root_fn(),
            match done {
                Ok(_) => referenced(old(self).append_root_fn(), old(self)@, session_id, id, final(self)@),
                Err(_) => !old(self)@.blocks.contains_key(id) && final(self)@ == old(self)@,
            },
    {
        if !self.contains(&id) {
            return Err(StoreError::UnknownBlock);
        }
        self.append_log(session_id, id);
        Ok(())
    }
}

/// A session that was never written to has no ids and the zero root; another has what was
/// written.
pub proof fn unwritten_log_is_empty<B>(a: StoreView<B>, session_id: u128)
    ensures
        a.logs.contains_key(session_id) ==> a.log(session_id) == a.logs[session_id],
        !a.logs.contains_key(session_id) ==> a.log(session_id).ids.len() == 0,
        !a.logs.contains_key(session_id) ==> forall|i: int|
            0 <= i < 32 ==> #[trigger] a.log(session_id).root@[i] == 0,
{
}

/// One more id in a session's log: it stands behind the ids that were there, the root has
/// absorbed it, and no other session's log has changed.
pub proof fn log_grows_by_one_id<B, H: Fn(&MerkleRoot, &BlockId) -> MerkleRoot>(
    h: H,
    a: StoreView<B>,
    session_id: u128,
    block: B,
    id: BlockId,
    b: StoreView<B>,
)
    requires
        inserted(h, a, session_id, block, id, b) || referenced(h, a, session_id, id, b),
    ensures
        b.logs.dom() == a.logs.dom().insert(session_id),
        a.logs.contains_key(session_id) ==> {
            &&& b.logs[session_id].ids == a.logs[session_id].ids + seq![id]
            &&& call_ensures(h, (&a.logs[session_id].root, &id), b.logs[session_id].root)
        },
        !a.logs.contains_key(session_id) ==> {
            &&& b.logs[session_id].ids == seq![id]
            &&& call_ensures(h, (&ROOT_ZERO, &id), b.logs[session_id].root)
        },
        forall|other: u128|
            other != session_id && #[trigger] a.logs.contains_key(other) ==> b.logs[other] == a.logs[other],
{
    assert(b.logs.contains_key(session_id));
    if a.logs.contains_key(session_id) {
        assert(b.logs[session_id].ids =~= a.logs[session_id].ids + seq![id]);
    } else {
        assert(b.logs[session_id].ids =~= seq![id]);
    }
    assert(b.logs.dom() =~= a.logs.dom().insert(session_id));
}

/// An inserted block is under its id afterwards unless another was there before, which
/// stays; no other id gains, loses or changes its block.
pub proof fn insert_keeps_the_first_block<B, H: Fn(&MerkleRoot, &BlockId) -> MerkleRoot>(
    h: H,
    a: StoreView<B>,
    session_id: u128,
    block: B,
    id: BlockId,
    b: StoreView<B>,
)
    requires
        inserted(h, a, session_id, block, id, b),
    ensures
        b.blocks.dom() == a.blocks.dom().insert(id),
        !a.blocks.contains_key(id) ==> b.blocks[id] == block,
        forall|other: BlockId| #[trigger] a.blocks.contains_key(other) ==> b.blocks[other] == a.blocks[other],
{
    assert(b.blocks.dom() =~= a.blocks.dom().insert(id));
}

/// A reference is to a block that is there, and leaves the blocks as they are.
pub proof fn reference_adds_no_block<B, H: Fn(&MerkleRoot, &BlockId) -> MerkleRoot>(
    h: H,
    a: StoreView<B>,
    session_id: u128,
    id: BlockId,
    b: StoreView<B>,
)
    requires
        referenced(h, a, session_id, id, b),
    ensures
        a.blocks.contains_key(id),
        b.blocks == a.blocks,
{
}

/// A rolling root absorbs every id, in its order: ids in two parts roll a root through
/// the root between the parts, no ids leave it as it is, and one id is absorbed once.
pub proof fn rolling_splits_anywhere<H: Fn(&MerkleRoot, &BlockId) -> MerkleRoot>(
    h: H,
    from: MerkleRoot,
    ids: Seq<BlockId>,
    to: MerkleRoot,
    m: int,
)
    requires
        rolls_to(h, from, ids, to),
        0 <= m <= ids.len(),
    ensures
        exists|mid: MerkleRoot|
            #[trigger] rolls_to(h, from, ids.take(m), mid) && rolls_to(h, mid, ids.skip(m), to),
        ids.len() == 0 ==> to == from,
        ids.len() == 1 ==> call_ensures(h, (&from, &ids[0]), to),
{
    let roots = choose|roots: Seq<MerkleRoot>| #[trigger] rolls(h, ids, roots) && roots[0] == from && roots.last() == to;
    let x = ids.take(m);
    let y = ids.skip(m);
    let xs = roots.take(m + 1);
    let ys = roots.skip(m);
    assert forall|i: int| 0 <= i < x.len() implies call_ensures(h, (&xs[i], &#[trigger] x[i]), xs[i + 1]) by {
        assert(call_ensures(h, (&roots[i], &ids[i]), roots[i + 1]));
    }
    assert forall|i: int| 0 <= i < y.len() implies call_ensures(h, (&ys[i], &#[trigger] y[i]), ys[i + 1]) by {
        assert(call_ensures(h, (&roots[m + i], &ids[m + i]), roots[m + i + 1]));
    }
    assert(rolls(h, x, xs));
    assert(rolls(h, y, ys));
    assert(rolls_to(h, from, x, roots[m]));
    assert(rolls_to(h, roots[m], y, to));
    if ids.len() == 1 {
        assert(call_ensures(h, (&roots[0], &ids[0]), roots[1]));
    }
}

} // verus!
