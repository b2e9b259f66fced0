//! The write-ahead log of the content store.
//!
//! A record is the session id (16 bytes), a variant byte (0 for an insert, 1 for a
//! reference), the payload length (4 bytes) and the payload, all little-endian. The
//! payload of an insert is the block's canonical encoding, that of a reference the
//! block's id. Replay runs the records again in their order, so that session logs and
//! roots come back as they were.
use vstd::arithmetic::power::pow;
use vstd::prelude::*;
use vstd::slice::slice_subrange;

use crate::bytes::{le_bytes, le_value, lemma_le_bytes_len, lemma_le_value_bound, lemma_le_value_of_bytes,
    lemma_pow256_values, number_bytes_by_place, read_le, to_id, write_le, BlockId, MerkleRoot};
use crate::store::{deterministic, inserted, referenced, ContentStore, StoreView};

verus! {

/// The variant byte of an insert.
pub const VAR_INSERT: u8 = 0;

/// The variant byte of a reference.
pub const VAR_REFERENCE: u8 = 1;

/// The length of a record's header.
pub const HEADER: usize = 21;

/// One record of the log.
pub struct Record {
    pub session_id: u128,
    pub variant: u8,
    pub payload: Seq<u8>,
}

impl Record {
    /// The record's payload length fits its length field.
    pub open spec fn fits(self) -> bool {
        self.payload.len() < 0x1_0000_0000
    }

    /// The record as it stands in the log.
    pub open spec fn bytes(self) -> Seq<u8> {
        le_bytes(self.session_id as nat, 16) + seq![self.variant] + le_bytes(self.payload.len(), 4) + self.payload
    }
}

/// The payload length that a header names.
pub open spec fn payload_len(log: Seq<u8>) -> nat {
    le_value(log.subrange(17, 21))
}

/// The log starts with a complete record.
pub open spec fn has_record(log: Seq<u8>) -> bool {
    log.len() >= 21 && log.len() >= 21 + payload_len(log)
}

/// The record that the log starts with.
pub open spec fn first_record(log: Seq<u8>) -> Record {
    Record {
        session_id: le_value(log.subrange(0, 16)) as u128,
        variant: log[16],
        payload: log.subrange(21, 21 + payload_len(log) as int),
    }
}

/// The log after its first record.
pub open spec fn rest(log: Seq<u8>) -> Seq<u8> {
    log.skip(21 + payload_len(log) as int)
}

/// The complete records of a log; an incomplete one at its end is left out.
pub open spec fn records(log: Seq<u8>) -> Seq<Record>
    decreases log.len(),
{
    if has_record(log) {
        seq![first_record(log)] + records(rest(log))
    } else {
        Seq::empty()
    }
}

/// The length of the part of a log that is complete records.
pub open spec fn complete_len(log: Seq<u8>) -> nat
    decreases log.len(),
{
    if has_record(log) {
        21 + payload_len(log) + complete_len(rest(log))
    } else {
        0
    }
}

/// The id that 32 bytes stand for.
pub open spec fn id_from(s: Seq<u8>) -> BlockId {
    choose|id: BlockId| id@ == s
}

/// Store `b` is store `a` after record `r`: an insert whose payload does not parse, a
/// reference that is not an id or whose block is not kept, and an unknown variant change
/// nothing.
pub open spec fn applied<B, H: Fn(&MerkleRoot, &BlockId) -> MerkleRoot, P: Fn(&[u8]) -> Result<(B, BlockId), String>>(
    h: H,
    parse: P,
    a: StoreView<B>,
    r: Record,
    b: StoreView<B>,
) -> bool {
    if r.variant == VAR_INSERT {
        exists|s: &[u8], out: Result<(B, BlockId), String>|
            {
                &&& s@ == r.payload
                &&& #[trigger] call_ensures(parse, (s,), out)
                &&& match out {
                    Ok(parsed) => inserted(h, a, r.session_id, parsed.0, parsed.1, b),
                    Err(_) => b == a,
                }
            }
    } else if r.variant == VAR_REFERENCE && r.payload.len() == 32 && a.blocks.contains_key(id_from(r.payload)) {
        referenced(h, a, r.session_id, id_from(r.payload), b)
    } else {
        b == a
    }
}

/// `states` are the stores that the records `rs` lead through.
pub open spec fn replayed<B, H: Fn(&MerkleRoot, &BlockId) -> MerkleRoot, P: Fn(&[u8]) -> Result<(B, BlockId), String>>(
    h: H,
    parse: P,
    rs: Seq<Record>,
    states: Seq<StoreView<B>>,
) -> bool {
    &&& states.len() == rs.len() + 1
    &&& forall|i: int| 0 <= i < rs.len() ==> applied(h, parse, states[i], #[trigger] rs[i], states[i + 1])
}

/// The append side of the log: records that are encoded and wait to be written out.
pub struct Wal {
    tail: Vec<u8>,
}

impl View for Wal {
    type V = Seq<u8>;

    closed spec fn view(&self) -> Seq<u8> {
        self.tail@
    }
}

impl Wal {
    /// A log with nothing waiting.
    pub fn new() -> (wal: Self)
        ensures
            wal@ == Seq::<u8>::empty(),
    {
        Wal { tail: Vec::new() }
    }

    fn append_header(&mut self, session_id: u128, variant: u8, len: usize)
        ensures
            final(self)@ == old(self)@ + (le_bytes(session_id as nat, 16) + seq![variant] + le_bytes(len as nat, 4)),
    {
        let ghost before = self.tail@;
        write_le(&mut self.tail, session_id, 16);
        self.tail.push(variant);
        write_le(&mut self.tail, len as u128, 4);
        assert(self.tail@ =~= before + (le_bytes(session_id as nat, 16) + seq![variant] + le_bytes(len as nat, 4)));
    }

    fn append_payload(&mut self, payload: &[u8])
        ensures
            final(self)@ == old(self)@ + payload@,
    {
        let ghost before = self.tail@;
        self.tail.extend_from_slice(payload);
        assert(self.tail@ =~= before + payload@);
    }

    /// Appends an insert record. `canonical` is the block's canonical encoding; of its
    /// length the record keeps the low 32 bits.
    pub fn append_insert(&mut self, session_id: u128, canonical: &[u8])
        ensures
            final(self)@ == old(self)@ + (Record { session_id, variant: VAR_INSERT, payload: canonical@ }).bytes(),
    {
        let ghost before = self@;
        self.append_header(session_id, VAR_INSERT, canonical.len());
        self.append_payload(canonical);
        assert(self@ =~= before + (Record { session_id, variant: VAR_INSERT, payload: canonical@ }).bytes());
    }

    /// Appends a reference record: the block is kept already, only the session's log grows.
    pub fn append_reference(&mut self, session_id: u128, id: BlockId)
        ensures
            final(self)@ == old(self)@ + (Record { session_id, variant: VAR_REFERENCE, payload: id@ }).bytes(),
    {
        let ghost before = self@;
        self.append_header(session_id, VAR_REFERENCE, 32);
        self.append_payload(vstd::array::array_as_slice(&id));
        assert(self@ =~= before + (Record { session_id, variant: VAR_REFERENCE, payload: id@ }).bytes());
    }

    /// Hands over what waits to be written out.
    pub fn take(&mut self) -> (bytes: Vec<u8>)
        ensures
            bytes@ == old(self)@,
            final(self)@ == Seq::<u8>::empty(),
    {
        let mut bytes: Vec<u8> = Vec::new();
        std::mem::swap(&mut bytes, &mut self.tail);
        bytes
    }
}

/// Reads exactly `n` bytes of `log` from `at` on, or nothing where the log ends before.
pub fn read_exact<'a>(log: &'a [u8], at: usize, n: usize) -> (got: Option<&'a [u8]>)
    requires
        at <= log@.len(),
    ensures
        match got {
            Some(s) => at + n <= log@.len() && s@ == log@.subrange(at as int, at + n),
            None => at + n > log@.len(),
        },
{
    if n <= log.len() - at {
        Some(slice_subrange(log, at, at + n))
    } else {
        None
    }
}

/// Runs the complete records of a log on a store, in their order, and returns where the
/// last one ends: a crash in the middle of an append leaves an incomplete record there,
/// and the next append belongs in its place.
pub fn replay<B, H, P>(log: &[u8], store: &mut ContentStore<B, H>, parse: &P) -> (end: usize) where
    H: Fn(&MerkleRoot, &BlockId) -> MerkleRoot,
    P: Fn(&[u8]) -> Result<(B, BlockId), String>,

    requires
        old(store).wf(),
        forall|s: &[u8]| call_requires(*parse, (s,)),
    ensures
        final(store).wf(),
        final(store).append_root_fn() == old(store).append_root_fn(),
        end == complete_len(log@),
        exists|states: Seq<StoreView<B>>|
            {
                &&& #[trigger] replayed(old(store).append_root_fn(), *parse, records(log@), states)
                &&& states[0] == old(store)@
                &&& states.last() == final(store)@
            },
{
    let ghost h = store.append_root_fn();
    let ghost mut states: Seq<StoreView<B>> = seq![store@];
    let ghost mut done: Seq<Record> = Seq::empty();
    let total: usize = log.len();
    let mut at: usize = 0;
    assert(log@.skip(0) =~= log@);
    assert(done + records(log@) =~= records(log@));
    loop
        invariant_except_break
            forall|s: &[u8]| call_requires(*parse, (s,)),
        invariant
            store.wf(),
            store.append_root_fn() == h,
            total == log@.len(),
            at <= total,
            at + complete_len(log@.skip(at as int)) == complete_len(log@),
            done + records(log@.skip(at as int)) == records(log@),
            replayed(h, *parse, done, states),
            states[0] == old(store)@,
            states.last() == store@,
        ensures
            !has_record(log@.skip(at as int)),
        decreases total - at,
    {
        let ghost here = log@.skip(at as int);
        let hdr: &[u8] = match read_exact(log, at, HEADER) {
            Some(hdr) => hdr,
            None => {
                break;
            },
        };
        let session_id: u128 = read_le(slice_subrange(hdr, 0, 16));
        let variant: u8 = hdr[16];
        let len128: u128 = read_le(slice_subrange(hdr, 17, 21));
        assert(hdr@.subrange(0, 16) =~= here.subrange(0, 16));
        assert(hdr@.subrange(17, 21) =~= here.subrange(17, 21));
        proof {
            lemma_le_value_bound(here.subrange(17, 21));
            lemma_pow256_values();
        }
        let len: usize = len128 as usize;
        let payload: &[u8] = match read_exact(log, at + HEADER, len) {
            Some(payload) => payload,
            None => {
                break;
            },
        };
        let ghost r = first_record(here);
        assert(payload@ =~= r.payload);
        let ghost before = store@;
        if variant == VAR_INSERT {
            match parse(payload) {
                Ok(parsed) => {
                    store.insert_with_id(session_id, parsed.0, parsed.1);
                },
                Err(_) => {},
            }
        } else if variant == VAR_REFERENCE {
            if payload.len() == 32 {
                let id: BlockId = to_id(payload);
                assert(id =~= id_from(r.payload));
                let _ = store.reference(session_id, id);
            }
        }
        assert(applied(h, *parse, before, r, store@));
        proof {
            let more = done.push(r);
            let longer = states.push(store@);
            assert forall|i: int| 0 <= i < more.len() implies applied(h, *parse, longer[i], #[trigger] more[i], longer[i + 1]) by {
                if i < done.len() {
                    assert(applied(h, *parse, states[i], done[i], states[i + 1]));
                }
            }
            assert(rest(here) =~= log@.skip(at + 21 + len));
            assert(more + records(rest(here)) =~= done + records(here));
            done = more;
            states = longer;
        }
        at = at + HEADER + len;
    }
    assert(done + records(log@.skip(at as int)) =~= done);
    at
}

// ---------------------------------------------------------------------------
// What replay gives back
// ---------------------------------------------------------------------------

/// A log that is complete records from end to end.
pub open spec fn complete(log: Seq<u8>) -> bool {
    complete_len(log) == log.len()
}

proof fn lemma_record_bytes(r: Record)
    ensures
        r.bytes().len() == 21 + r.payload.len(),
        r.bytes().subrange(0, 16) == le_bytes(r.session_id as nat, 16),
        r.bytes()[16] == r.variant,
        r.bytes().subrange(17, 21) == le_bytes(r.payload.len(), 4),
        r.bytes().skip(21) == r.payload,
{
    lemma_le_bytes_len(r.session_id as nat, 16);
    lemma_le_bytes_len(r.payload.len(), 4);
    let b = r.bytes();
    assert(b.subrange(0, 16) =~= le_bytes(r.session_id as nat, 16));
    assert(b.subrange(17, 21) =~= le_bytes(r.payload.len(), 4));
    assert(b.skip(21) =~= r.payload);
}

/// A record at the start of a log is read back as it was written.
proof fn lemma_first_record(r: Record, tail: Seq<u8>)
    requires
        r.fits(),
    ensures
        has_record(r.bytes() + tail),
        first_record(r.bytes() + tail) == r,
        rest(r.bytes() + tail) == tail,
        21 + payload_len(r.bytes() + tail) == r.bytes().len(),
{
    let b = r.bytes();
    let log = b + tail;
    lemma_record_bytes(r);
    lemma_pow256_values();
    lemma_le_value_of_bytes(r.session_id as nat, 16);
    lemma_le_value_of_bytes(r.payload.len(), 4);
    assert(log.subrange(0, 16) =~= b.subrange(0, 16));
    assert(log.subrange(17, 21) =~= b.subrange(17, 21));
    assert(log.subrange(21, 21 + r.payload.len() as int) =~= r.payload);
    assert(log.skip(21 + r.payload.len() as int) =~= tail);
}

/// Complete records in front stay what they are, whatever follows them.
proof fn lemma_records_split(log: Seq<u8>, tail: Seq<u8>)
    requires
        complete(log),
    ensures
        records(log + tail) == records(log) + records(tail),
        complete_len(log + tail) == log.len() + complete_len(tail),
    decreases log.len(),
{
    if has_record(log) {
        let all = log + tail;
        assert(all.subrange(17, 21) =~= log.subrange(17, 21));
        assert(all.subrange(0, 16) =~= log.subrange(0, 16));
        assert(first_record(all).payload =~= first_record(log).payload);
        assert(rest(all) =~= rest(log) + tail);
        lemma_records_split(rest(log), tail);
        assert(records(all) =~= records(log) + records(tail));
    } else {
        assert(log =~= Seq::<u8>::empty());
        assert(log + tail =~= tail);
        assert(records(log) + records(tail) =~= records(tail));
    }
}

/// A record appended to complete records is read back after them, as it was written.
pub proof fn appended_record_is_read_back(log: Seq<u8>, r: Record)
    requires
        complete(log),
        r.fits(),
    ensures
        records(log + r.bytes()) == records(log).push(r),
        complete(log + r.bytes()),
{
    let none = Seq::<u8>::empty();
    lemma_records_split(log, r.bytes());
    lemma_first_record(r, none);
    assert(r.bytes() + none =~= r.bytes());
    assert(records(none) =~= Seq::empty());
    assert(complete_len(none) == 0);
    assert(complete_len(r.bytes()) == r.bytes().len());
    assert(records(r.bytes()) =~= seq![r]);
    assert(records(log + r.bytes()) =~= records(log).push(r));
}

/// The log that holds the records `rs` and nothing else.
pub open spec fn written(rs: Seq<Record>) -> Seq<u8>
    decreases rs.len(),
{
    if rs.len() == 0 {
        Seq::empty()
    } else {
        written(rs.drop_last()) + rs.last().bytes()
    }
}

/// Replay reads back the records that were written, in their order.
pub proof fn written_records_are_read_back(rs: Seq<Record>)
    requires
        forall|i: int| 0 <= i < rs.len() ==> (#[trigger] rs[i]).fits(),
    ensures
        records(written(rs)) == rs,
        complete(written(rs)),
    decreases rs.len(),
{
    if rs.len() > 0 {
        let head = rs.drop_last();
        assert forall|i: int| 0 <= i < head.len() implies (#[trigger] head[i]).fits() by {
            assert(rs[i].fits());
        }
        written_records_are_read_back(head);
        assert(rs[rs.len() - 1].fits());
        appended_record_is_read_back(written(head), rs.last());
        assert(head.push(rs.last()) =~= rs);
    } else {
        assert(records(written(rs)) =~= rs);
    }
}

/// An append that a crash cut short leaves the records before it as they were.
pub proof fn truncated_append_is_left_out(log: Seq<u8>, r: Record, cut: int)
    requires
        complete(log),
        r.fits(),
        0 <= cut < r.bytes().len(),
    ensures
        records(log + r.bytes().take(cut)) == records(log),
        complete_len(log + r.bytes().take(cut)) == log.len(),
{
    let part = r.bytes().take(cut);
    lemma_record_bytes(r);
    lemma_pow256_values();
    lemma_le_value_of_bytes(r.payload.len(), 4);
    if part.len() >= 21 {
        assert(part.subrange(17, 21) =~= r.bytes().subrange(17, 21));
    }
    assert(!has_record(part));
    lemma_records_split(log, part);
    assert(records(log) + records(part) =~= records(log));
}

/// Cut back to where its last complete record ends, a log keeps its records and is
/// complete: the next append goes there.
pub proof fn log_resumes_after_complete_records(log: Seq<u8>)
    ensures
        complete_len(log) <= log.len(),
        complete(log.take(complete_len(log) as int)),
        records(log.take(complete_len(log) as int)) == records(log),
    decreases log.len(),
{
    if has_record(log) {
        log_resumes_after_complete_records(rest(log));
        let n = complete_len(log) as int;
        let kept = log.take(n);
        assert(kept.subrange(17, 21) =~= log.subrange(17, 21));
        assert(kept.subrange(0, 16) =~= log.subrange(0, 16));
        assert(first_record(kept).payload =~= first_record(log).payload);
        assert(rest(kept) =~= rest(log).take(complete_len(rest(log)) as int));
        assert(records(kept) =~= records(log));
    } else {
        assert(!has_record(log.take(0)));
    }
}

/// Inserting a block does to the store what replaying its insert record does, if the
/// record holds an encoding that parses to that block and id.
pub proof fn live_insert_is_its_record<
    B,
    H: Fn(&MerkleRoot, &BlockId) -> MerkleRoot,
    P: Fn(&[u8]) -> Result<(B, BlockId), String>,
>(h: H, parse: P, a: StoreView<B>, session_id: u128, canonical: &[u8], block: B, id: BlockId, b: StoreView<B>)
    requires
        call_ensures(parse, (canonical,), Ok((block, id))),
        inserted(h, a, session_id, block, id, b),
    ensures
        applied(h, parse, a, Record { session_id, variant: VAR_INSERT, payload: canonical@ }, b),
{
}

/// Referencing a block does to the store what replaying its reference record does.
pub proof fn live_reference_is_its_record<
    B,
    H: Fn(&MerkleRoot, &BlockId) -> MerkleRoot,
    P: Fn(&[u8]) -> Result<(B, BlockId), String>,
>(h: H, parse: P, a: StoreView<B>, session_id: u128, id: BlockId, b: StoreView<B>)
    requires
        referenced(h, a, session_id, id, b),
    ensures
        applied(h, parse, a, Record { session_id, variant: VAR_REFERENCE, payload: id@ }, b),
{
    assert(id_from(id@) =~= id);
}

/// `parse` gives one result for the same bytes.
pub open spec fn parses_one_way<B, P: Fn(&[u8]) -> Result<(B, BlockId), String>>(parse: P) -> bool {
    forall|s: &[u8], x: Result<(B, BlockId), String>, y: Result<(B, BlockId), String>|
        #[trigger] call_ensures(parse, (s,), x) && #[trigger] call_ensures(parse, (s,), y) ==> x == y
}

proof fn lemma_applied_one_way<B, H: Fn(&MerkleRoot, &BlockId) -> MerkleRoot, P: Fn(&[u8]) -> Result<(B, BlockId), String>>(
    h: H,
    parse: P,
    a: StoreView<B>,
    r: Record,
    x: StoreView<B>,
    y: StoreView<B>,
)
    requires
        deterministic(h),
        parses_one_way(parse),
        applied(h, parse, a, r, x),
        applied(h, parse, a, r, y),
    ensures
        x == y,
{
    if r.variant == VAR_INSERT {
        let (s, out) = choose|s: &[u8], out: Result<(B, BlockId), String>|
            {
                &&& s@ == r.payload
                &&& #[trigger] call_ensures(parse, (s,), out)
                &&& match out {
                    Ok(parsed) => inserted(h, a, r.session_id, parsed.0, parsed.1, x),
                    Err(_) => x == a,
                }
            };
        let (t, out2) = choose|s: &[u8], out: Result<(B, BlockId), String>|
            {
                &&& s@ == r.payload
                &&& #[trigger] call_ensures(parse, (s,), out)
                &&& match out {
                    Ok(parsed) => inserted(h, a, r.session_id, parsed.0, parsed.1, y),
                    Err(_) => y == a,
                }
            };
        assert(s =~= t);
        assert(out == out2);
    }
    assert(x.blocks == y.blocks);
    assert(x.logs == y.logs);
}

/// Replaying records on the same store always leads to the same store: blocks, session
/// logs and roots rebuild identically.
pub proof fn replay_rebuilds_identically<
    B,
    H: Fn(&MerkleRoot, &BlockId) -> MerkleRoot,
    P: Fn(&[u8]) -> Result<(B, BlockId), String>,
>(h: H, parse: P, rs: Seq<Record>, xs: Seq<StoreView<B>>, ys: Seq<StoreView<B>>)
    requires
        deterministic(h),
        parses_one_way(parse),
        replayed(h, parse, rs, xs),
        replayed(h, parse, rs, ys),
        xs[0] == ys[0],
    ensures
        xs.last() == ys.last(),
    decreases rs.len(),
{
    if rs.len() > 0 {
        let n = rs.len() as int;
        let head = rs.drop_last();
        let x = xs.drop_last();
        let y = ys.drop_last();
        assert forall|i: int| 0 <= i < head.len() implies applied(h, parse, x[i], #[trigger] head[i], x[i + 1]) by {
            assert(applied(h, parse, xs[i], rs[i], xs[i + 1]));
        }
        assert forall|i: int| 0 <= i < head.len() implies applied(h, parse, y[i], #[trigger] head[i], y[i + 1]) by {
            assert(applied(h, parse, ys[i], rs[i], ys[i + 1]));
        }
        replay_rebuilds_identically(h, parse, head, x, y);
        assert(applied(h, parse, xs[n - 1], rs[n - 1], xs[n]));
        assert(applied(h, parse, ys[n - 1], rs[n - 1], ys[n]));
        lemma_applied_one_way(h, parse, xs[n - 1], rs[n - 1], xs[n], ys[n]);
    }
}

/// Durability: where every operation on the store wrote its record, replaying the log on
/// the store that it started from gives the store as it was left.
pub proof fn replay_rebuilds_the_live_store<
    B,
    H: Fn(&MerkleRoot, &BlockId) -> MerkleRoot,
    P: Fn(&[u8]) -> Result<(B, BlockId), String>,
>(h: H, parse: P, rs: Seq<Record>, live: Seq<StoreView<B>>, back: Seq<StoreView<B>>)
    requires
        deterministic(h),
        parses_one_way(parse),
        forall|i: int| 0 <= i < rs.len() ==> (#[trigger] rs[i]).fits(),
        replayed(h, parse, rs, live),
        replayed(h, parse, records(written(rs)), back),
        back[0] == live[0],
    ensures
        back.last() == live.last(),
{
    written_records_are_read_back(rs);
    replay_rebuilds_identically(h, parse, rs, live, back);
}

/// The layout of a record, byte by byte: 16 of the session id, the variant, 4 of the
/// payload's length, both numbers with their least byte first, and then the payload.
pub proof fn record_layout(r: Record, i: int)
    ensures
        r.bytes().len() == 21 + r.payload.len(),
        0 <= i < 16 ==> r.bytes()[i] as int == (r.session_id as int / pow(256, i as nat)) % 256,
        r.bytes()[16] == r.variant,
        0 <= i < 4 ==> r.bytes()[17 + i] as int == (r.payload.len() as int / pow(256, i as nat)) % 256,
        0 <= i < r.payload.len() ==> r.bytes()[21 + i] == r.payload[i],
{
    lemma_record_bytes(r);
    let b = r.bytes();
    if 0 <= i < 16 {
        number_bytes_by_place(r.session_id as nat, 16, i as nat);
        assert(b[i] == b.subrange(0, 16)[i]);
    }
    if 0 <= i < 4 {
        number_bytes_by_place(r.payload.len(), 4, i as nat);
        assert(b[17 + i] == b.subrange(17, 21)[i]);
    }
    if 0 <= i < r.payload.len() {
        assert(b[21 + i] == b.skip(21)[i]);
    }
}

/// The number that the four bytes of a length field stand for.
pub open spec fn named_length(a: u8, b: u8, c: u8, d: u8) -> int {
    a as int + 0x100 * b + 0x1_0000 * c + 0x100_0000 * d
}

/// Whatever follows the written records and does not hold a whole header and the payload
/// that the header names is left out; the records before it are read as they were written.
pub proof fn torn_tail_is_left_out(rs: Seq<Record>, tail: Seq<u8>)
    requires
        forall|i: int| 0 <= i < rs.len() ==> (#[trigger] rs[i]).fits(),
        tail.len() < 21 || tail.len() < 21 + named_length(tail[17], tail[18], tail[19], tail[20]),
    ensures
        records(written(rs) + tail) == rs,
        complete_len(written(rs) + tail) == written(rs).len(),
{
    written_records_are_read_back(rs);
    lemma_records_split(written(rs), tail);
    if tail.len() >= 21 {
        lemma_length_field(tail);
    }
    assert(!has_record(tail));
    assert(records(tail) =~= Seq::empty());
    assert(rs + records(tail) =~= rs);
}

proof fn lemma_length_field(log: Seq<u8>)
    requires
        log.len() >= 21,
    ensures
        payload_len(log) == named_length(log[17], log[18], log[19], log[20]),
{
    let f = log.subrange(17, 21);
    reveal_with_fuel(le_value, 5);
    assert(f.drop_first().drop_first().drop_first().drop_first() =~= Seq::<u8>::empty());
    assert(f[0] == log[17] && f[1] == log[18] && f[2] == log[19] && f[3] == log[20]);
}

/// What a record does when it is run again. An insert is inserted for its session under
/// the id that the parser derives, unless its payload does not parse; a reference is to
/// the block whose id its payload is, if that block is kept; anything else does nothing.
pub proof fn record_does_what_it_says<B, H: Fn(&MerkleRoot, &BlockId) -> MerkleRoot, P: Fn(&[u8]) -> Result<(B, BlockId), String>>(
    h: H,
    parse: P,
    a: StoreView<B>,
    r: Record,
    b: StoreView<B>,
    id: BlockId,
)
    requires
        applied(h, parse, a, r, b),
    ensures
        r.variant == 0 ==> {
            ||| exists|s: &[u8], e: String| s@ == r.payload && #[trigger] call_ensures(parse, (s,), Err(e)) && b == a
            ||| exists|s: &[u8], block: B, own: BlockId|
                {
                    &&& s@ == r.payload
                    &&& #[trigger] call_ensures(parse, (s,), Ok((block, own)))
                    &&& inserted(h, a, r.session_id, block, own, b)
                }
        },
        r.variant == 1 && id@ == r.payload && a.blocks.contains_key(id) ==> referenced(h, a, r.session_id, id, b),
        r.variant == 1 && id@ == r.payload && !a.blocks.contains_key(id) ==> b == a,
        r.variant == 1 && r.payload.len() != 32 ==> b == a,
        r.variant > 1 ==> b == a,
{
    if r.variant == 0 {
        let (s, out) = choose|s: &[u8], out: Result<(B, BlockId), String>|
            {
                &&& s@ == r.payload
                &&& #[trigger] call_ensures(parse, (s,), out)
                &&& match out {
                    Ok(parsed) => inserted(h, a, r.session_id, parsed.0, parsed.1, b),
                    Err(_) => b == a,
                }
            };
        match out {
            Ok(parsed) => {
                assert(call_ensures(parse, (s,), Ok((parsed.0, parsed.1))));
            },
            Err(e) => {
                assert(call_ensures(parse, (s,), Err(e)));
            },
        }
    }
    if id@ == r.payload {
        assert(id_from(r.payload) =~= id);
    }
}

/// Replay runs every record, each on the store that the one before it left.
pub proof fn replay_runs_every_record<B, H: Fn(&MerkleRoot, &BlockId) -> MerkleRoot, P: Fn(&[u8]) -> Result<(B, BlockId), String>>(
    h: H,
    parse: P,
    rs: Seq<Record>,
    states: Seq<StoreView<B>>,
    m: int,
)
    requires
        replayed(h, parse, rs, states),
        0 <= m <= rs.len(),
    ensures
        states.len() == rs.len() + 1,
        m < rs.len() ==> applied(h, parse, states[m], rs[m], states[m + 1]),
        replayed(h, parse, rs.take(m), states.take(m + 1)),
        replayed(h, parse, rs.skip(m), states.skip(m)),
{
    if m < rs.len() {
        assert(applied(h, parse, states[m], rs[m], states[m + 1]));
    }
    let x = rs.take(m);
    let y = rs.skip(m);
    assert forall|i: int| 0 <= i < x.len() implies applied(h, parse, states.take(m + 1)[i], #[trigger] x[i], states.take(m + 1)[i + 1]) by {
        assert(applied(h, parse, states[i], rs[i], states[i + 1]));
    }
    assert forall|i: int| 0 <= i < y.len() implies applied(h, parse, states.skip(m)[i], #[trigger] y[i], states.skip(m)[i + 1]) by {
        assert(applied(h, parse, states[m + i], rs[m + i], states[m + i + 1]));
    }
}

} // verus!
