//! The encoder: dense and sparse random combinations of a generation's symbols.
use std::sync::Arc;
use vstd::prelude::*;

use crate::gf256::{axpy, lemma_mul_units, lemma_sum};
use crate::lcg::{byte_of, bytes_after, lemma_no_long_zero_run, lemma_steps_add, seeded, stepped, steps, Lcg};
use crate::linalg::{combo, dot, zeros};
use crate::rlnc::{codes_for, nonzero, CodedPacket};

verus! {

/// What an encoder is made of: its source symbols, all of one size, and the state
/// of its coefficient stream.
pub struct EncoderView {
    pub symbol_size: nat,
    pub source: Seq<Seq<u8>>,
    pub state: u64,
}

impl EncoderView {
    /// Every source symbol has the encoder's symbol size.
    pub open spec fn fits(self) -> bool {
        forall|i: int| 0 <= i < self.source.len() ==> (#[trigger] self.source[i]).len() == self.symbol_size
    }
}

/// `s` cut or padded with zeros to `n` bytes.
pub open spec fn fitted(s: Seq<u8>, n: nat) -> Seq<u8> {
    Seq::new(n, |j: int| if j < s.len() { s[j] } else { 0u8 })
}

/// The stream's state after `r` rounds of `k` bytes.
pub open spec fn round_start(x: u64, k: nat, r: nat) -> u64
    decreases r,
{
    if r == 0 {
        x
    } else {
        steps(round_start(x, k, (r - 1) as nat), k)
    }
}

/// Round `r` is the first one, `k` bytes at a time from state `x`, that is not all zero.
pub open spec fn first_nonzero_round(x: u64, k: nat, r: nat) -> bool {
    &&& nonzero(bytes_after(round_start(x, k, r), k))
    &&& forall|q: nat| q < r ==> !nonzero(bytes_after(#[trigger] round_start(x, k, q), k))
}

/// `p` is the dense packet that an encoder `e` produces next, and `next` its stream's
/// state after that.
pub open spec fn dense_packet(e: EncoderView, p: CodedPacket, next: u64) -> bool {
    let k = e.source.len();
    &&& codes_for(p, e.source, e.symbol_size)
    &&& exists|r: nat|
        {
            &&& #[trigger] first_nonzero_round(e.state, k, r)
            &&& p.coeffs@ == bytes_after(round_start(e.state, k, r), k)
            &&& next == round_start(e.state, k, r + 1)
        }
}

/// `states` are the states between the packets of a batch.
pub open spec fn batch_states(e: EncoderView, ps: Seq<CodedPacket>, states: Seq<u64>) -> bool {
    &&& states.len() == ps.len() + 1
    &&& states[0] == e.state
    &&& forall|m: int|
        0 <= m < ps.len() ==> dense_packet(EncoderView { state: states[m], ..e }, #[trigger] ps[m], states[m + 1])
}

/// `ps` are the dense packets that `e` produces one after the other, and `next` its
/// stream's state after the last.
pub open spec fn dense_batch(e: EncoderView, ps: Seq<CodedPacket>, next: u64) -> bool {
    exists|states: Seq<u64>| #[trigger] batch_states(e, ps, states) && states.last() == next
}

/// A round starts a multiple of `k` steps on.
pub proof fn lemma_round_start(x: u64, k: nat, r: nat)
    ensures
        round_start(x, k, r) == steps(x, r * k),
    decreases r,
{
    if r > 0 {
        let q = (r - 1) as nat;
        lemma_round_start(x, k, q);
        lemma_steps_add(x, q * k, k);
        assert(q * k + k == r * k) by (nonlinear_arith)
            requires
                q == r - 1,
        ;
    } else {
        assert(r * k == 0) by (nonlinear_arith)
            requires
                r == 0,
        ;
    }
}

/// Seven rounds in a row are never all zero.
proof fn lemma_zero_rounds(x: u64, k: nat, r: nat)
    requires
        k > 0,
        forall|q: nat| q < r ==> !nonzero(bytes_after(#[trigger] round_start(x, k, q), k)),
    ensures
        r < 7,
{
    if r >= 7 {
        lemma_no_long_zero_run(x);
        let i = choose|i: nat| 1 <= i <= 7 && byte_of(#[trigger] steps(x, i)) != 0;
        let q = ((i - 1) as nat) / k;
        let o = ((i - 1) as nat) % k;
        vstd::arithmetic::div_mod::lemma_fundamental_div_mod(i - 1, k as int);
        assert(q < 7) by (nonlinear_arith)
            requires
                i - 1 == k * q + o,
                i <= 7,
                k > 0,
                o >= 0,
        ;
        assert(k * q == q * k) by (nonlinear_arith);
        lemma_round_start(x, k, q);
        lemma_steps_add(x, q * k, o + 1);
        assert(bytes_after(round_start(x, k, q), k)[o as int] != 0);
    }
}

/// Fills `coeffs` with the next bytes of the stream and says whether one is not zero.
fn draw_round(rng: &mut Lcg, coeffs: &mut Vec<u8>) -> (found: bool)
    ensures
        final(coeffs)@ == bytes_after(old(rng)@, old(coeffs)@.len()),
        final(rng)@ == steps(old(rng)@, old(coeffs)@.len()),
        found == nonzero(final(coeffs)@),
{
    let k: usize = coeffs.len();
    let ghost start = rng@;
    let mut found: bool = false;
    let mut i: usize = 0;
    while i < k
        invariant
            i <= k,
            coeffs@.len() == k,
            rng@ == steps(start, i as nat),
            found ==> nonzero(coeffs@.take(i as int)),
            !found ==> forall|j: int| 0 <= j < i ==> #[trigger] coeffs@[j] == 0,
            forall|j: int| 0 <= j < i ==> #[trigger] coeffs@[j] == byte_of(steps(start, (j + 1) as nat)),
        decreases k - i,
    {
        let ghost head = coeffs@.take(i as int);
        let v: u8 = rng.next_u8();
        coeffs.set(i, v);
        proof {
            let longer = coeffs@.take(i + 1);
            if found {
                let j = choose|j: int| 0 <= j < head.len() && #[trigger] head[j] != 0;
                assert(longer[j] == head[j]);
            }
            assert(longer[i as int] == v);
        }
        if v != 0 {
            found = true;
        }
        i += 1;
    }
    assert(coeffs@ =~= bytes_after(start, k as nat));
    assert(coeffs@.take(k as int) =~= coeffs@);
    found
}

/// Draws `k` coefficients, again and again while all are zero.
fn draw_dense(rng: &mut Lcg, k: usize) -> (coeffs: Vec<u8>)
    requires
        k > 0,
    ensures
        nonzero(coeffs@),
        coeffs@.len() == k,
        exists|r: nat|
            {
                &&& #[trigger] first_nonzero_round(old(rng)@, k as nat, r)
                &&& coeffs@ == bytes_after(round_start(old(rng)@, k as nat, r), k as nat)
                &&& final(rng)@ == round_start(old(rng)@, k as nat, r + 1)
            },
{
    let ghost x = rng@;
    let ghost mut r: nat = 0;
    let mut coeffs: Vec<u8> = vec![0u8; k];
    let mut found: bool = draw_round(rng, &mut coeffs);
    assert(round_start(x, k as nat, 0) == x);
    while !found
        invariant
            k > 0,
            r < 7,
            coeffs@.len() == k,
            forall|q: nat| q < r ==> !nonzero(bytes_after(#[trigger] round_start(x, k as nat, q), k as nat)),
            coeffs@ == bytes_after(round_start(x, k as nat, r), k as nat),
            rng@ == round_start(x, k as nat, r + 1),
            found == nonzero(coeffs@),
        decreases 7 - r,
    {
        proof {
            assert forall|q: nat| q < r + 1 implies !nonzero(bytes_after(#[trigger] round_start(x, k as nat, q), k as nat)) by {
                if q == r {
                    assert(!nonzero(coeffs@));
                }
            }
            r = r + 1;
            lemma_zero_rounds(x, k as nat, r);
        }
        found = draw_round(rng, &mut coeffs);
    }
    assert(first_nonzero_round(x, k as nat, r));
    coeffs
}

/// The number of nonzero coefficients.
pub open spec fn weight(c: Seq<u8>) -> nat
    decreases c.len(),
{
    if c.len() == 0 {
        0
    } else {
        weight(c.drop_last()) + (if c.last() != 0 { 1nat } else { 0nat })
    }
}

proof fn lemma_weight_set(c: Seq<u8>, i: int, x: u8)
    requires
        0 <= i < c.len(),
        c[i] == 0,
        x != 0,
    ensures
        weight(c.update(i, x)) == weight(c) + 1,
    decreases c.len(),
{
    let d = c.update(i, x);
    if i == c.len() - 1 {
        assert(d.drop_last() =~= c.drop_last());
    } else {
        assert(d.drop_last() =~= c.drop_last().update(i, x));
        lemma_weight_set(c.drop_last(), i, x);
    }
}

proof fn lemma_weight_bounds(c: Seq<u8>)
    ensures
        (forall|i: int| 0 <= i < c.len() ==> #[trigger] c[i] == 0) ==> weight(c) == 0,
        (forall|i: int| 0 <= i < c.len() ==> #[trigger] c[i] != 0) ==> weight(c) == c.len(),
    decreases c.len(),
{
    if c.len() > 0 {
        let d = c.drop_last();
        lemma_weight_bounds(d);
        assert(forall|i: int| 0 <= i < d.len() ==> #[trigger] d[i] == c[i]);
    }
}

/// How a sparse coefficient vector stands after some draws: the coefficients, how many
/// are still to be set, and the state of the stream.
pub struct SparseDraw {
    pub coeffs: Seq<u8>,
    pub left: nat,
    pub state: u64,
}

/// One attempt draws an index from the high bits of the stream; if that source is not
/// covered yet, one more draw gives its coefficient, made odd and so nonzero. At most
/// `tries` attempts are made, and none once nothing is left to set.
pub open spec fn scattered(d: SparseDraw, tries: nat) -> SparseDraw
    decreases tries,
{
    if d.left == 0 || tries == 0 {
        d
    } else {
        let x1 = stepped(d.state);
        let at = ((x1 >> 40u64) as int) % (d.coeffs.len() as int);
        if d.coeffs[at] == 0 {
            let x2 = stepped(x1);
            scattered(
                SparseDraw {
                    coeffs: d.coeffs.update(at, byte_of(x2) | 1),
                    left: (d.left - 1) as nat,
                    state: x2,
                },
                (tries - 1) as nat,
            )
        } else {
            scattered(SparseDraw { coeffs: d.coeffs, left: d.left, state: x1 }, (tries - 1) as nat)
        }
    }
}

/// What is left to set goes to the uncovered sources from index `i` up, one odd
/// coefficient each.
pub open spec fn filled(d: SparseDraw, i: int) -> SparseDraw
    decreases d.coeffs.len() - i,
{
    if d.left == 0 || i < 0 || i >= d.coeffs.len() {
        d
    } else if d.coeffs[i] == 0 {
        let x = stepped(d.state);
        filled(
            SparseDraw { coeffs: d.coeffs.update(i, byte_of(x) | 1), left: (d.left - 1) as nat, state: x },
            i + 1,
        )
    } else {
        filled(d, i + 1)
    }
}

/// The degree that is asked for, at least one and at most `k`.
pub open spec fn clamped(degree: nat, k: nat) -> nat {
    let d = if degree < 1 { 1 } else { degree };
    if d < k { d } else { k }
}

/// The sparse coefficient vector of length `k` and the given degree that the stream
/// gives from state `x`, with the stream's state after it.
pub open spec fn sparse_draw(x: u64, k: nat, degree: nat) -> SparseDraw {
    let start = SparseDraw { coeffs: zeros(k), left: clamped(degree, k), state: x };
    filled(scattered(start, 8 * k), 0)
}

/// Draws the coefficients of a sparse packet.
fn draw_sparse(rng: &mut Lcg, k: usize, degree: usize) -> (coeffs: Vec<u8>)
    ensures
        coeffs@ == sparse_draw(old(rng)@, k as nat, degree as nat).coeffs,
        final(rng)@ == sparse_draw(old(rng)@, k as nat, degree as nat).state,
        coeffs@.len() == k,
        weight(coeffs@) == clamped(degree as nat, k as nat),
{
    let wanted: usize = if degree < 1 { 1 } else { degree };
    let mut left: usize = if wanted < k { wanted } else { k };
    let mut coeffs: Vec<u8> = vec![0u8; k];
    let mut tries: u128 = 8 * (k as u128);
    let ghost target = sparse_draw(rng@, k as nat, degree as nat);
    let ghost want = left as nat;
    assert(coeffs@ =~= zeros(k as nat));
    proof {
        lemma_weight_bounds(coeffs@);
    }
    while left > 0 && tries > 0
        invariant
            coeffs@.len() == k,
            left <= k,
            weight(coeffs@) + left == want,
            filled(scattered(SparseDraw { coeffs: coeffs@, left: left as nat, state: rng@ }, tries as nat), 0) == target,
        decreases tries,
    {
        let x1: u64 = rng.next_u64();
        let hi: u64 = x1 >> 40u64;
        assert(x1 >> 40u64 <= 0xff_ffff) by (bit_vector);
        let at: usize = (hi as usize) % k;
        tries = tries - 1;
        if coeffs[at] == 0 {
            let b: u8 = rng.next_u8();
            let c: u8 = b | 1u8;
            assert(b | 1u8 != 0) by (bit_vector);
            proof {
                lemma_weight_set(coeffs@, at as int, c);
            }
            coeffs.set(at, c);
            left = left - 1;
        }
    }
    assert(filled(SparseDraw { coeffs: coeffs@, left: left as nat, state: rng@ }, 0) == target);
    let mut i: usize = 0;
    while left > 0 && i < k
        invariant
            coeffs@.len() == k,
            i <= k,
            left <= k,
            weight(coeffs@) + left == want,
            left > 0 ==> forall|j: int| 0 <= j < i ==> #[trigger] coeffs@[j] != 0,
            filled(SparseDraw { coeffs: coeffs@, left: left as nat, state: rng@ }, i as int) == target,
        decreases k - i,
    {
        if coeffs[i] == 0 {
            let b: u8 = rng.next_u8();
            let c: u8 = b | 1u8;
            assert(b | 1u8 != 0) by (bit_vector);
            proof {
                lemma_weight_set(coeffs@, i as int, c);
            }
            coeffs.set(i, c);
            left = left - 1;
        }
        i += 1;
    }
    proof {
        if left > 0 {
            lemma_weight_bounds(coeffs@);
        }
    }
    coeffs
}

/// Hands the bytes of a vector to a shared slice: `Arc::from` keeps them as they are.
#[verifier::external_body]
fn share(bytes: Vec<u8>) -> (shared: Arc<[u8]>)
    ensures
        shared@ == bytes@,
{
    Arc::from(bytes)
}

/// Per-generation encoder.
pub struct RlncEncoder {
    k: usize,
    symbol_size: usize,
    source: Vec<Arc<[u8]>>,
    rng: Lcg,
}

impl View for RlncEncoder {
    type V = EncoderView;

    closed spec fn view(&self) -> EncoderView {
        EncoderView {
            symbol_size: self.symbol_size as nat,
            source: Seq::new(self.source@.len(), |i: int| self.source@[i]@),
            state: self.rng@,
        }
    }
}

impl RlncEncoder {
    /// The source symbols all have the encoder's symbol size, and are counted.
    pub closed spec fn wf(&self) -> bool {
        &&& self.k == self.source@.len()
        &&& self@.fits()
    }

    /// An encoder over `source`, each symbol cut or zero-padded to `symbol_size`.
    pub fn new(source: Vec<Vec<u8>>, symbol_size: usize, seed: u64) -> (enc: Self)
        ensures
            enc.wf(),
            enc@.symbol_size == symbol_size,
            enc@.source.len() == source@.len(),
            forall|i: int| 0 <= i < source@.len() ==> #[trigger] enc@.source[i] == fitted(source@[i]@, symbol_size as nat),
            enc@.state == seeded(seed),
    {
        let k: usize = source.len();
        let mut src: Vec<Arc<[u8]>> = Vec::with_capacity(k);
        let mut source = source;
        let ghost given = source@;
        let mut i: usize = 0;
        while i < k
            invariant
                i <= k,
                k == given.len(),
                source@.len() == k,
                src@.len() == i,
                forall|j: int| i <= j < k ==> source@[j] == given[j],
                forall|j: int| 0 <= j < i ==> (#[trigger] src@[j])@ == fitted(given[j]@, symbol_size as nat),
            decreases k - i,
        {
            let mut s: Vec<u8> = Vec::new();
            std::mem::swap(&mut s, &mut source[i]);
            s.resize(symbol_size, 0);
            assert(s@ =~= fitted(given[i as int]@, symbol_size as nat));
            src.push(share(s));
            i += 1;
        }
        RlncEncoder { k, symbol_size, source: src, rng: Lcg::new(seed) }
    }

    /// An encoder over symbols that are already `symbol_size` long and shared, so that
    /// no byte of them is copied.
    pub fn new_shared(source: Vec<Arc<[u8]>>, symbol_size: usize, seed: u64) -> (enc: Self)
        requires
            forall|i: int| 0 <= i < source@.len() ==> (#[trigger] source@[i])@.len() == symbol_size,
        ensures
            enc.wf(),
            enc@.symbol_size == symbol_size,
            enc@.source == Seq::new(source@.len(), |i: int| source@[i]@),
            enc@.state == seeded(seed),
    {
        let k: usize = source.len();
        RlncEncoder { k, symbol_size, source, rng: Lcg::new(seed) }
    }

    /// The number of source symbols.
    pub fn k(&self) -> (k: usize)
        requires
            self.wf(),
        ensures
            k == self@.source.len(),
    {
        self.k
    }

    /// The size of a symbol in bytes.
    pub fn symbol_size(&self) -> (n: usize)
        ensures
            n == self@.symbol_size,
    {
        self.symbol_size
    }

    /// The combination of the source symbols with the given coefficients.
    fn combine(&self, coeffs: &Vec<u8>) -> (payload: Vec<u8>)
        requires
            self.wf(),
            coeffs@.len() == self@.source.len(),
        ensures
            payload@ == combo(coeffs@, self@.source, self@.symbol_size),
    {
        let mut payload: Vec<u8> = vec![0u8; self.symbol_size];
        let ghost src = self@.source;
        let ghost w = self@.symbol_size;
        let mut i: usize = 0;
        assert(payload@ =~= Seq::new(w, |j: int| dot(coeffs@, src, j, 0)));
        while i < self.k
            invariant
                self.wf(),
                src == self@.source,
                w == self@.symbol_size,
                i <= self.k,
                coeffs@.len() == self.k,
                payload@ == Seq::new(w, |j: int| dot(coeffs@, src, j, i as nat)),
            decreases self.k - i,
        {
            let c: u8 = coeffs[i];
            assert(src[i as int].len() == w);
            if c != 0 {
                axpy(&mut payload, c, &*self.source[i]);
            } else {
                proof {
                    assert forall|j: int| 0 <= j < w implies #[trigger] dot(coeffs@, src, j, (i + 1) as nat) == dot(
                        coeffs@, src, j, i as nat) by {
                        lemma_mul_units(src[i as int][j]);
                        lemma_sum(dot(coeffs@, src, j, i as nat), 0, 0);
                    }
                }
            }
            assert(payload@ =~= Seq::new(w, |j: int| dot(coeffs@, src, j, (i + 1) as nat)));
            i += 1;
        }
        payload
    }

    /// Produces one random linear combination of the source symbols. Its coefficients
    /// are drawn densely, and drawn again while all are zero.
    pub fn code(&mut self) -> (p: CodedPacket)
        requires
            old(self).wf(),
            old(self)@.source.len() > 0,
        ensures
            final(self).wf(),
            final(self)@.source == old(self)@.source,
            final(self)@.symbol_size == old(self)@.symbol_size,
            nonzero(p.coeffs@),
            dense_packet(old(self)@, p, final(self)@.state),
    {
        let ghost before = self@;
        let coeffs: Vec<u8> = draw_dense(&mut self.rng, self.k);
        assert(self@.source =~= before.source);
        let payload: Vec<u8> = self.combine(&coeffs);
        let p = CodedPacket { coeffs, payload };
        proof {
            let k = before.source.len();
            assert(codes_for(p, before.source, before.symbol_size));
            let r = choose|r: nat|
                {
                    &&& #[trigger] first_nonzero_round(before.state, k, r)
                    &&& p.coeffs@ == bytes_after(round_start(before.state, k, r), k)
                    &&& self@.state == round_start(before.state, k, r + 1)
                };
            assert(first_nonzero_round(before.state, k, r));
        }
        p
    }

    /// Codes `n` packets in one batch: one generation, `n` packets, each useful to any
    /// receiver.
    pub fn code_batch(&mut self, n: usize) -> (ps: Vec<CodedPacket>)
        requires
            old(self).wf(),
            n > 0 ==> old(self)@.source.len() > 0,
        ensures
            final(self).wf(),
            final(self)@.source == old(self)@.source,
            final(self)@.symbol_size == old(self)@.symbol_size,
            ps@.len() == n,
            dense_batch(old(self)@, ps@, final(self)@.state),
    {
        let mut ps: Vec<CodedPacket> = Vec::with_capacity(n);
        let ghost before = self@;
        let ghost mut states: Seq<u64> = seq![self@.state];
        let mut i: usize = 0;
        while i < n
            invariant
                i <= n,
                n > 0 ==> before.source.len() > 0,
                self.wf(),
                self@.source == before.source,
                self@.symbol_size == before.symbol_size,
                ps@.len() == i,
                states.len() == i + 1,
                states[0] == before.state,
                states[i as int] == self@.state,
                forall|m: int| 0 <= m < i ==> dense_packet(EncoderView { state: states[m], ..before }, #[trigger] ps@[m], states[m + 1]),
            decreases n - i,
        {
            let ghost now = self@;
            assert(now == EncoderView { state: states[i as int], ..before });
            let p = self.code();
            ps.push(p);
            proof {
                states = states.push(self@.state);
            }
            i += 1;
        }
        assert(batch_states(before, ps@, states));
        ps
    }

    /// Produces a sparse packet, which covers exactly `degree` random sources (at least
    /// one, at most all), for the peeling decoder.
    pub fn code_sparse(&mut self, degree: usize) -> (p: CodedPacket)
        requires
            old(self).wf(),
        ensures
            final(self).wf(),
            final(self)@.source == old(self)@.source,
            final(self)@.symbol_size == old(self)@.symbol_size,
            codes_for(p, old(self)@.source, old(self)@.symbol_size),
            weight(p.coeffs@) == clamped(degree as nat, old(self)@.source.len()),
            p.coeffs@ == sparse_draw(old(self)@.state, old(self)@.source.len(), degree as nat).coeffs,
            final(self)@.state == sparse_draw(old(self)@.state, old(self)@.source.len(), degree as nat).state,
    {
        let ghost before = self@;
        let coeffs: Vec<u8> = draw_sparse(&mut self.rng, self.k, degree);
        assert(self@.source =~= before.source);
        let payload: Vec<u8> = self.combine(&coeffs);
        CodedPacket { coeffs, payload }
    }
}

} // verus!
