//! What holds of the packets that an encoder produces.
use vstd::prelude::*;

use crate::gf256::gf_mul;
use crate::lcg::{byte_of, bytes_after, lemma_byte_is_bits, lemma_steps_add, stepped, steps};
use crate::linalg::{lemma_dot_is_fold, zeros};
use crate::rlnc::encoder::{batch_states, clamped, dense_batch, dense_packet, filled, first_nonzero_round, fitted,
    lemma_round_start, round_start, scattered, sparse_draw, weight, EncoderView, SparseDraw};
use crate::rlnc::{codes_for, nonzero, CodedPacket};

verus! {

/// The byte that the stream from state `x` yields in its place `i`, counted from one: bits
/// 40 to 47 of the state there.
pub open spec fn stream_byte(x: u64, i: nat) -> int {
    (steps(x, i) as int / 0x100_0000_0000) % 256
}

/// A symbol is cut or padded to its size: what fits of it stays in its place, and the rest
/// is zero; a symbol of that size stays as it is.
pub proof fn symbol_is_cut_or_padded(s: Seq<u8>, n: nat, j: int)
    requires
        0 <= j < n,
    ensures
        fitted(s, n).len() == n,
        j < s.len() ==> fitted(s, n)[j] == s[j],
        j >= s.len() ==> fitted(s, n)[j] == 0,
        s.len() == n ==> fitted(s, n) == s,
        s.len() >= n ==> fitted(s, n) == s.take(n as int),
{
    if s.len() == n {
        assert(fitted(s, n) =~= s);
    }
    if s.len() >= n {
        assert(fitted(s, n) =~= s.take(n as int));
    }
}

/// The payload of a packet: byte `j` is the sum, over all source symbols, of the symbol's
/// coefficient times the symbol's byte `j`.
pub proof fn payload_combines_every_symbol(p: CodedPacket, source: Seq<Seq<u8>>, symbol_size: nat, j: int)
    requires
        codes_for(p, source, symbol_size),
        0 <= j < symbol_size,
    ensures
        p.coeffs@.len() == source.len(),
        p.payload@.len() == symbol_size,
        p.payload@[j] == Seq::new(source.len(), |i: int| gf_mul(p.coeffs@[i], source[i][j])).fold_left(
            0u8,
            |a: u8, b: u8| a ^ b,
        ),
{
    lemma_dot_is_fold(p.coeffs@, source, j, source.len());
}

/// The coefficients of a dense packet are successive bytes of the stream, a fresh one for
/// each source symbol. The bytes passed over before them come in whole rounds and are all
/// zero, some coefficient is not, and the stream goes on right behind them.
pub proof fn dense_coefficients_are_fresh_bytes(e: EncoderView, p: CodedPacket, next: u64)
    requires
        dense_packet(e, p, next),
    ensures
        codes_for(p, e.source, e.symbol_size),
        p.coeffs@.len() == e.source.len(),
        exists|i: int| 0 <= i < p.coeffs@.len() && #[trigger] p.coeffs@[i] != 0,
        exists|r: nat|
            {
                &&& next == #[trigger] steps(e.state, (r + 1) * e.source.len())
                &&& forall|i: int|
                    0 <= i < e.source.len() ==> #[trigger] p.coeffs@[i] == stream_byte(
                        e.state,
                        (r * e.source.len() + i + 1) as nat,
                    )
                &&& forall|i: nat| 1 <= i <= r * e.source.len() ==> #[trigger] stream_byte(e.state, i) == 0
            },
{
    let k = e.source.len();
    let x = e.state;
    let r = choose|r: nat|
        {
            &&& #[trigger] first_nonzero_round(x, k, r)
            &&& p.coeffs@ == bytes_after(round_start(x, k, r), k)
            &&& next == round_start(x, k, r + 1)
        };
    lemma_round_start(x, k, r + 1);
    lemma_round_start(x, k, r);
    assert(nonzero(p.coeffs@));
    assert forall|i: int| 0 <= i < k implies #[trigger] p.coeffs@[i] == stream_byte(x, (r * k + i + 1) as nat) by {
        lemma_steps_add(x, r * k, (i + 1) as nat);
        lemma_byte_is_bits(steps(x, (r * k + i + 1) as nat));
    }
    assert forall|i: nat| 1 <= i <= r * k implies #[trigger] stream_byte(x, i) == 0 by {
        assert(k > 0) by (nonlinear_arith)
            requires
                1 <= r * k,
        ;
        let q = ((i - 1) as nat) / k;
        let o = ((i - 1) as nat) % k;
        vstd::arithmetic::div_mod::lemma_fundamental_div_mod(i - 1, k as int);
        assert(q < r) by (nonlinear_arith)
            requires
                i - 1 == k * q + o,
                i <= r * k,
                k > 0,
                o >= 0,
        ;
        assert(k * q == q * k) by (nonlinear_arith);
        lemma_round_start(x, k, q);
        lemma_steps_add(x, q * k, o + 1);
        let row = bytes_after(round_start(x, k, q), k);
        assert(!nonzero(row));
        assert(row[o as int] == 0);
        lemma_byte_is_bits(steps(x, i));
    }
}

/// A batch is its packets one after the other: it splits anywhere into two batches, the
/// second of which goes on where the first ended, a batch of one is one packet, and a
/// batch of none leaves the stream where it was.
pub proof fn batch_splits_anywhere(e: EncoderView, ps: Seq<CodedPacket>, next: u64, m: int)
    requires
        dense_batch(e, ps, next),
        0 <= m <= ps.len(),
    ensures
        exists|mid: u64|
            {
                &&& #[trigger] dense_batch(e, ps.take(m), mid)
                &&& dense_batch(EncoderView { state: mid, ..e }, ps.skip(m), next)
            },
        ps.len() == 1 ==> dense_packet(e, ps[0], next),
        ps.len() == 0 ==> next == e.state,
{
    let states = choose|states: Seq<u64>| #[trigger] batch_states(e, ps, states) && states.last() == next;
    let x = ps.take(m);
    let y = ps.skip(m);
    let xs = states.take(m + 1);
    let ys = states.skip(m);
    let later = EncoderView { state: states[m], ..e };
    assert forall|i: int| 0 <= i < x.len() implies dense_packet(EncoderView { state: xs[i], ..e }, #[trigger] x[i], xs[i + 1]) by {
        assert(dense_packet(EncoderView { state: states[i], ..e }, ps[i], states[i + 1]));
    }
    assert forall|i: int| 0 <= i < y.len() implies dense_packet(
        EncoderView { state: ys[i], ..later },
        #[trigger] y[i],
        ys[i + 1],
    ) by {
        assert(dense_packet(EncoderView { state: states[m + i], ..e }, ps[m + i], states[m + i + 1]));
    }
    assert(batch_states(e, x, xs));
    assert(batch_states(later, y, ys));
    assert(dense_batch(e, x, states[m]));
    assert(dense_batch(later, y, next));
    if ps.len() == 1 {
        assert(dense_packet(EncoderView { state: states[0], ..e }, ps[0], states[1]));
        assert(e == EncoderView { state: states[0], ..e });
    }
}

/// The weight of a coefficient vector is how many of its entries are not zero.
pub proof fn weight_counts_nonzero_entries(c: Seq<u8>)
    ensures
        weight(c) == c.filter(|x: u8| x != 0).len(),
    decreases c.len(),
{
    reveal(Seq::filter);
    if c.len() > 0 {
        weight_counts_nonzero_entries(c.drop_last());
    }
}

/// The degree of a sparse packet is the one asked for, but at least one and at most `k`.
pub proof fn degree_is_clamped(degree: nat, k: nat)
    ensures
        1 <= degree <= k ==> clamped(degree, k) == degree,
        degree == 0 && k > 0 ==> clamped(degree, k) == 1,
        degree > k ==> clamped(degree, k) == k,
        clamped(degree, 0) == 0,
{
}

/// One attempt of a sparse draw: the next state's high bits, modulo the number of sources,
/// name a source. One that is covered already costs that state alone; another is given the
/// byte of the state after it, made odd.
pub proof fn attempt_draws_index_and_coefficient(d: SparseDraw)
    requires
        d.left > 0,
        d.coeffs.len() > 0,
    ensures
        ({
            let at = (steps(d.state, 1) as int / 0x100_0000_0000) % (d.coeffs.len() as int);
            &&& d.coeffs[at] != 0 ==> scattered(d, 1) == SparseDraw { state: steps(d.state, 1), ..d }
            &&& d.coeffs[at] == 0 ==> scattered(d, 1) == SparseDraw {
                coeffs: d.coeffs.update(at, stream_byte(d.state, 2) as u8 | 1),
                left: (d.left - 1) as nat,
                state: steps(d.state, 2),
            }
        }),
{
    reveal_with_fuel(steps, 3);
    reveal_with_fuel(scattered, 2);
    lemma_byte_is_bits(steps(d.state, 1));
    lemma_byte_is_bits(steps(d.state, 2));
}

/// Attempts add up, and none is made once nothing is left to set.
pub proof fn attempts_add_up(d: SparseDraw, m: nat, n: nat)
    ensures
        scattered(d, m + n) == scattered(scattered(d, m), n),
        scattered(d, 0) == d,
        d.left == 0 ==> scattered(d, m) == d,
    decreases m,
{
    reveal_with_fuel(scattered, 2);
    if m > 0 && d.left > 0 {
        let after = scattered(d, 1);
        let fewer = (m - 1) as nat;
        lemma_scattered_steps(d, m);
        lemma_scattered_steps(d, m + n);
        attempts_add_up(after, fewer, n);
        assert((fewer + n) as nat == (m + n - 1) as nat);
    }
}

proof fn lemma_scattered_steps(d: SparseDraw, m: nat)
    requires
        m > 0,
        d.left > 0,
    ensures
        scattered(d, m) == scattered(scattered(d, 1), (m - 1) as nat),
{
    reveal_with_fuel(scattered, 2);
}

/// How many entries of `c` from `i` up to `j` are zero.
pub open spec fn zeros_between(c: Seq<u8>, i: int, j: int) -> nat {
    c.subrange(i, j).filter(|x: u8| x == 0).len()
}

proof fn lemma_zeros_between(c: Seq<u8>, i: int, j: int)
    requires
        0 <= i <= j <= c.len(),
    ensures
        i == j ==> zeros_between(c, i, j) == 0,
        i < j ==> zeros_between(c, i, j) == (if c[i] == 0 { 1nat } else { 0nat }) + zeros_between(c, i + 1, j),
{
    let f = |x: u8| x == 0;
    reveal(Seq::filter);
    if i < j {
        let head = seq![c[i]];
        Seq::filter_distributes_over_add(head, c.subrange(i + 1, j), f);
        assert(c.subrange(i, j) =~= head + c.subrange(i + 1, j));
        assert(head.drop_last() =~= Seq::<u8>::empty());
        assert(head.drop_last().filter(f) =~= Seq::<u8>::empty());
    }
}

/// What scattering leaves goes to the uncovered sources in the order of their indices, one
/// byte of the stream each, made odd; covered sources keep their coefficient.
pub proof fn rest_is_filled_in_order(d: SparseDraw, i: int, j: int)
    requires
        0 <= i <= j < d.coeffs.len(),
    ensures
        filled(d, i).coeffs.len() == d.coeffs.len(),
        d.coeffs[j] != 0 ==> filled(d, i).coeffs[j] == d.coeffs[j],
        d.coeffs[j] == 0 && zeros_between(d.coeffs, i, j) < d.left ==> filled(d, i).coeffs[j] == stream_byte(
            d.state,
            zeros_between(d.coeffs, i, j) + 1,
        ) as u8 | 1,
        d.coeffs[j] == 0 && zeros_between(d.coeffs, i, j) >= d.left ==> filled(d, i).coeffs[j] == 0,
    decreases d.coeffs.len() - i,
{
    lemma_zeros_between(d.coeffs, i, j);
    lemma_filled_keeps(d, i, j);
    if d.left > 0 {
        if d.coeffs[i] == 0 {
            let x = steps(d.state, 1);
            let e = SparseDraw {
                coeffs: d.coeffs.update(i, byte_of(x) | 1),
                left: (d.left - 1) as nat,
                state: x,
            };
            reveal_with_fuel(steps, 2);
            assert(filled(d, i) == filled(e, i + 1));
            lemma_byte_is_bits(x);
            assert(byte_of(x) | 1 != 0) by {
                let b = byte_of(x);
                assert(b | 1u8 != 0) by (bit_vector);
            }
            if i == j {
                lemma_filled_keeps(e, i + 1, i);
            } else {
                rest_is_filled_in_order(e, i + 1, j);
                assert(e.coeffs.subrange(i + 1, j) =~= d.coeffs.subrange(i + 1, j));
                let z = zeros_between(d.coeffs, i + 1, j);
                lemma_steps_add(d.state, 1, z + 1);
                assert(1 + (z + 1) == (z + 1) + 1);
            }
        } else {
            assert(filled(d, i) == filled(d, i + 1));
            if i < j {
                rest_is_filled_in_order(d, i + 1, j);
            }
        }
    }
}

/// Filling takes one state of the stream for each coefficient that it sets, as many as are
/// left to set or, if there are fewer, as there are uncovered sources.
pub proof fn filling_spends_a_state_each(d: SparseDraw, i: int)
    requires
        0 <= i <= d.coeffs.len(),
    ensures
        ({
            let z = zeros_between(d.coeffs, i, d.coeffs.len() as int);
            let n = if z < d.left { z } else { d.left };
            &&& filled(d, i).state == steps(d.state, n)
            &&& filled(d, i).left == d.left - n
        }),
    decreases d.coeffs.len() - i,
{
    let len = d.coeffs.len() as int;
    lemma_zeros_between(d.coeffs, i, len);
    if d.left > 0 && i < len {
        if d.coeffs[i] == 0 {
            let x = steps(d.state, 1);
            let e = SparseDraw {
                coeffs: d.coeffs.update(i, byte_of(x) | 1),
                left: (d.left - 1) as nat,
                state: x,
            };
            reveal_with_fuel(steps, 2);
            assert(filled(d, i) == filled(e, i + 1));
            filling_spends_a_state_each(e, i + 1);
            assert(e.coeffs.subrange(i + 1, len) =~= d.coeffs.subrange(i + 1, len));
            let z = zeros_between(d.coeffs, i + 1, len);
            let n = if z < e.left { z } else { e.left };
            lemma_steps_add(d.state, 1, n);
        } else {
            filling_spends_a_state_each(d, i + 1);
        }
    }
}

/// Filling from index `i` leaves what is before it, and what is covered, as it is.
proof fn lemma_filled_keeps(d: SparseDraw, i: int, j: int)
    requires
        0 <= i <= d.coeffs.len(),
        0 <= j < d.coeffs.len(),
    ensures
        filled(d, i).coeffs.len() == d.coeffs.len(),
        j < i || d.coeffs[j] != 0 ==> filled(d, i).coeffs[j] == d.coeffs[j],
    decreases d.coeffs.len() - i,
{
    if d.left > 0 && i < d.coeffs.len() {
        if d.coeffs[i] == 0 {
            let x = stepped(d.state);
            let e = SparseDraw {
                coeffs: d.coeffs.update(i, byte_of(x) | 1),
                left: (d.left - 1) as nat,
                state: x,
            };
            lemma_filled_keeps(e, i + 1, j);
        } else {
            lemma_filled_keeps(d, i + 1, j);
        }
    }
}

/// A sparse draw scatters from no coefficient at all, for up to eight attempts a source.
/// Where that covers the degree, it is the draw; where it does not, the rest is filled in
/// behind it.
pub proof fn sparse_draw_scatters_and_fills(x: u64, k: nat, degree: nat, n: nat)
    requires
        n <= 8 * k,
    ensures
        ({
            let start = SparseDraw {
                coeffs: Seq::new(k, |i: int| 0u8),
                left: if degree > k { k } else if degree == 0 && k > 0 { 1 } else { degree },
                state: x,
            };
            &&& scattered(start, n).left == 0 ==> sparse_draw(x, k, degree) == scattered(start, n)
            &&& sparse_draw(x, k, degree) == filled(scattered(start, 8 * k), 0)
        }),
{
    let start = SparseDraw {
        coeffs: Seq::new(k, |i: int| 0u8),
        left: if degree > k { k } else if degree == 0 && k > 0 { 1 } else { degree },
        state: x,
    };
    assert(start.coeffs =~= zeros(k));
    if scattered(start, n).left == 0 {
        attempts_add_up(start, n, (8 * k - n) as nat);
        attempts_add_up(scattered(start, n), (8 * k - n) as nat, 0);
    }
}

} // verus!
