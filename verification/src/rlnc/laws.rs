//! What holds of a decoder however its packets arrived.
use vstd::prelude::*;

use crate::linalg::{extended, has_rank, heads, in_span, independent, leads, lemma_echelon_heads,
    lemma_echelon_independent, lemma_exchange, lemma_extended_echelon, lemma_extended_span, lemma_heads_same_span,
    lemma_member_in_span, lemma_pivots_fit, lemma_same_span, lemma_same_span_push, lemma_satisfies_span,
    lemma_span_grows, lemma_span_within, lemma_unit_combo, reduced, same_span, satisfies, unit, wide};
use crate::rlnc::decoder::DecoderView;
use crate::rlnc::{codes_for, coefficient_rows, packet_row, packet_rows, sized, CodedPacket};

verus! {

impl DecoderView {
    /// The decoder has been given exactly the packets `ps`: its rows are combinations of
    /// them, and its coefficient rows span what their coefficients span.
    pub open spec fn heard(self, ps: Seq<CodedPacket>) -> bool {
        &&& sized(ps, self.k, self.symbol_size)
        &&& same_span(heads(self.rows, self.k), coefficient_rows(ps), self.k)
        &&& forall|i: int| 0 <= i < self.rows.len() ==> in_span(packet_rows(ps), self.width(), #[trigger] self.rows[i])
    }
}

/// A decoder without rows has heard nothing.
pub proof fn fresh_decoder_heard_nothing(d: DecoderView)
    requires
        d.rows.len() == 0,
    ensures
        d.heard(Seq::empty()),
{
    assert(heads(d.rows, d.k) =~= coefficient_rows(Seq::empty()));
}

/// Giving a decoder one more packet, taken or not, makes it a decoder that has heard
/// one more packet.
pub proof fn giving_is_hearing(before: DecoderView, after: DecoderView, ps: Seq<CodedPacket>, p: CodedPacket)
    requires
        before.fits(),
        before.heard(ps),
        p.coeffs@.len() == before.k,
        p.payload@.len() == before.symbol_size,
        if before.spans(p.coeffs@) {
            after == before
        } else {
            after.takes(before, packet_row(p))
        },
    ensures
        after.heard(ps.push(p)),
{
    let k = before.k;
    let w = before.width();
    let v = packet_row(p);
    let more = ps.push(p);
    let old_rows = packet_rows(ps);
    let new_rows = packet_rows(more);
    let h = heads(before.rows, k);
    assert(new_rows =~= old_rows.push(v));
    assert(coefficient_rows(more) =~= coefficient_rows(ps).push(p.coeffs@));
    assert(v.take(k as int) =~= p.coeffs@);
    assert forall|i: int| 0 <= i < ps.len() implies (#[trigger] old_rows[i]).len() == w by {
        assert(ps[i].coeffs@.len() == k);
    }
    assert forall|i: int| 0 <= i < ps.len() implies (#[trigger] coefficient_rows(ps)[i]).len() == k by {
        assert(ps[i].coeffs@.len() == k);
    }
    assert forall|i: int| 0 <= i < h.len() implies (#[trigger] h[i]).len() == k by {
        assert(before.rows[i].len() == w);
    }
    assert forall|i: int| 0 <= i < more.len() implies (#[trigger] more[i]).coeffs@.len() == k
        && more[i].payload@.len() == before.symbol_size by {
        if i < ps.len() {
            assert(ps[i].coeffs@.len() == k);
        }
    }
    lemma_same_span_push(h, coefficient_rows(ps), k, p.coeffs@);
    assert forall|i: int| 0 <= i < before.rows.len() implies in_span(new_rows, w, #[trigger] before.rows[i]) by {
        lemma_span_grows(old_rows, w, v, before.rows[i]);
    }
    if before.spans(p.coeffs@) {
        let h2 = h.push(p.coeffs@);
        assert forall|i: int| 0 <= i < h2.len() implies in_span(h, k, #[trigger] h2[i]) by {
            if i < h.len() {
                lemma_member_in_span(h, k, i);
            }
        }
        assert forall|i: int| 0 <= i < h.len() implies in_span(h2, k, #[trigger] h[i]) by {
            lemma_member_in_span(h2, k, i);
            assert(h2[i] == h[i]);
        }
        lemma_same_span(h, h2, k);
        assert forall|u: Seq<u8>| #[trigger] in_span(h, k, u) <==> in_span(coefficient_rows(more), k, u) by {
            assert(in_span(h2, k, u) <==> in_span(coefficient_rows(more), k, u));
        }
    } else {
        let q = choose|q: int|
            {
                &&& #[trigger] leads(reduced(v, before.rows, before.pivots), k, q)
                &&& after == DecoderView {
                    rows: extended(before.rows, before.pivots, v, q),
                    pivots: before.pivots.push(q),
                    ..before
                }
            };
        let all = before.rows.push(v);
        lemma_extended_echelon(before.rows, before.pivots, k, w, v, q);
        lemma_extended_span(before.rows, before.pivots, k, w, v, q);
        lemma_heads_same_span(after.rows, all, w, k);
        assert(heads(all, k) =~= h.push(p.coeffs@));
        assert forall|u: Seq<u8>| #[trigger] in_span(heads(after.rows, k), k, u) <==> in_span(coefficient_rows(more), k, u) by {
            assert(in_span(heads(all, k), k, u) <==> in_span(coefficient_rows(more), k, u));
        }
        lemma_member_in_span(new_rows, w, ps.len() as int);
        assert forall|i: int| 0 <= i < all.len() implies in_span(new_rows, w, #[trigger] all[i]) by {
            if i < before.rows.len() {
                assert(all[i] == before.rows[i]);
            }
        }
        assert forall|i: int| 0 <= i < after.rows.len() implies in_span(new_rows, w, #[trigger] after.rows[i]) by {
            lemma_member_in_span(after.rows, w, i);
            lemma_span_within(all, new_rows, w, after.rows[i]);
        }
    }
}

/// The rank of a decoder is the rank of the coefficient vectors it has heard.
pub proof fn rank_counts_independent_packets(d: DecoderView, ps: Seq<CodedPacket>)
    requires
        d.fits(),
        d.heard(ps),
    ensures
        has_rank(coefficient_rows(ps), d.k, d.rows.len()),
        d.rows.len() <= d.k,
{
    let h = heads(d.rows, d.k);
    lemma_echelon_heads(d.rows, d.pivots, d.k, d.width());
    lemma_echelon_independent(h, d.pivots, d.k);
    lemma_pivots_fit(d.rows, d.pivots, d.k);
    assert forall|i: int| 0 <= i < h.len() implies (#[trigger] h[i]).len() == d.k by {
        assert(d.rows[i].len() == d.width());
    }
    assert(independent(h, d.k));
}

/// Any `k` linearly independent packets among those heard bring a decoder to full rank,
/// whichever they are and whatever else it has heard.
pub proof fn any_k_independent_packets_suffice(d: DecoderView, ps: Seq<CodedPacket>, picks: Seq<int>)
    requires
        d.fits(),
        d.heard(ps),
        picks.len() == d.k,
        forall|i: int| 0 <= i < picks.len() ==> 0 <= #[trigger] picks[i] < ps.len(),
        independent(Seq::new(picks.len(), |i: int| ps[picks[i]].coeffs@), d.k),
    ensures
        d.rows.len() == d.k,
{
    let vs = Seq::new(picks.len(), |i: int| ps[picks[i]].coeffs@);
    let h = heads(d.rows, d.k);
    let cs = coefficient_rows(ps);
    lemma_pivots_fit(d.rows, d.pivots, d.k);
    assert forall|i: int| 0 <= i < cs.len() implies (#[trigger] cs[i]).len() == d.k by {
        assert(ps[i].coeffs@.len() == d.k);
    }
    assert forall|i: int| 0 <= i < vs.len() implies (#[trigger] vs[i]).len() == d.k by {
        assert(ps[picks[i]].coeffs@.len() == d.k);
    }
    assert forall|i: int| 0 <= i < h.len() implies (#[trigger] h[i]).len() == d.k by {
        assert(d.rows[i].len() == d.width());
    }
    assert forall|i: int| 0 <= i < vs.len() implies in_span(h, d.k, #[trigger] vs[i]) by {
        assert(0 <= picks[i] < ps.len());
        lemma_member_in_span(cs, d.k, picks[i]);
        assert(cs[picks[i]] == vs[i]);
        assert(in_span(h, d.k, vs[i]) <==> in_span(cs, d.k, vs[i]));
    }
    lemma_exchange(vs, h, d.k);
}

/// At full rank a row holds a unit vector, so what it carries is one symbol.
proof fn lemma_full_rank_unit(d: DecoderView, i: int)
    requires
        d.fits(),
        d.rows.len() == d.k,
        0 <= i < d.k,
    ensures
        d.rows[i].take(d.k as int) == unit(d.k, d.pivots[i]),
{
    lemma_pivots_fit(d.rows, d.pivots, d.k);
    assert(d.rows[i].len() == d.width());
    assert forall|j: int| 0 <= j < d.k implies d.rows[i][j] == unit(d.k, d.pivots[i])[j] by {
        assert(d.pivots.contains(j));
        let m = choose|m: int| 0 <= m < d.pivots.len() && d.pivots[m] == j;
        assert(d.rows[i][d.pivots[m]] == (if i == m { 1u8 } else { 0u8 }));
    }
    assert(d.rows[i].take(d.k as int) =~= unit(d.k, d.pivots[i]));
}

/// A packet codes for `source` when its row is an equation that `source` satisfies.
pub proof fn lemma_codes_is_satisfies(p: CodedPacket, source: Seq<Seq<u8>>, symbol_size: nat)
    requires
        p.coeffs@.len() == source.len(),
        p.payload@.len() == symbol_size,
    ensures
        codes_for(p, source, symbol_size) == satisfies(source, symbol_size, packet_row(p)),
{
    let k = source.len() as int;
    assert(packet_row(p).take(k) =~= p.coeffs@);
    assert(packet_row(p).skip(k) =~= p.payload@);
}

/// A decoder at full rank that has heard only packets coded from `source` decodes to
/// `source`: `symbols` is what `decode` returns of it.
pub proof fn full_rank_recovers_source(
    d: DecoderView,
    ps: Seq<CodedPacket>,
    source: Seq<Seq<u8>>,
    symbols: Seq<Seq<u8>>,
)
    requires
        d.fits(),
        d.heard(ps),
        d.rows.len() == d.k,
        source.len() == d.k,
        wide(source, d.symbol_size),
        forall|i: int| 0 <= i < ps.len() ==> codes_for(#[trigger] ps[i], source, d.symbol_size),
        symbols.len() == d.k,
        forall|i: int| 0 <= i < d.k ==> symbols[#[trigger] d.pivots[i]] == d.rows[i].skip(d.k as int),
    ensures
        symbols == source,
{
    let k = d.k;
    lemma_pivots_fit(d.rows, d.pivots, k);
    let rows = packet_rows(ps);
    assert forall|i: int| 0 <= i < rows.len() implies satisfies(source, d.symbol_size, #[trigger] rows[i]) by {
        assert(codes_for(ps[i], source, d.symbol_size));
        assert(ps[i].coeffs@.len() == k);
        lemma_codes_is_satisfies(ps[i], source, d.symbol_size);
    }
    assert forall|i: int| 0 <= i < rows.len() implies (#[trigger] rows[i]).len() == d.width() by {
        assert(ps[i].coeffs@.len() == k);
    }
    assert forall|j: int| 0 <= j < k implies symbols[j] == source[j] by {
        assert(d.pivots.contains(j));
        let i = choose|i: int| 0 <= i < d.pivots.len() && d.pivots[i] == j;
        lemma_full_rank_unit(d, i);
        lemma_satisfies_span(source, k, d.symbol_size, rows, d.rows[i]);
        lemma_unit_combo(source, d.symbol_size, j);
    }
    assert(symbols =~= source);
}

/// `states` are what a decoder that has taken nothing becomes as it is given `ps` one after
/// the other: a packet that is a combination of those before it leaves it as it is, and
/// another is taken.
pub open spec fn given(states: Seq<DecoderView>, ps: Seq<CodedPacket>) -> bool {
    &&& states.len() == ps.len() + 1
    &&& states[0].rows.len() == 0
    &&& states[0].pivots.len() == 0
    &&& forall|i: int|
        0 <= i < ps.len() ==> if states[i].spans((#[trigger] ps[i]).coeffs@) {
            states[i + 1] == states[i]
        } else {
            states[i + 1].takes(states[i], packet_row(ps[i]))
        }
}

proof fn lemma_given_heard(states: Seq<DecoderView>, ps: Seq<CodedPacket>, k: nat, s: nat, n: nat)
    requires
        given(states, ps),
        sized(ps, k, s),
        states[0].k == k,
        states[0].symbol_size == s,
        n <= ps.len(),
    ensures
        states[n as int].k == k,
        states[n as int].symbol_size == s,
        states[n as int].fits(),
        states[n as int].heard(ps.take(n as int)),
    decreases n,
{
    if n == 0 {
        fresh_decoder_heard_nothing(states[0]);
        assert(ps.take(0) =~= Seq::<CodedPacket>::empty());
    } else {
        let m = n - 1;
        let before = states[m];
        let after = states[n as int];
        let p = ps[m];
        lemma_given_heard(states, ps, k, s, m as nat);
        assert(p.coeffs@.len() == k);
        if !before.spans(p.coeffs@) {
            let q = choose|q: int|
                {
                    &&& #[trigger] leads(reduced(packet_row(p), before.rows, before.pivots), before.k, q)
                    &&& after == DecoderView {
                        rows: extended(before.rows, before.pivots, packet_row(p), q),
                        pivots: before.pivots.push(q),
                        ..before
                    }
                };
            lemma_extended_echelon(before.rows, before.pivots, k, before.width(), packet_row(p), q);
        }
        giving_is_hearing(before, after, ps.take(m), p);
        assert(ps.take(m).push(p) =~= ps.take(n as int));
    }
}

/// From a fresh decoder to the source: packets coded from `source` and given in any order,
/// `k` of which are independent, bring the decoder to full rank, and what it then decodes
/// to, `symbols`, is `source`.
pub proof fn given_packets_decode_to_their_source(
    states: Seq<DecoderView>,
    ps: Seq<CodedPacket>,
    source: Seq<Seq<u8>>,
    symbol_size: nat,
    picks: Seq<int>,
    symbols: Seq<Seq<u8>>,
)
    requires
        given(states, ps),
        states[0].k == source.len(),
        states[0].symbol_size == symbol_size,
        wide(source, symbol_size),
        sized(ps, source.len(), symbol_size),
        forall|i: int| 0 <= i < ps.len() ==> codes_for(#[trigger] ps[i], source, symbol_size),
        picks.len() == source.len(),
        forall|i: int| 0 <= i < picks.len() ==> 0 <= #[trigger] picks[i] < ps.len(),
        independent(Seq::new(picks.len(), |i: int| ps[picks[i]].coeffs@), source.len()),
        symbols.len() == source.len(),
        forall|i: int|
            0 <= i < source.len() ==> symbols[#[trigger] states.last().pivots[i]] == states.last().rows[i].skip(
                source.len() as int,
            ),
    ensures
        states.last().rows.len() == source.len(),
        symbols == source,
{
    lemma_given_heard(states, ps, source.len(), symbol_size, ps.len());
    assert(ps.take(ps.len() as int) =~= ps);
    any_k_independent_packets_suffice(states.last(), ps, picks);
    full_rank_recovers_source(states.last(), ps, source, symbols);
}

/// A packet is taken if and only if it is independent of those given before it, and the
/// rank is that of all that were given.
pub proof fn rank_grows_with_independent_packets(states: Seq<DecoderView>, ps: Seq<CodedPacket>, k: nat, s: nat, n: int)
    requires
        given(states, ps),
        states[0].k == k,
        states[0].symbol_size == s,
        sized(ps, k, s),
        0 <= n < ps.len(),
    ensures
        has_rank(coefficient_rows(ps.take(n)), k, states[n].rows.len()),
        states[n + 1].rows.len() == states[n].rows.len() + (if in_span(coefficient_rows(ps.take(n)), k, ps[n].coeffs@) {
            0int
        } else {
            1int
        }),
{
    lemma_given_heard(states, ps, k, s, n as nat);
    rank_counts_independent_packets(states[n], ps.take(n));
    let d = states[n];
    assert(in_span(heads(d.rows, k), k, ps[n].coeffs@) <==> in_span(coefficient_rows(ps.take(n)), k, ps[n].coeffs@));
}

} // verus!
