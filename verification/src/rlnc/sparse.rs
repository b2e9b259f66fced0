//! Decoding sparse packets with the peeling decoder.
use vstd::prelude::*;

use crate::fountain::{lemma_rank_carries, peel_decode, rows_view, FountainError};
use crate::linalg::{has_rank, heads, in_span, independent, lemma_independent_fits, lemma_member_in_span, lemma_same_span,
    lemma_solution_unique, lemma_zero_in_span, rank_is_unique, same_span, satisfies, solves, wide, zeros};
use crate::rlnc::laws::lemma_codes_is_satisfies;
use crate::rlnc::{codes_for, coefficient_rows, nonzero, packet_row, packet_rows, sized, CodedPacket, RlncError};

verus! {

/// The packets that have a nonzero coefficient, in their order.
pub open spec fn usable(ps: Seq<CodedPacket>) -> Seq<CodedPacket>
    decreases ps.len(),
{
    if ps.len() == 0 {
        ps
    } else if nonzero(ps.last().coeffs@) {
        usable(ps.drop_last()).push(ps.last())
    } else {
        usable(ps.drop_last())
    }
}

/// `x`, `k` symbols of `s` bytes, is what every packet codes for.
pub open spec fn explains(x: Seq<Seq<u8>>, k: nat, s: nat, ps: Seq<CodedPacket>) -> bool {
    &&& x.len() == k
    &&& wide(x, s)
    &&& forall|i: int| 0 <= i < ps.len() ==> codes_for(#[trigger] ps[i], x, s)
}

fn any_nonzero(c: &Vec<u8>) -> (some: bool)
    ensures
        some == nonzero(c@),
{
    let mut i: usize = 0;
    while i < c.len()
        invariant
            i <= c@.len(),
            forall|j: int| 0 <= j < i ==> #[trigger] c@[j] == 0,
        decreases c@.len() - i,
    {
        if c[i] != 0 {
            return true;
        }
        i += 1;
    }
    false
}

/// The packets of the right size, seen as equations, have their coefficients for heads.
proof fn lemma_packet_rows(ps: Seq<CodedPacket>, k: nat, s: nat)
    requires
        sized(ps, k, s),
    ensures
        wide(packet_rows(ps), k + s),
        heads(packet_rows(ps), k) == coefficient_rows(ps),
{
    let rows = packet_rows(ps);
    assert forall|i: int| 0 <= i < rows.len() implies (#[trigger] rows[i]).len() == k + s by {
        assert(ps[i].coeffs@.len() == k);
    }
    assert forall|i: int| 0 <= i < ps.len() implies heads(rows, k)[i] == coefficient_rows(ps)[i] by {
        assert(ps[i].coeffs@.len() == k);
        assert(rows[i].take(k as int) =~= ps[i].coeffs@);
    }
    assert(heads(rows, k) =~= coefficient_rows(ps));
}

/// What the packets code for is what solves their equations.
proof fn lemma_explains_is_solves(x: Seq<Seq<u8>>, k: nat, s: nat, ps: Seq<CodedPacket>)
    requires
        sized(ps, k, s),
    ensures
        explains(x, k, s, ps) <==> solves(x, k, s, packet_rows(ps)),
{
    let rows = packet_rows(ps);
    if x.len() == k {
        assert forall|i: int| 0 <= i < ps.len() implies codes_for(#[trigger] ps[i], x, s) == satisfies(x, s, rows[i]) by {
            assert(ps[i].coeffs@.len() == k);
            lemma_codes_is_satisfies(ps[i], x, s);
        }
        if solves(x, k, s, rows) {
            assert forall|i: int| 0 <= i < ps.len() implies codes_for(#[trigger] ps[i], x, s) by {
                assert(satisfies(x, s, rows[i]));
            }
        }
        if explains(x, k, s, ps) {
            assert forall|i: int| 0 <= i < rows.len() implies satisfies(x, s, #[trigger] rows[i]) by {
                assert(codes_for(ps[i], x, s));
            }
        }
    }
}

/// What decoding sparse packets gives: the symbols that explain the packets in use, if
/// their rank is `k` and there are any; the rank, if it is smaller.
pub open spec fn sparse_decoded(ps: Seq<CodedPacket>, k: nat, s: nat, out: Result<Vec<Vec<u8>>, RlncError>) -> bool {
    match out {
        Ok(x) => {
            &&& has_rank(coefficient_rows(usable(ps)), k, k)
            &&& explains(rows_view(x@), k, s, usable(ps))
        },
        Err(RlncError::Insufficient { have, need }) => {
            &&& has_rank(coefficient_rows(usable(ps)), k, have as nat)
            &&& have < need
            &&& need == k
        },
        Err(RlncError::Singular { have }) => {
            &&& have == k
            &&& has_rank(coefficient_rows(usable(ps)), k, k)
            &&& forall|x: Seq<Seq<u8>>| !#[trigger] explains(x, k, s, usable(ps))
        },
        Err(RlncError::SizeMismatch { .. }) => false,
    }
}

/// Recovers `k` symbols of `s` bytes from sparse packets; packets without a nonzero
/// coefficient are passed over.
pub fn sparse_decode(packets: &[CodedPacket], k: usize, s: usize) -> (out: Result<Vec<Vec<u8>>, RlncError>)
    requires
        sized(usable(packets@), k as nat, s as nat),
    ensures
        match out {
            Ok(x) => {
                &&& has_rank(coefficient_rows(usable(packets@)), k as nat, k as nat)
                &&& explains(rows_view(x@), k as nat, s as nat, usable(packets@))
            },
            Err(RlncError::Insufficient { have, need }) => {
                &&& has_rank(coefficient_rows(usable(packets@)), k as nat, have as nat)
                &&& have < need
                &&& need == k
            },
            Err(RlncError::Singular { have }) => {
                &&& have == k
                &&& has_rank(coefficient_rows(usable(packets@)), k as nat, k as nat)
                &&& forall|x: Seq<Seq<u8>>| !#[trigger] explains(x, k as nat, s as nat, usable(packets@))
            },
            Err(RlncError::SizeMismatch { .. }) => false,
        },
        sparse_decoded(packets@, k as nat, s as nat, out),
{
    let mut rows: Vec<Vec<u8>> = Vec::new();
    let ghost ps = packets@;
    let n: usize = packets.len();
    let mut i: usize = 0;
    assert(ps.take(0) =~= Seq::<CodedPacket>::empty());
    assert(rows_view(rows@) =~= packet_rows(usable(ps.take(0))));
    while i < n
        invariant
            ps == packets@,
            n == ps.len(),
            i <= n,
            rows_view(rows@) == packet_rows(usable(ps.take(i as int))),
        decreases n - i,
    {
        let p: &CodedPacket = &packets[i];
        let ghost head = ps.take(i + 1);
        assert(head.drop_last() =~= ps.take(i as int));
        assert(head.last() == *p);
        if any_nonzero(&p.coeffs) {
            let mut row: Vec<u8> = p.coeffs.clone();
            let mut payload: Vec<u8> = p.payload.clone();
            row.append(&mut payload);
            assert(row@ =~= packet_row(*p));
            let ghost before = rows@;
            rows.push(row);
            assert(rows_view(rows@) =~= rows_view(before).push(packet_row(*p)));
            assert(packet_rows(usable(head)) =~= packet_rows(usable(ps.take(i as int))).push(packet_row(*p)));
        }
        i += 1;
    }
    assert(ps.take(n as int) =~= ps);
    let ghost us = usable(ps);
    proof {
        lemma_packet_rows(us, k as nat, s as nat);
    }
    match peel_decode(rows, k, s) {
        Ok(x) => {
            proof {
                lemma_explains_is_solves(rows_view(x@), k as nat, s as nat, us);
            }
            Ok(x)
        },
        Err(FountainError::Underdetermined { have, need }) => Err(RlncError::Insufficient { have, need }),
        Err(FountainError::Inconsistent) => {
            proof {
                assert forall|x: Seq<Seq<u8>>| !#[trigger] explains(x, k as nat, s as nat, us) by {
                    lemma_explains_is_solves(x, k as nat, s as nat, us);
                }
            }
            Err(RlncError::Singular { have: k })
        },
    }
}

/// Sparse packets coded from `source`, of full rank, decode to `source` and to nothing
/// else: no other symbols explain them, and no smaller number is their rank.
pub proof fn full_rank_sparse_packets_recover_source(
    ps: Seq<CodedPacket>,
    source: Seq<Seq<u8>>,
    k: nat,
    s: nat,
    x: Seq<Seq<u8>>,
    have: nat,
)
    requires
        sized(ps, k, s),
        explains(source, k, s, ps),
        has_rank(coefficient_rows(ps), k, k),
    ensures
        explains(x, k, s, ps) ==> x == source,
        has_rank(coefficient_rows(ps), k, have) ==> have == k,
{
    lemma_packet_rows(ps, k, s);
    lemma_explains_is_solves(source, k, s, ps);
    lemma_explains_is_solves(x, k, s, ps);
    if explains(x, k, s, ps) {
        lemma_solution_unique(x, source, k, s, packet_rows(ps));
    }
    if has_rank(coefficient_rows(ps), k, have) {
        rank_is_unique(coefficient_rows(ps), k, have, k);
    }
}

/// Whether a packet is used depends on its coefficients alone: the packets in use are those
/// with a coefficient that is not zero, in their order.
pub proof fn packets_with_a_coefficient_are_used(ps: Seq<CodedPacket>)
    ensures
        usable(ps) == ps.filter(
            |p: CodedPacket| exists|i: int| 0 <= i < p.coeffs@.len() && #[trigger] p.coeffs@[i] != 0,
        ),
    decreases ps.len(),
{
    reveal(Seq::filter);
    if ps.len() > 0 {
        packets_with_a_coefficient_are_used(ps.drop_last());
    }
}

/// Packets that are passed over add nothing to what the coefficients span.
proof fn lemma_usable_spans(ps: Seq<CodedPacket>, k: nat, s: nat)
    requires
        sized(ps, k, s),
    ensures
        same_span(coefficient_rows(usable(ps)), coefficient_rows(ps), k),
        sized(usable(ps), k, s),
        forall|i: int| 0 <= i < usable(ps).len() ==> ps.contains(#[trigger] usable(ps)[i]),
        forall|i: int| 0 <= i < ps.len() && nonzero((#[trigger] ps[i]).coeffs@) ==> usable(ps).contains(ps[i]),
    decreases ps.len(),
{
    let us = usable(ps);
    if ps.len() > 0 {
        let head = ps.drop_last();
        let hs = usable(head);
        assert forall|i: int| 0 <= i < head.len() implies (#[trigger] head[i]).coeffs@.len() == k
            && head[i].payload@.len() == s by {
            assert(ps[i].coeffs@.len() == k);
        }
        lemma_usable_spans(head, k, s);
        assert(ps[ps.len() - 1].coeffs@.len() == k);
        assert forall|i: int| 0 <= i < us.len() implies ps.contains(#[trigger] us[i]) by {
            if i < hs.len() {
                assert(head.contains(hs[i]));
                let j = choose|j: int| 0 <= j < head.len() && head[j] == hs[i];
                assert(ps[j] == us[i]);
            } else {
                assert(ps[ps.len() - 1] == us[i]);
            }
        }
        assert forall|i: int| 0 <= i < ps.len() && nonzero((#[trigger] ps[i]).coeffs@) implies us.contains(ps[i]) by {
            if i < head.len() {
                assert(hs.contains(head[i]));
                let j = choose|j: int| 0 <= j < hs.len() && hs[j] == head[i];
                assert(us[j] == ps[i]);
            } else {
                assert(us[us.len() - 1] == ps[i]);
            }
        }
        assert forall|i: int| 0 <= i < us.len() implies (#[trigger] us[i]).coeffs@.len() == k && us[i].payload@.len() == s by {
            assert(ps.contains(us[i]));
            let j = choose|j: int| 0 <= j < ps.len() && ps[j] == us[i];
            assert(ps[j].coeffs@.len() == k);
        }
    }
    let x = coefficient_rows(us);
    let y = coefficient_rows(ps);
    assert forall|i: int| 0 <= i < x.len() implies (#[trigger] x[i]).len() == k && in_span(y, k, x[i]) by {
        assert(us[i].coeffs@.len() == k);
        assert(ps.contains(us[i]));
        let j = choose|j: int| 0 <= j < ps.len() && ps[j] == us[i];
        assert forall|m: int| 0 <= m < y.len() implies (#[trigger] y[m]).len() == k by {
            assert(ps[m].coeffs@.len() == k);
        }
        lemma_member_in_span(y, k, j);
    }
    assert forall|i: int| 0 <= i < y.len() implies (#[trigger] y[i]).len() == k && in_span(x, k, y[i]) by {
        assert(ps[i].coeffs@.len() == k);
        if nonzero(ps[i].coeffs@) {
            assert(us.contains(ps[i]));
            let j = choose|j: int| 0 <= j < us.len() && us[j] == ps[i];
            lemma_member_in_span(x, k, j);
        } else {
            assert(y[i] =~= zeros(k));
            lemma_zero_in_span(x, k);
        }
    }
    lemma_same_span(x, y, k);
}

/// Packets coded from `source`, whatever its symbols are, decode to `source` if the
/// coefficient vectors of the whole input have full rank, and give that rank if it is
/// smaller.
pub proof fn coded_packets_decode_to_their_source(
    ps: Seq<CodedPacket>,
    source: Seq<Seq<u8>>,
    k: nat,
    s: nat,
    rank: nat,
    out: Result<Vec<Vec<u8>>, RlncError>,
)
    requires
        sized(ps, k, s),
        source.len() == k,
        wide(source, s),
        forall|i: int| 0 <= i < ps.len() ==> codes_for(#[trigger] ps[i], source, s),
        has_rank(coefficient_rows(ps), k, rank),
        k <= usize::MAX,
        sparse_decoded(ps, k, s, out),
    ensures
        rank <= k,
        rank == k ==> out is Ok && rows_view(out->Ok_0@) == source,
        rank < k ==> out == Err::<Vec<Vec<u8>>, RlncError>(
            RlncError::Insufficient { have: rank as usize, need: k as usize },
        ),
{
    let us = usable(ps);
    lemma_usable_spans(ps, k, s);
    assert(same_span(coefficient_rows(ps), coefficient_rows(us), k));
    lemma_rank_carries(coefficient_rows(ps), coefficient_rows(us), k, rank);
    let basis = choose|b: Seq<Seq<u8>>|
        b.len() == rank && wide(b, k) && #[trigger] independent(b, k) && same_span(b, coefficient_rows(ps), k);
    lemma_independent_fits(basis, k);
    assert forall|i: int| 0 <= i < us.len() implies codes_for(#[trigger] us[i], source, s) by {
        assert(ps.contains(us[i]));
        let j = choose|j: int| 0 <= j < ps.len() && ps[j] == us[i];
        assert(codes_for(ps[j], source, s));
    }
    assert(explains(source, k, s, us));
    match out {
        Ok(x) => {
            full_rank_sparse_packets_recover_source(us, source, k, s, rows_view(x@), rank);
        },
        Err(RlncError::Insufficient { have, need }) => {
            rank_is_unique(coefficient_rows(us), k, have as nat, rank);
        },
        Err(_) => {},
    }
}

/// Packets of full rank that no symbols explain are refused as singular.
pub proof fn contradictory_packets_are_singular(
    ps: Seq<CodedPacket>,
    k: nat,
    s: nat,
    out: Result<Vec<Vec<u8>>, RlncError>,
)
    requires
        sized(ps, k, s),
        has_rank(coefficient_rows(ps), k, k),
        k <= usize::MAX,
        forall|x: Seq<Seq<u8>>|
            x.len() == k && #[trigger] wide(x, s) ==> exists|i: int|
                0 <= i < ps.len() && nonzero(ps[i].coeffs@) && !#[trigger] codes_for(ps[i], x, s),
        sparse_decoded(ps, k, s, out),
    ensures
        out == Err::<Vec<Vec<u8>>, RlncError>(RlncError::Singular { have: k as usize }),
{
    let us = usable(ps);
    lemma_usable_spans(ps, k, s);
    assert(same_span(coefficient_rows(ps), coefficient_rows(us), k));
    lemma_rank_carries(coefficient_rows(ps), coefficient_rows(us), k, k);
    match out {
        Ok(v) => {
            let x = rows_view(v@);
            assert(wide(x, s));
            let i = choose|i: int|
                0 <= i < ps.len() && nonzero(ps[i].coeffs@) && !#[trigger] codes_for(ps[i], x, s);
            assert(us.contains(ps[i]));
            let j = choose|j: int| 0 <= j < us.len() && us[j] == ps[i];
            assert(codes_for(us[j], x, s));
        },
        Err(RlncError::Insufficient { have, need }) => {
            rank_is_unique(coefficient_rows(us), k, have as nat, k);
        },
        Err(_) => {},
    }
}

} // verus!
