//! The decoder: Gaussian elimination, one packet at a time.
use vstd::prelude::*;
use vstd::slice::{slice_subrange, slice_to_vec};

use crate::gf256::{axpy, inv, lemma_mul_units, lemma_sum, plus_scaled, scal_inplace};
use crate::linalg::{at_pivots, cleared, dot, echelon, extended, heads, in_span, leads, lemma_echelon_coefficients,
    lemma_extended_echelon, lemma_pivots_fit, lemma_reduced_to_zero, reduced, wide};
use crate::rlnc::{packet_row, CodedPacket, RlncError};

verus! {

/// What a decoder holds: the packets it has taken, worked into reduced row echelon
/// form, and the pivot column of each row.
pub struct DecoderView {
    pub k: nat,
    pub symbol_size: nat,
    pub rows: Seq<Seq<u8>>,
    pub pivots: Seq<int>,
}

impl DecoderView {
    /// The width of a row: coefficients and payload.
    pub open spec fn width(self) -> nat {
        self.k + self.symbol_size
    }

    /// The rows are as wide as a packet and in reduced row echelon form.
    pub open spec fn fits(self) -> bool {
        &&& echelon(self.rows, self.pivots, self.k)
        &&& wide(self.rows, self.width())
    }

    /// The packet's coefficients are a combination of those already held.
    pub open spec fn spans(self, coeffs: Seq<u8>) -> bool {
        in_span(heads(self.rows, self.k), self.k, coeffs)
    }

    /// `self` is `before` with packet row `v` worked in.
    pub open spec fn takes(self, before: DecoderView, v: Seq<u8>) -> bool {
        exists|p: int|
            {
                &&& #[trigger] leads(reduced(v, before.rows, before.pivots), before.k, p)
                &&& self == DecoderView {
                    rows: extended(before.rows, before.pivots, v, p),
                    pivots: before.pivots.push(p),
                    ..before
                }
            }
    }
}

/// The place of the first nonzero entry of `row`.
pub fn first_nonzero(row: &[u8]) -> (at: Option<usize>)
    ensures
        match at {
            Some(p) => leads(row@, row@.len(), p as int),
            None => forall|j: int| 0 <= j < row@.len() ==> #[trigger] row@[j] == 0,
        },
{
    let mut j: usize = 0;
    while j < row.len()
        invariant
            j <= row@.len(),
            forall|i: int| 0 <= i < j ==> #[trigger] row@[i] == 0,
        decreases row@.len() - j,
    {
        if row[j] != 0 {
            return Some(j);
        }
        j += 1;
    }
    None
}

/// Per-generation decoder.
pub struct RlncDecoder {
    k: usize,
    symbol_size: usize,
    rows: Vec<Vec<u8>>,
    pivots: Vec<usize>,
}

impl View for RlncDecoder {
    type V = DecoderView;

    closed spec fn view(&self) -> DecoderView {
        DecoderView {
            k: self.k as nat,
            symbol_size: self.symbol_size as nat,
            rows: Seq::new(self.rows@.len(), |i: int| self.rows@[i]@),
            pivots: Seq::new(self.pivots@.len(), |i: int| self.pivots@[i] as int),
        }
    }
}

impl RlncDecoder {
    /// A decoder for `k` symbols that has taken no packet.
    pub fn new(k: usize, symbol_size: usize) -> (dec: Self)
        ensures
            dec@ == (DecoderView {
                k: k as nat,
                symbol_size: symbol_size as nat,
                rows: Seq::empty(),
                pivots: Seq::empty(),
            }),
            dec@.fits(),
    {
        let dec = RlncDecoder { k, symbol_size, rows: Vec::with_capacity(k), pivots: Vec::with_capacity(k) };
        assert(dec@.rows =~= Seq::empty());
        assert(dec@.pivots =~= Seq::empty());
        dec
    }

    /// The number of independent packets taken.
    pub fn rank(&self) -> (r: usize)
        ensures
            r == self@.rows.len(),
    {
        self.rows.len()
    }

    /// The number of source symbols.
    pub fn k(&self) -> (k: usize)
        ensures
            k == self@.k,
    {
        self.k
    }

    /// Clears the pivot columns of `row`.
    fn reduce(&self, row: &mut Vec<u8>)
        requires
            self@.fits(),
            old(row)@.len() == self@.width(),
        ensures
            final(row)@ == reduced(old(row)@, self@.rows, self@.pivots),
    {
        let ghost v = row@;
        let ghost rows = self@.rows;
        let ghost pivots = self@.pivots;
        let ghost c = at_pivots(v, pivots);
        let ghost w = self@.width();
        let n: usize = self.rows.len();
        let mut i: usize = 0;
        proof {
            assert forall|j: int| 0 <= j < w implies v[j] == v[j] ^ dot(c, rows, j, 0) by {
                lemma_sum(v[j], 0, 0);
            }
        }
        assert(row@ =~= Seq::new(w, |j: int| v[j] ^ dot(c, rows, j, 0)));
        while i < n
            invariant
                self@.fits(),
                rows == self@.rows,
                pivots == self@.pivots,
                w == self@.width(),
                c == at_pivots(v, pivots),
                v.len() == w,
                n == self.rows@.len(),
                i <= n,
                row@ == Seq::new(w, |j: int| v[j] ^ dot(c, rows, j, i as nat)),
            decreases n - i,
        {
            let piv: usize = self.pivots[i];
            assert(pivots[i as int] == piv);
            assert(rows[i as int].len() == w);
            proof {
                lemma_echelon_coefficients(rows, pivots, self@.k, c, i as int, i as nat);
                lemma_sum(v[piv as int], 0, 0);
            }
            let x: u8 = row[piv];
            assert(x == c[i as int]);
            if x != 0 {
                axpy(row, x, self.rows[i].as_slice());
            }
            proof {
                assert forall|j: int| 0 <= j < w implies row@[j] == v[j] ^ #[trigger] dot(c, rows, j, (i + 1) as nat) by {
                    lemma_mul_units(rows[i as int][j]);
                    lemma_sum(v[j], dot(c, rows, j, i as nat), crate::gf256::gf_mul(x, rows[i as int][j]));
                    lemma_sum(dot(c, rows, j, i as nat), 0, 0);
                }
            }
            assert(row@ =~= Seq::new(w, |j: int| v[j] ^ dot(c, rows, j, (i + 1) as nat)));
            i += 1;
        }
        assert(row@ =~= reduced(v, rows, pivots));
    }

    /// Clears column `piv` of every row held.
    fn clear(&mut self, row: &Vec<u8>, piv: usize)
        requires
            old(self)@.fits(),
            row@.len() == old(self)@.width(),
            piv < old(self)@.k,
        ensures
            final(self)@ == (DecoderView { rows: cleared(old(self)@.rows, row@, piv as int), ..old(self)@ }),
    {
        let ghost before = self@;
        let ghost w = self@.width();
        let n: usize = self.rows.len();
        let mut i: usize = 0;
        while i < n
            invariant
                before.fits(),
                w == before.width(),
                n == before.rows.len(),
                i <= n,
                piv < before.k,
                row@.len() == w,
                self.rows@.len() == n,
                self@.k == before.k,
                self@.symbol_size == before.symbol_size,
                self@.pivots == before.pivots,
                forall|m: int| 0 <= m < i ==> (#[trigger] self.rows@[m])@ == cleared(before.rows, row@, piv as int)[m],
                forall|m: int| i <= m < n ==> (#[trigger] self.rows@[m])@ == before.rows[m],
            decreases n - i,
        {
            assert(before.rows[i as int].len() == w);
            let x: u8 = self.rows[i][piv];
            if x != 0 {
                axpy(&mut self.rows[i], x, row.as_slice());
            } else {
                proof {
                    let r = before.rows[i as int];
                    assert forall|j: int| 0 <= j < w implies r[j] == #[trigger] plus_scaled(r, x, row@)[j] by {
                        lemma_mul_units(row@[j]);
                        lemma_sum(r[j], 0, 0);
                    }
                    assert(r =~= plus_scaled(r, x, row@));
                }
            }
            i += 1;
        }
        assert(self@.rows =~= cleared(before.rows, row@, piv as int));
    }

    /// Takes a packet if its coefficients are independent of those already held, and says
    /// whether it was taken.
    pub fn add(&mut self, p: CodedPacket) -> (taken: Result<bool, RlncError>)
        requires
            old(self)@.fits(),
        ensures
            final(self)@.fits(),
            match taken {
                Err(e) => {
                    &&& final(self)@ == old(self)@
                    &&& if p.coeffs@.len() != old(self)@.k {
                        e == (RlncError::SizeMismatch { exp: old(self)@.k as usize, got: p.coeffs@.len() as usize })
                    } else {
                        &&& p.payload@.len() != old(self)@.symbol_size
                        &&& e == (RlncError::SizeMismatch {
                            exp: old(self)@.symbol_size as usize,
                            got: p.payload@.len() as usize,
                        })
                    }
                },
                Ok(fresh) => {
                    &&& p.coeffs@.len() == old(self)@.k
                    &&& p.payload@.len() == old(self)@.symbol_size
                    &&& fresh == !old(self)@.spans(p.coeffs@)
                    &&& if fresh {
                        final(self)@.takes(old(self)@, packet_row(p))
                    } else {
                        final(self)@ == old(self)@
                    }
                },
            },
    {
        if p.coeffs.len() != self.k {
            return Err(RlncError::SizeMismatch { exp: self.k, got: p.coeffs.len() });
        }
        if p.payload.len() != self.symbol_size {
            return Err(RlncError::SizeMismatch { exp: self.symbol_size, got: p.payload.len() });
        }
        let ghost before = self@;
        let ghost v = packet_row(p);
        let ghost w = self@.width();
        let mut payload: Vec<u8> = p.payload;
        let mut row: Vec<u8> = p.coeffs;
        row.append(&mut payload);
        assert(row@ =~= v);
        assert(v.take(self.k as int) =~= p.coeffs@);
        self.reduce(&mut row);
        proof {
            lemma_reduced_to_zero(v, before.rows, before.pivots, before.k, w);
        }
        let head: &[u8] = slice_subrange(row.as_slice(), 0, self.k);
        assert(forall|j: int| 0 <= j < self.k ==> #[trigger] row@[j] == head@[j]);
        match first_nonzero(head) {
            Some(piv) => {
                proof {
                    assert(leads(row@, before.k, piv as int));
                    lemma_extended_echelon(before.rows, before.pivots, before.k, w, v, piv as int);
                }
                let f: u8 = inv(row[piv]);
                scal_inplace(&mut row, f);
                self.clear(&row, piv);
                self.pivots.push(piv);
                self.rows.push(row);
                assert(self@.rows =~= extended(before.rows, before.pivots, v, piv as int));
                assert(self@.pivots =~= before.pivots.push(piv as int));
                Ok(true)
            },
            None => Ok(false),
        }
    }

    /// The source symbols, once `k` independent packets have been taken.
    pub fn decode(&self) -> (out: Result<Vec<Vec<u8>>, RlncError>)
        requires
            self@.fits(),
        ensures
            match out {
                Err(e) => {
                    &&& self@.rows.len() < self@.k
                    &&& e == (RlncError::Insufficient { have: self@.rows.len() as usize, need: self@.k as usize })
                },
                Ok(symbols) => {
                    &&& self@.rows.len() == self@.k
                    &&& symbols@.len() == self@.k
                    &&& forall|i: int|
                        0 <= i < self@.k ==> symbols@[#[trigger] self@.pivots[i]]@ == self@.rows[i].skip(self@.k as int)
                },
            },
    {
        let n: usize = self.rows.len();
        if n < self.k {
            return Err(RlncError::Insufficient { have: n, need: self.k });
        }
        let ghost rows = self@.rows;
        let ghost pivots = self@.pivots;
        let ghost k = self@.k;
        proof {
            lemma_pivots_fit(rows, pivots, k);
        }
        let mut out: Vec<Vec<u8>> = Vec::with_capacity(self.k);
        let mut i: usize = 0;
        while i < self.k
            invariant
                i <= self.k,
                out@.len() == i,
            decreases self.k - i,
        {
            out.push(vec![0u8; self.symbol_size]);
            i += 1;
        }
        let mut seen: Vec<bool> = vec![false; self.k];
        i = 0;
        while i < n
            invariant
                self@.fits(),
                rows == self@.rows,
                pivots == self@.pivots,
                k == self@.k,
                n == k,
                n == rows.len(),
                i <= n,
                pivots.no_duplicates(),
                out@.len() == k,
                seen@.len() == k,
                forall|m: int| 0 <= m < i ==> out@[#[trigger] pivots[m]]@ == rows[m].skip(k as int),
                forall|m: int| 0 <= m < i ==> seen@[#[trigger] pivots[m]],
            decreases n - i,
        {
            let piv: usize = self.pivots[i];
            assert(pivots[i as int] == piv);
            assert(rows[i as int].len() == self@.width());
            let row: &Vec<u8> = &self.rows[i];
            let payload: Vec<u8> = slice_to_vec(slice_subrange(row.as_slice(), self.k, row.len()));
            assert(payload@ =~= rows[i as int].skip(k as int));
            out.set(piv, payload);
            seen.set(piv, true);
            i += 1;
        }
        i = 0;
        while i < self.k
            invariant
                i <= self.k,
                k == self@.k,
                seen@.len() == k,
                rows.len() == k,
                pivots.len() == k,
                forall|m: int| 0 <= m < k ==> seen@[#[trigger] pivots[m]],
                forall|j: int| 0 <= j < k ==> #[trigger] pivots.contains(j),
            decreases self.k - i,
        {
            if !seen[i] {
                assert(pivots.contains(i as int));
                return Err(RlncError::Singular { have: n });
            }
            i += 1;
        }
        Ok(out)
    }
}

} // verus!
