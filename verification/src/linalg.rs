//! Linear algebra over the field of bytes: combinations, spans, independence and
//! reduced row echelon form.
//!
//! A vector is a sequence of bytes and a matrix a sequence of rows. Nothing here
//! runs: the module is the model that the coders are proved against.
use vstd::prelude::*;

use crate::gf256::{gf_inv, gf_mul, lemma_inverse, lemma_mul_associates, lemma_mul_commutes,
    lemma_mul_distributes, lemma_mul_units, lemma_sum, lemma_sum_swaps, plus_scaled, scaled};

verus! {

/// The sum over `i < n` of `c[i] * rows[i][j]`.
pub open spec fn dot(c: Seq<u8>, rows: Seq<Seq<u8>>, j: int, n: nat) -> u8
    decreases n,
{
    if n == 0 {
        0
    } else {
        dot(c, rows, j, (n - 1) as nat) ^ gf_mul(c[n - 1], rows[n - 1][j])
    }
}

/// The combination of `rows`, all `w` wide, with coefficients `c`.
pub open spec fn combo(c: Seq<u8>, rows: Seq<Seq<u8>>, w: nat) -> Seq<u8> {
    Seq::new(w, |j: int| dot(c, rows, j, rows.len()))
}

/// Every row is `w` wide.
pub open spec fn wide(rows: Seq<Seq<u8>>, w: nat) -> bool {
    forall|i: int| 0 <= i < rows.len() ==> (#[trigger] rows[i]).len() == w
}

/// `v` is some combination of `rows`.
pub open spec fn in_span(rows: Seq<Seq<u8>>, w: nat, v: Seq<u8>) -> bool {
    exists|c: Seq<u8>| c.len() == rows.len() && v == #[trigger] combo(c, rows, w)
}

/// Two sets of rows have the same combinations.
pub open spec fn same_span(a: Seq<Seq<u8>>, b: Seq<Seq<u8>>, w: nat) -> bool {
    forall|v: Seq<u8>| #[trigger] in_span(a, w, v) <==> in_span(b, w, v)
}

/// The zero vector.
pub open spec fn zeros(n: nat) -> Seq<u8> {
    Seq::new(n, |i: int| 0u8)
}

/// The vector with a one in place `i` and zeros elsewhere.
pub open spec fn unit(n: nat, i: int) -> Seq<u8> {
    Seq::new(n, |j: int| if j == i { 1u8 } else { 0u8 })
}

/// Only the trivial combination of `rows` vanishes.
pub open spec fn independent(rows: Seq<Seq<u8>>, w: nat) -> bool {
    forall|c: Seq<u8>|
        c.len() == rows.len() && #[trigger] combo(c, rows, w) == zeros(w) ==> c == zeros(rows.len())
}

/// The largest number of independent combinations of `rows` is `r`.
pub open spec fn has_rank(rows: Seq<Seq<u8>>, w: nat, r: nat) -> bool {
    exists|basis: Seq<Seq<u8>>|
        basis.len() == r && wide(basis, w) && #[trigger] independent(basis, w) && same_span(basis, rows, w)
}

/// The first `k` columns of each row.
pub open spec fn heads(rows: Seq<Seq<u8>>, k: nat) -> Seq<Seq<u8>> {
    Seq::new(rows.len(), |i: int| rows[i].take(k as int))
}

// ---------------------------------------------------------------------------
// Sums of products
// ---------------------------------------------------------------------------

pub proof fn lemma_dot_same(c: Seq<u8>, rows: Seq<Seq<u8>>, d: Seq<u8>, rows2: Seq<Seq<u8>>, j: int, j2: int, n: nat)
    requires
        forall|i: int| 0 <= i < n ==> #[trigger] c[i] == d[i],
        forall|i: int| 0 <= i < n ==> (#[trigger] rows[i])[j] == rows2[i][j2],
    ensures
        dot(c, rows, j, n) == dot(d, rows2, j2, n),
    decreases n,
{
    if n > 0 {
        lemma_dot_same(c, rows, d, rows2, j, j2, (n - 1) as nat);
        assert(rows[n - 1][j] == rows2[n - 1][j2]);
    }
}

/// `dot` is additive in its coefficients.
pub proof fn lemma_dot_adds(c: Seq<u8>, s: u8, d: Seq<u8>, rows: Seq<Seq<u8>>, j: int, n: nat)
    requires
        n <= c.len(),
        c.len() == d.len(),
    ensures
        dot(plus_scaled(c, s, d), rows, j, n) == dot(c, rows, j, n) ^ gf_mul(s, dot(d, rows, j, n)),
    decreases n,
{
    lemma_mul_units(s);
    if n == 0 {
        lemma_sum(0, 0, 0);
    } else {
        let m = (n - 1) as nat;
        lemma_dot_adds(c, s, d, rows, j, m);
        let x = rows[n - 1][j];
        let e = plus_scaled(c, s, d);
        // (c + s d) x = c x + s (d x)
        lemma_mul_commutes(e[n - 1], x);
        lemma_mul_distributes(x, c[n - 1], gf_mul(s, d[n - 1]));
        lemma_mul_commutes(x, c[n - 1]);
        lemma_mul_commutes(x, gf_mul(s, d[n - 1]));
        lemma_mul_associates(s, d[n - 1], x);
        lemma_sum_swaps(dot(c, rows, j, m), gf_mul(s, dot(d, rows, j, m)), gf_mul(c[n - 1], x),
            gf_mul(s, gf_mul(d[n - 1], x)));
        lemma_mul_distributes(s, dot(d, rows, j, m), gf_mul(d[n - 1], x));
    }
}

/// A sum without a nonzero term is zero.
pub proof fn lemma_dot_vanishes(c: Seq<u8>, rows: Seq<Seq<u8>>, j: int, n: nat)
    requires
        forall|i: int| 0 <= i < n ==> c[i] == 0 || (#[trigger] rows[i])[j] == 0,
    ensures
        dot(c, rows, j, n) == 0,
    decreases n,
{
    if n > 0 {
        lemma_dot_vanishes(c, rows, j, (n - 1) as nat);
        assert(c[n - 1] == 0 || rows[n - 1][j] == 0);
        lemma_mul_units(c[n - 1]);
        lemma_mul_units(rows[n - 1][j]);
        lemma_sum(0, 0, 0);
    }
}

/// A sum with at most one nonzero term is that term.
pub proof fn lemma_dot_single(c: Seq<u8>, rows: Seq<Seq<u8>>, j: int, n: nat, p: int)
    requires
        0 <= p < n,
        forall|i: int| 0 <= i < n && i != p ==> c[i] == 0 || (#[trigger] rows[i])[j] == 0,
    ensures
        dot(c, rows, j, n) == gf_mul(c[p], rows[p][j]),
    decreases n,
{
    let m = (n - 1) as nat;
    if p == m {
        lemma_dot_vanishes(c, rows, j, m);
        lemma_sum(gf_mul(c[p], rows[p][j]), 0, 0);
    } else {
        lemma_dot_single(c, rows, j, m, p);
        assert(c[n - 1] == 0 || rows[n - 1][j] == 0);
        lemma_mul_units(c[n - 1]);
        lemma_mul_units(rows[n - 1][j]);
        lemma_sum(gf_mul(c[p], rows[p][j]), 0, 0);
    }
}

/// Changing one coefficient from zero adds one term.
pub proof fn lemma_dot_insert(c: Seq<u8>, rows: Seq<Seq<u8>>, j: int, n: nat, p: int, x: u8)
    requires
        0 <= p < n <= c.len(),
        c[p] == 0,
    ensures
        dot(c.update(p, x), rows, j, n) == dot(c, rows, j, n) ^ gf_mul(x, rows[p][j]),
    decreases n,
{
    let m = (n - 1) as nat;
    let d = c.update(p, x);
    if p == m {
        lemma_dot_same(d, rows, c, rows, j, j, m);
        lemma_mul_units(rows[p][j]);
        lemma_sum(dot(c, rows, j, m), 0, 0);
    } else {
        lemma_dot_insert(c, rows, j, m, p, x);
        let t = gf_mul(x, rows[p][j]);
        let u = gf_mul(c[n - 1], rows[n - 1][j]);
        lemma_sum(dot(c, rows, j, m), t, u);
        lemma_sum(t, u, 0);
        lemma_sum(dot(c, rows, j, m), u, t);
    }
}

// ---------------------------------------------------------------------------
// Spans
// ---------------------------------------------------------------------------

/// A row lies in the span.
pub proof fn lemma_member_in_span(rows: Seq<Seq<u8>>, w: nat, i: int)
    requires
        wide(rows, w),
        0 <= i < rows.len(),
    ensures
        in_span(rows, w, rows[i]),
{
    let c = unit(rows.len(), i);
    assert forall|j: int| 0 <= j < w implies dot(c, rows, j, rows.len()) == rows[i][j] by {
        lemma_dot_single(c, rows, j, rows.len(), i);
        lemma_mul_units(rows[i][j]);
    }
    assert(rows[i] =~= combo(c, rows, w));
}

pub proof fn lemma_zero_in_span(rows: Seq<Seq<u8>>, w: nat)
    ensures
        in_span(rows, w, zeros(w)),
{
    let c = zeros(rows.len());
    assert forall|j: int| 0 <= j < w implies dot(c, rows, j, rows.len()) == 0 by {
        lemma_dot_vanishes(c, rows, j, rows.len());
    }
    assert(zeros(w) =~= combo(c, rows, w));
}

/// The combination of a sum of coefficients is the sum of the combinations.
pub proof fn lemma_combo_adds(rows: Seq<Seq<u8>>, w: nat, c: Seq<u8>, s: u8, d: Seq<u8>)
    requires
        c.len() == rows.len(),
        d.len() == rows.len(),
    ensures
        combo(plus_scaled(c, s, d), rows, w) == plus_scaled(combo(c, rows, w), s, combo(d, rows, w)),
{
    assert forall|j: int| 0 <= j < w implies dot(plus_scaled(c, s, d), rows, j, rows.len())
        == plus_scaled(combo(c, rows, w), s, combo(d, rows, w))[j] by {
        lemma_dot_adds(c, s, d, rows, j, rows.len());
    }
    assert(combo(plus_scaled(c, s, d), rows, w) =~= plus_scaled(combo(c, rows, w), s, combo(d, rows, w)));
}

/// A span is closed under `u + s * v`.
pub proof fn lemma_span_closed(rows: Seq<Seq<u8>>, w: nat, u: Seq<u8>, s: u8, v: Seq<u8>)
    requires
        in_span(rows, w, u),
        in_span(rows, w, v),
    ensures
        in_span(rows, w, plus_scaled(u, s, v)),
{
    let c = choose|c: Seq<u8>| c.len() == rows.len() && u == #[trigger] combo(c, rows, w);
    let d = choose|d: Seq<u8>| d.len() == rows.len() && v == #[trigger] combo(d, rows, w);
    lemma_combo_adds(rows, w, c, s, d);
    assert(plus_scaled(u, s, v) == combo(plus_scaled(c, s, d), rows, w));
}

pub proof fn lemma_span_scales(rows: Seq<Seq<u8>>, w: nat, s: u8, v: Seq<u8>)
    requires
        in_span(rows, w, v),
    ensures
        in_span(rows, w, scaled(s, v)),
{
    lemma_zero_in_span(rows, w);
    lemma_span_closed(rows, w, zeros(w), s, v);
    assert forall|j: int| 0 <= j < w implies 0u8 ^ gf_mul(s, v[j]) == gf_mul(s, v[j]) by {
        lemma_sum(gf_mul(s, v[j]), 0, 0);
    }
    assert(plus_scaled(zeros(w), s, v) =~= scaled(s, v));
}

proof fn lemma_partial_in_span(a: Seq<Seq<u8>>, b: Seq<Seq<u8>>, w: nat, c: Seq<u8>, n: nat)
    requires
        wide(a, w),
        n <= a.len(),
        forall|i: int| 0 <= i < a.len() ==> in_span(b, w, #[trigger] a[i]),
    ensures
        in_span(b, w, Seq::new(w, |j: int| dot(c, a, j, n))),
    decreases n,
{
    let v = Seq::new(w, |j: int| dot(c, a, j, n));
    if n == 0 {
        lemma_zero_in_span(b, w);
        assert(v =~= zeros(w));
    } else {
        let m = (n - 1) as nat;
        let u = Seq::new(w, |j: int| dot(c, a, j, m));
        lemma_partial_in_span(a, b, w, c, m);
        assert(in_span(b, w, a[n - 1]));
        lemma_span_closed(b, w, u, c[n - 1], a[n - 1]);
        assert(v =~= plus_scaled(u, c[n - 1], a[n - 1]));
    }
}

/// If every row of `a` is a combination of `b`, so is every combination of `a`.
pub proof fn lemma_span_within(a: Seq<Seq<u8>>, b: Seq<Seq<u8>>, w: nat, v: Seq<u8>)
    requires
        wide(a, w),
        forall|i: int| 0 <= i < a.len() ==> in_span(b, w, #[trigger] a[i]),
        in_span(a, w, v),
    ensures
        in_span(b, w, v),
{
    let c = choose|c: Seq<u8>| c.len() == a.len() && v == #[trigger] combo(c, a, w);
    lemma_partial_in_span(a, b, w, c, a.len());
    assert(v =~= Seq::new(w, |j: int| dot(c, a, j, a.len())));
}

/// Two sets of rows that are combinations of each other have the same span.
pub proof fn lemma_same_span(a: Seq<Seq<u8>>, b: Seq<Seq<u8>>, w: nat)
    requires
        wide(a, w),
        wide(b, w),
        forall|i: int| 0 <= i < a.len() ==> in_span(b, w, #[trigger] a[i]),
        forall|i: int| 0 <= i < b.len() ==> in_span(a, w, #[trigger] b[i]),
    ensures
        same_span(a, b, w),
{
    assert forall|v: Seq<u8>| #[trigger] in_span(a, w, v) <==> in_span(b, w, v) by {
        if in_span(a, w, v) {
            lemma_span_within(a, b, w, v);
        }
        if in_span(b, w, v) {
            lemma_span_within(b, a, w, v);
        }
    }
}

/// Adding a row keeps what was spanned.
pub proof fn lemma_span_grows(rows: Seq<Seq<u8>>, w: nat, r: Seq<u8>, v: Seq<u8>)
    requires
        wide(rows, w),
        r.len() == w,
        in_span(rows, w, v),
    ensures
        in_span(rows.push(r), w, v),
{
    let more = rows.push(r);
    assert forall|i: int| 0 <= i < rows.len() implies in_span(more, w, #[trigger] rows[i]) by {
        lemma_member_in_span(more, w, i);
        assert(more[i] == rows[i]);
    }
    lemma_span_within(rows, more, w, v);
}

/// Adding a row to two sets of the same span keeps them so.
pub proof fn lemma_same_span_push(a: Seq<Seq<u8>>, b: Seq<Seq<u8>>, w: nat, r: Seq<u8>)
    requires
        wide(a, w),
        wide(b, w),
        r.len() == w,
        same_span(a, b, w),
    ensures
        same_span(a.push(r), b.push(r), w),
{
    let a2 = a.push(r);
    let b2 = b.push(r);
    assert forall|i: int| 0 <= i < a2.len() implies in_span(b2, w, #[trigger] a2[i]) by {
        if i < a.len() {
            lemma_member_in_span(a, w, i);
            lemma_span_grows(b, w, r, a[i]);
        } else {
            lemma_member_in_span(b2, w, b.len() as int);
        }
    }
    assert forall|i: int| 0 <= i < b2.len() implies in_span(a2, w, #[trigger] b2[i]) by {
        if i < b.len() {
            lemma_member_in_span(b, w, i);
            lemma_span_grows(a, w, r, b[i]);
        } else {
            lemma_member_in_span(a2, w, a.len() as int);
        }
    }
    lemma_same_span(a2, b2, w);
}

/// The first columns of a combination are the combination of the first columns.
pub proof fn lemma_head_of_combo(rows: Seq<Seq<u8>>, w: nat, k: nat, c: Seq<u8>)
    requires
        wide(rows, w),
        k <= w,
        c.len() == rows.len(),
    ensures
        combo(c, rows, w).take(k as int) == combo(c, heads(rows, k), k),
{
    assert forall|j: int| 0 <= j < k implies dot(c, rows, j, rows.len()) == dot(c, heads(rows, k), j, rows.len()) by {
        lemma_dot_same(c, rows, c, heads(rows, k), j, j, rows.len());
    }
    assert(combo(c, rows, w).take(k as int) =~= combo(c, heads(rows, k), k));
}

pub proof fn lemma_head_in_span(rows: Seq<Seq<u8>>, w: nat, k: nat, v: Seq<u8>)
    requires
        wide(rows, w),
        k <= w,
        in_span(rows, w, v),
    ensures
        in_span(heads(rows, k), k, v.take(k as int)),
{
    let c = choose|c: Seq<u8>| c.len() == rows.len() && v == #[trigger] combo(c, rows, w);
    lemma_head_of_combo(rows, w, k, c);
}

/// Rows of the same span have first columns of the same span.
pub proof fn lemma_heads_same_span(a: Seq<Seq<u8>>, b: Seq<Seq<u8>>, w: nat, k: nat)
    requires
        wide(a, w),
        wide(b, w),
        k <= w,
        same_span(a, b, w),
    ensures
        same_span(heads(a, k), heads(b, k), k),
{
    let ha = heads(a, k);
    let hb = heads(b, k);
    assert forall|i: int| 0 <= i < ha.len() implies in_span(hb, k, #[trigger] ha[i]) by {
        lemma_member_in_span(a, w, i);
        lemma_head_in_span(b, w, k, a[i]);
    }
    assert forall|i: int| 0 <= i < hb.len() implies in_span(ha, k, #[trigger] hb[i]) by {
        lemma_member_in_span(b, w, i);
        lemma_head_in_span(a, w, k, b[i]);
    }
    lemma_same_span(ha, hb, k);
}

// ---------------------------------------------------------------------------
// Reduced row echelon form
// ---------------------------------------------------------------------------

/// `rows` are in reduced row echelon form, up to their order, on the first `k`
/// columns: `pivots[i]` is the first nonzero column of row `i`, holds a one there,
/// and holds a zero in every other row.
pub open spec fn echelon(rows: Seq<Seq<u8>>, pivots: Seq<int>, k: nat) -> bool {
    &&& pivots.len() == rows.len()
    &&& forall|i: int| 0 <= i < rows.len() ==> 0 <= #[trigger] pivots[i] < k
    &&& forall|i: int, p: int|
        0 <= i < rows.len() && 0 <= p < rows.len() ==> (#[trigger] rows[i])[#[trigger] pivots[p]] == (if i == p {
            1u8
        } else {
            0u8
        })
    &&& forall|i: int, j: int|
        0 <= i < rows.len() && 0 <= j < pivots[i] ==> #[trigger] rows[i][j] == 0
}

/// The entries of `v` in the pivot columns.
pub open spec fn at_pivots(v: Seq<u8>, pivots: Seq<int>) -> Seq<u8> {
    Seq::new(pivots.len(), |i: int| v[pivots[i]])
}

/// `v` with every pivot column cleared: `v` less the sum of `v[pivots[i]] * rows[i]`.
pub open spec fn reduced(v: Seq<u8>, rows: Seq<Seq<u8>>, pivots: Seq<int>) -> Seq<u8> {
    Seq::new(v.len(), |j: int| v[j] ^ dot(at_pivots(v, pivots), rows, j, rows.len()))
}

/// `rows` with column `p` cleared by `by`, which has a one there.
pub open spec fn cleared(rows: Seq<Seq<u8>>, by: Seq<u8>, p: int) -> Seq<Seq<u8>> {
    Seq::new(rows.len(), |i: int| plus_scaled(rows[i], rows[i][p], by))
}

/// `p` is the first nonzero entry among the first `k` of `v`.
pub open spec fn leads(v: Seq<u8>, k: nat, p: int) -> bool {
    &&& 0 <= p < k
    &&& v[p] != 0
    &&& forall|j: int| 0 <= j < p ==> #[trigger] v[j] == 0
}

/// In echelon form the coefficients of a combination stand in its pivot columns.
pub proof fn lemma_echelon_coefficients(rows: Seq<Seq<u8>>, pivots: Seq<int>, k: nat, c: Seq<u8>, i: int, n: nat)
    requires
        echelon(rows, pivots, k),
        c.len() == rows.len(),
        0 <= i < rows.len(),
        n <= rows.len(),
    ensures
        dot(c, rows, pivots[i], n) == (if i < n { c[i] } else { 0u8 }),
{
    assert forall|m: int| 0 <= m < n && m != i implies c[m] == 0 || (#[trigger] rows[m])[pivots[i]] == 0 by {}
    if i < n {
        lemma_dot_single(c, rows, pivots[i], n, i);
        assert(rows[i][pivots[i]] == 1);
        lemma_mul_units(c[i]);
    } else {
        lemma_dot_vanishes(c, rows, pivots[i], n);
    }
}

/// Rows in echelon form are independent.
pub proof fn lemma_echelon_independent(rows: Seq<Seq<u8>>, pivots: Seq<int>, k: nat)
    requires
        echelon(rows, pivots, k),
    ensures
        independent(rows, k),
{
    assert forall|c: Seq<u8>| c.len() == rows.len() && #[trigger] combo(c, rows, k) == zeros(k) implies c == zeros(
        rows.len()) by {
        assert forall|i: int| 0 <= i < rows.len() implies c[i] == 0 by {
            lemma_echelon_coefficients(rows, pivots, k, c, i, rows.len());
            assert(combo(c, rows, k)[pivots[i]] == zeros(k)[pivots[i]]);
        }
        assert(c =~= zeros(rows.len()));
    }
}

/// A vector spanned by echelon rows is the combination that its pivot entries name.
pub proof fn lemma_echelon_spanned(rows: Seq<Seq<u8>>, pivots: Seq<int>, k: nat, w: nat, v: Seq<u8>)
    requires
        echelon(rows, pivots, k),
        k <= w,
        in_span(rows, w, v),
    ensures
        v == combo(at_pivots(v, pivots), rows, w),
{
    let c = choose|c: Seq<u8>| c.len() == rows.len() && v == #[trigger] combo(c, rows, w);
    assert forall|i: int| 0 <= i < rows.len() implies c[i] == v[pivots[i]] by {
        lemma_echelon_coefficients(rows, pivots, k, c, i, rows.len());
        assert(0 <= pivots[i] < k);
    }
    assert(c =~= at_pivots(v, pivots));
}

/// The first columns of echelon rows are in echelon form.
pub proof fn lemma_echelon_heads(rows: Seq<Seq<u8>>, pivots: Seq<int>, k: nat, w: nat)
    requires
        echelon(rows, pivots, k),
        wide(rows, w),
        k <= w,
    ensures
        echelon(heads(rows, k), pivots, k),
{
    let h = heads(rows, k);
    assert forall|i: int, p: int| 0 <= i < h.len() && 0 <= p < h.len() implies (#[trigger] h[i])[#[trigger] pivots[p]]
        == (if i == p { 1u8 } else { 0u8 }) by {
        assert(rows[i].len() == w);
        assert(0 <= pivots[p] < k);
        assert(rows[i][pivots[p]] == (if i == p { 1u8 } else { 0u8 }));
    }
    assert forall|i: int, j: int| 0 <= i < h.len() && 0 <= j < pivots[i] implies #[trigger] h[i][j] == 0 by {
        assert(rows[i].len() == w);
        assert(pivots[i] < k);
        assert(rows[i][j] == 0);
    }
}

/// Reduction subtracts a combination of the rows, and clears the pivot columns.
pub proof fn lemma_reduced(v: Seq<u8>, rows: Seq<Seq<u8>>, pivots: Seq<int>, k: nat, w: nat)
    requires
        echelon(rows, pivots, k),
        wide(rows, w),
        k <= w,
        v.len() == w,
    ensures
        reduced(v, rows, pivots) == plus_scaled(v, 1, combo(at_pivots(v, pivots), rows, w)),
        forall|i: int| 0 <= i < rows.len() ==> reduced(v, rows, pivots)[#[trigger] pivots[i]] == 0,
{
    let c = at_pivots(v, pivots);
    let r = reduced(v, rows, pivots);
    assert forall|j: int| 0 <= j < w implies r[j] == plus_scaled(v, 1, combo(c, rows, w))[j] by {
        lemma_mul_units(dot(c, rows, j, rows.len()));
    }
    assert(r =~= plus_scaled(v, 1, combo(c, rows, w)));
    assert forall|i: int| 0 <= i < rows.len() implies r[#[trigger] pivots[i]] == 0 by {
        lemma_echelon_coefficients(rows, pivots, k, c, i, rows.len());
        lemma_sum(v[pivots[i]], 0, 0);
    }
}

/// A vector whose first columns reduce to zero has its first columns in the span.
pub proof fn lemma_reduced_to_zero(v: Seq<u8>, rows: Seq<Seq<u8>>, pivots: Seq<int>, k: nat, w: nat)
    requires
        echelon(rows, pivots, k),
        wide(rows, w),
        k <= w,
        v.len() == w,
    ensures
        in_span(heads(rows, k), k, v.take(k as int)) <==> (forall|j: int|
            0 <= j < k ==> #[trigger] reduced(v, rows, pivots)[j] == 0),
{
    let c = at_pivots(v, pivots);
    let h = heads(rows, k);
    let head = v.take(k as int);
    let r = reduced(v, rows, pivots);
    lemma_head_of_combo(rows, w, k, c);
    assert forall|j: int| 0 <= j < k implies dot(c, rows, j, rows.len()) == #[trigger] combo(c, h, k)[j] by {
        assert(combo(c, rows, w).take(k as int)[j] == dot(c, rows, j, rows.len()));
    }
    if forall|j: int| 0 <= j < k ==> #[trigger] r[j] == 0 {
        assert forall|j: int| 0 <= j < k implies head[j] == combo(c, h, k)[j] by {
            assert(r[j] == 0);
            assert(dot(c, rows, j, rows.len()) == combo(c, h, k)[j]);
            lemma_sum(v[j], dot(c, rows, j, rows.len()), 0);
        }
        assert(head =~= combo(c, h, k));
    }
    if in_span(h, k, head) {
        lemma_echelon_heads(rows, pivots, k, w);
        lemma_echelon_spanned(h, pivots, k, k, head);
        assert forall|i: int| 0 <= i < rows.len() implies head[pivots[i]] == v[pivots[i]] by {
            assert(0 <= pivots[i] < k);
        }
        assert(at_pivots(head, pivots) =~= c);
        assert forall|j: int| 0 <= j < k implies #[trigger] r[j] == 0 by {
            assert(head[j] == combo(c, h, k)[j]);
            assert(dot(c, rows, j, rows.len()) == combo(c, h, k)[j]);
            lemma_sum(v[j], 0, 0);
        }
    }
}

/// The echelon rows with one more vector worked in: `v` reduced and scaled to a
/// leading one in column `p`, and that column cleared from the others.
pub open spec fn extended(rows: Seq<Seq<u8>>, pivots: Seq<int>, v: Seq<u8>, p: int) -> Seq<Seq<u8>> {
    let r = reduced(v, rows, pivots);
    let norm = scaled(gf_inv(r[p]), r);
    cleared(rows, norm, p).push(norm)
}

/// Working in a vector keeps echelon form.
pub proof fn lemma_extended_echelon(rows: Seq<Seq<u8>>, pivots: Seq<int>, k: nat, w: nat, v: Seq<u8>, p: int)
    requires
        echelon(rows, pivots, k),
        wide(rows, w),
        k <= w,
        v.len() == w,
        leads(reduced(v, rows, pivots), k, p),
    ensures
        echelon(extended(rows, pivots, v, p), pivots.push(p), k),
        wide(extended(rows, pivots, v, p), w),
{
    let r = reduced(v, rows, pivots);
    let f = gf_inv(r[p]);
    let norm = scaled(f, r);
    let new = extended(rows, pivots, v, p);
    let np = pivots.push(p);
    let n = rows.len();
    lemma_reduced(v, rows, pivots, k, w);
    lemma_inverse(r[p]);
    lemma_mul_commutes(f, r[p]);
    lemma_mul_units(f);
    assert(norm[p] == 1);
    assert forall|i: int| 0 <= i < n implies norm[#[trigger] pivots[i]] == 0 by {
        assert(r[pivots[i]] == 0);
        assert(0 <= pivots[i] < k);
    }
    assert forall|j: int| 0 <= j < p implies #[trigger] norm[j] == 0 by {
        assert(r[j] == 0);
    }
    assert forall|i: int, q: int| 0 <= i < new.len() && 0 <= q < new.len() implies (#[trigger] new[i])[#[trigger] np[q]]
        == (if i == q { 1u8 } else { 0u8 }) by {
        if i < n {
            let x = rows[i][p];
            assert(rows[i].len() == w);
            lemma_mul_units(x);
            if q < n {
                assert(0 <= pivots[q] < k);
                assert(norm[pivots[q]] == 0);
                assert(rows[i][pivots[q]] == (if i == q { 1u8 } else { 0u8 }));
                lemma_sum(rows[i][pivots[q]], 0, 0);
            } else {
                lemma_sum(x, 0, 0);
            }
        } else if q < n {
            assert(norm[pivots[q]] == 0);
        }
    }
    assert forall|i: int, j: int| 0 <= i < new.len() && 0 <= j < np[i] implies #[trigger] new[i][j] == 0 by {
        if i < n {
            let x = rows[i][p];
            assert(rows[i].len() == w);
            assert(pivots[i] < k);
            assert(rows[i][j] == 0);
            lemma_mul_units(x);
            lemma_sum(0, 0, 0);
            if p <= j {
                assert(rows[i][p] == 0);
                lemma_mul_units(norm[j]);
            } else {
                assert(norm[j] == 0);
            }
        } else {
            assert(norm[j] == 0);
        }
    }
    assert forall|i: int| 0 <= i < new.len() implies (#[trigger] new[i]).len() == w by {
        if i < n {
            assert(rows[i].len() == w);
        }
    }
    assert forall|i: int| 0 <= i < new.len() implies 0 <= #[trigger] np[i] < k by {
        if i < n {
            assert(0 <= pivots[i] < k);
        }
    }
}

/// Adding a multiple twice changes nothing.
pub proof fn lemma_plus_scaled_twice(u: Seq<u8>, x: u8, v: Seq<u8>)
    ensures
        plus_scaled(plus_scaled(u, x, v), x, v) == u,
{
    assert forall|j: int| 0 <= j < u.len() implies (u[j] ^ gf_mul(x, v[j])) ^ gf_mul(x, v[j]) == u[j] by {
        lemma_sum(u[j], gf_mul(x, v[j]), 0);
    }
    assert(plus_scaled(plus_scaled(u, x, v), x, v) =~= u);
}

/// Scaling by a nonzero factor is undone by its inverse.
pub proof fn lemma_scaled_back(x: u8, v: Seq<u8>)
    requires
        x != 0,
    ensures
        scaled(x, scaled(gf_inv(x), v)) == v,
{
    lemma_inverse(x);
    assert forall|j: int| 0 <= j < v.len() implies gf_mul(x, gf_mul(gf_inv(x), v[j])) == v[j] by {
        lemma_mul_associates(x, gf_inv(x), v[j]);
        lemma_mul_units(v[j]);
    }
    assert(scaled(x, scaled(gf_inv(x), v)) =~= v);
}

/// Working in a vector spans what the rows and the vector span.
pub proof fn lemma_extended_span(rows: Seq<Seq<u8>>, pivots: Seq<int>, k: nat, w: nat, v: Seq<u8>, p: int)
    requires
        echelon(rows, pivots, k),
        wide(rows, w),
        k <= w,
        v.len() == w,
        leads(reduced(v, rows, pivots), k, p),
    ensures
        same_span(extended(rows, pivots, v, p), rows.push(v), w),
{
    let r = reduced(v, rows, pivots);
    let f = gf_inv(r[p]);
    let norm = scaled(f, r);
    let new = extended(rows, pivots, v, p);
    let all = rows.push(v);
    let n = rows.len();
    let part = combo(at_pivots(v, pivots), rows, w);
    lemma_reduced(v, rows, pivots, k, w);
    lemma_extended_echelon(rows, pivots, k, w, v, p);
    assert(in_span(rows, w, part));

    // The new rows are combinations of the old ones and `v`.
    lemma_member_in_span(all, w, n as int);
    lemma_span_grows(rows, w, v, part);
    lemma_span_closed(all, w, v, 1, part);
    lemma_span_scales(all, w, f, r);
    assert forall|i: int| 0 <= i < new.len() implies in_span(all, w, #[trigger] new[i]) by {
        if i < n {
            lemma_member_in_span(all, w, i);
            assert(all[i] == rows[i]);
            lemma_span_closed(all, w, rows[i], rows[i][p], norm);
        }
    }

    // The old rows and `v` are combinations of the new ones.
    lemma_member_in_span(new, w, n as int);
    assert forall|i: int| 0 <= i < n implies in_span(new, w, #[trigger] rows[i]) by {
        lemma_member_in_span(new, w, i);
        lemma_span_closed(new, w, new[i], rows[i][p], norm);
        lemma_plus_scaled_twice(rows[i], rows[i][p], norm);
    }
    lemma_span_within(rows, new, w, part);
    lemma_span_scales(new, w, r[p], norm);
    lemma_scaled_back(r[p], r);
    lemma_span_closed(new, w, r, 1, part);
    lemma_plus_scaled_twice(v, 1, part);
    assert forall|i: int| 0 <= i < all.len() implies in_span(new, w, #[trigger] all[i]) by {
        if i < n {
            assert(all[i] == rows[i]);
        }
    }
    lemma_same_span(new, all, w);
}

/// Distinct indices below `k` are at most `k`, and with `k` of them none is left out.
pub proof fn lemma_indices_fit(at: Seq<int>, k: nat)
    requires
        at.no_duplicates(),
        forall|i: int| 0 <= i < at.len() ==> 0 <= #[trigger] at[i] < k,
    ensures
        at.len() <= k,
        at.len() == k ==> forall|j: int| 0 <= j < k ==> #[trigger] at.contains(j),
{
    let all = vstd::set_lib::set_int_range(0, k as int);
    at.unique_seq_to_set();
    vstd::set_lib::lemma_int_range(0, k as int);
    assert forall|x: int| at.to_set().contains(x) implies all.contains(x) by {
        let i = choose|i: int| 0 <= i < at.len() && at[i] == x;
        assert(0 <= at[i] < k);
    }
    vstd::set_lib::lemma_len_subset(at.to_set(), all);
    if at.len() == k {
        vstd::set_lib::lemma_subset_equality(at.to_set(), all);
        assert forall|j: int| 0 <= j < k implies #[trigger] at.contains(j) by {
            assert(all.contains(j));
            assert(at.to_set().contains(j));
        }
    }
}

/// Echelon form has at most `k` rows; with `k` of them every column is a pivot.
pub proof fn lemma_pivots_fit(rows: Seq<Seq<u8>>, pivots: Seq<int>, k: nat)
    requires
        echelon(rows, pivots, k),
    ensures
        pivots.no_duplicates(),
        rows.len() <= k,
        rows.len() == k ==> forall|j: int| 0 <= j < k ==> #[trigger] pivots.contains(j),
{
    assert forall|i: int, q: int| 0 <= i < pivots.len() && 0 <= q < pivots.len() && i != q implies pivots[i] != pivots[q] by {
        assert(rows[i][pivots[i]] == 1);
        assert(rows[i][pivots[q]] == 0);
    }
    lemma_indices_fit(pivots, k);
}

// ---------------------------------------------------------------------------
// Dimension
// ---------------------------------------------------------------------------

/// A vector with a nonzero entry among the first `k` has a first one.
pub proof fn lemma_leading_entry(v: Seq<u8>, k: nat, j: int) -> (p: int)
    requires
        0 <= j < k,
        v[j] != 0,
    ensures
        leads(v, k, p),
    decreases j,
{
    if exists|i: int| 0 <= i < j && #[trigger] v[i] != 0 {
        let i = choose|i: int| 0 <= i < j && #[trigger] v[i] != 0;
        lemma_leading_entry(v, k, i)
    } else {
        j
    }
}

/// Fewer rows of an independent set are independent, and do not span the last one.
proof fn lemma_independent_parts(vs: Seq<Seq<u8>>, w: nat)
    requires
        wide(vs, w),
        vs.len() > 0,
        independent(vs, w),
    ensures
        independent(vs.drop_last(), w),
        !in_span(vs.drop_last(), w, vs.last()),
{
    let us = vs.drop_last();
    let m = us.len();
    assert forall|c: Seq<u8>| c.len() == us.len() && #[trigger] combo(c, us, w) == zeros(w) implies c == zeros(us.len()) by {
        let d = c.push(0);
        assert forall|j: int| 0 <= j < w implies dot(d, vs, j, vs.len()) == 0 by {
            lemma_dot_same(d, vs, c, us, j, j, m);
            assert(combo(c, us, w)[j] == zeros(w)[j]);
            lemma_mul_units(vs[m as int][j]);
            lemma_sum(0, 0, 0);
        }
        assert(combo(d, vs, w) =~= zeros(w));
        assert forall|i: int| 0 <= i < m implies c[i] == 0 by {
            assert(d[i] == zeros(vs.len())[i]);
        }
        assert(c =~= zeros(us.len()));
    }
    if in_span(us, w, vs.last()) {
        let c = choose|c: Seq<u8>| c.len() == us.len() && vs.last() == #[trigger] combo(c, us, w);
        let d = c.push(1);
        assert forall|j: int| 0 <= j < w implies dot(d, vs, j, vs.len()) == 0 by {
            lemma_dot_same(d, vs, c, us, j, j, m);
            assert(vs.last()[j] == combo(c, us, w)[j]);
            lemma_mul_units(vs[m as int][j]);
            lemma_sum(vs[m as int][j], 0, 0);
        }
        assert(combo(d, vs, w) =~= zeros(w));
        assert(d[m as int] == zeros(vs.len())[m as int]);
    }
}

/// Independent vectors can be brought to echelon form without losing a row.
pub proof fn lemma_to_echelon(vs: Seq<Seq<u8>>, k: nat) -> (e: (Seq<Seq<u8>>, Seq<int>))
    requires
        wide(vs, k),
        independent(vs, k),
    ensures
        echelon(e.0, e.1, k),
        wide(e.0, k),
        e.0.len() == vs.len(),
        same_span(e.0, vs, k),
    decreases vs.len(),
{
    if vs.len() == 0 {
        let rows = Seq::<Seq<u8>>::empty();
        assert(vs =~= rows);
        (rows, Seq::<int>::empty())
    } else {
        let us = vs.drop_last();
        let v = vs.last();
        lemma_independent_parts(vs, k);
        let (rows, pivots) = lemma_to_echelon(us, k);
        assert forall|i: int| 0 <= i < rows.len() implies heads(rows, k)[i] == rows[i] by {
            assert(rows[i].len() == k);
            assert(rows[i].take(k as int) =~= rows[i]);
        }
        assert(heads(rows, k) =~= rows);
        assert(v.take(k as int) =~= v);
        assert(!in_span(rows, k, v));
        lemma_reduced_to_zero(v, rows, pivots, k, k);
        let r = reduced(v, rows, pivots);
        let j = choose|j: int| 0 <= j < k && #[trigger] r[j] != 0;
        let p = lemma_leading_entry(r, k, j);
        lemma_extended_echelon(rows, pivots, k, k, v, p);
        lemma_extended_span(rows, pivots, k, k, v, p);
        lemma_same_span_push(rows, us, k, v);
        assert(us.push(v) =~= vs);
        (extended(rows, pivots, v, p), pivots.push(p))
    }
}

/// Echelon rows with a pivot in every column span every vector.
pub proof fn lemma_full_echelon_spans(rows: Seq<Seq<u8>>, pivots: Seq<int>, k: nat, v: Seq<u8>)
    requires
        echelon(rows, pivots, k),
        rows.len() == k,
        v.len() == k,
    ensures
        in_span(rows, k, v),
{
    lemma_pivots_fit(rows, pivots, k);
    let c = at_pivots(v, pivots);
    assert forall|j: int| 0 <= j < k implies v[j] == dot(c, rows, j, rows.len()) by {
        assert(pivots.contains(j));
        let i = choose|i: int| 0 <= i < pivots.len() && pivots[i] == j;
        lemma_echelon_coefficients(rows, pivots, k, c, i, rows.len());
    }
    assert(v =~= combo(c, rows, k));
}

/// At most `k` vectors of length `k` are independent, and `k` such vectors span all.
pub proof fn lemma_independent_fits(vs: Seq<Seq<u8>>, k: nat)
    requires
        wide(vs, k),
        independent(vs, k),
    ensures
        vs.len() <= k,
        vs.len() == k ==> forall|v: Seq<u8>| v.len() == k ==> #[trigger] in_span(vs, k, v),
{
    let (rows, pivots) = lemma_to_echelon(vs, k);
    lemma_pivots_fit(rows, pivots, k);
    if vs.len() == k {
        assert forall|v: Seq<u8>| v.len() == k implies #[trigger] in_span(vs, k, v) by {
            lemma_full_echelon_spans(rows, pivots, k, v);
            assert(in_span(rows, k, v));
        }
    }
}

/// The coefficients that make `v` out of `rows`.
spec fn coordinates(rows: Seq<Seq<u8>>, w: nat, v: Seq<u8>) -> Seq<u8> {
    choose|c: Seq<u8>| c.len() == rows.len() && v == #[trigger] combo(c, rows, w)
}

/// A combination of combinations combines their coordinates.
pub proof fn lemma_nested(us: Seq<Seq<u8>>, xs: Seq<Seq<u8>>, vs: Seq<Seq<u8>>, w: nat, c: Seq<u8>, j: int, n: nat)
    requires
        us.len() == xs.len(),
        n <= us.len(),
        c.len() == us.len(),
        0 <= j < w,
        forall|i: int| 0 <= i < us.len() ==> (#[trigger] xs[i]).len() == vs.len() && us[i] == combo(xs[i], vs, w),
    ensures
        dot(c, us, j, n) == dot(Seq::new(vs.len(), |t: int| dot(c, xs, t, n)), vs, j, vs.len()),
    decreases n,
{
    let part = Seq::new(vs.len(), |t: int| dot(c, xs, t, n));
    if n == 0 {
        lemma_dot_vanishes(part, vs, j, vs.len());
    } else {
        let m = (n - 1) as nat;
        let before = Seq::new(vs.len(), |t: int| dot(c, xs, t, m));
        lemma_nested(us, xs, vs, w, c, j, m);
        let x = xs[n - 1];
        assert(x.len() == vs.len());
        assert(us[n - 1] == combo(x, vs, w));
        assert(us[n - 1][j] == dot(x, vs, j, vs.len()));
        lemma_dot_adds(before, c[n - 1], x, vs, j, vs.len());
        assert(part =~= plus_scaled(before, c[n - 1], x));
    }
}

/// Independent combinations of some rows are at most as many as the rows.
pub proof fn lemma_exchange(us: Seq<Seq<u8>>, vs: Seq<Seq<u8>>, w: nat)
    requires
        wide(us, w),
        wide(vs, w),
        independent(us, w),
        forall|i: int| 0 <= i < us.len() ==> in_span(vs, w, #[trigger] us[i]),
    ensures
        us.len() <= vs.len(),
{
    let xs = Seq::new(us.len(), |i: int| coordinates(vs, w, us[i]));
    let m = vs.len();
    assert forall|i: int| 0 <= i < us.len() implies (#[trigger] xs[i]).len() == m && us[i] == combo(xs[i], vs, w) by {
        assert(in_span(vs, w, us[i]));
    }
    assert forall|c: Seq<u8>| c.len() == xs.len() && #[trigger] combo(c, xs, m) == zeros(m) implies c == zeros(xs.len()) by {
        assert forall|j: int| 0 <= j < w implies dot(c, us, j, us.len()) == 0 by {
            lemma_nested(us, xs, vs, w, c, j, us.len());
            assert(Seq::new(m, |t: int| dot(c, xs, t, us.len())) =~= combo(c, xs, m));
            lemma_dot_vanishes(combo(c, xs, m), vs, j, m);
        }
        assert(combo(c, us, w) =~= zeros(w));
    }
    lemma_independent_fits(xs, m);
}

/// A set of rows has one rank.
pub proof fn rank_is_unique(rows: Seq<Seq<u8>>, w: nat, a: nat, b: nat)
    requires
        has_rank(rows, w, a),
        has_rank(rows, w, b),
    ensures
        a == b,
{
    let s = choose|s: Seq<Seq<u8>>|
        s.len() == a && wide(s, w) && #[trigger] independent(s, w) && same_span(s, rows, w);
    let t = choose|t: Seq<Seq<u8>>|
        t.len() == b && wide(t, w) && #[trigger] independent(t, w) && same_span(t, rows, w);
    assert forall|i: int| 0 <= i < s.len() implies in_span(t, w, #[trigger] s[i]) by {
        lemma_member_in_span(s, w, i);
        assert(in_span(rows, w, s[i]));
    }
    assert forall|i: int| 0 <= i < t.len() implies in_span(s, w, #[trigger] t[i]) by {
        lemma_member_in_span(t, w, i);
        assert(in_span(rows, w, t[i]));
    }
    lemma_exchange(s, t, w);
    lemma_exchange(t, s, w);
}

// ---------------------------------------------------------------------------
// Systems of equations
// ---------------------------------------------------------------------------

/// The row `v`, coefficients first, is an equation that the unknowns `x`, each `s` bytes
/// long, satisfy.
pub open spec fn satisfies(x: Seq<Seq<u8>>, s: nat, v: Seq<u8>) -> bool {
    v.skip(x.len() as int) == combo(v.take(x.len() as int), x, s)
}

/// `x` is `k` unknowns of `s` bytes that satisfy every row.
pub open spec fn solves(x: Seq<Seq<u8>>, k: nat, s: nat, rows: Seq<Seq<u8>>) -> bool {
    &&& x.len() == k
    &&& wide(x, s)
    &&& forall|i: int| 0 <= i < rows.len() ==> satisfies(x, s, #[trigger] rows[i])
}

/// What satisfies the rows satisfies their combinations.
pub proof fn lemma_satisfies_span(x: Seq<Seq<u8>>, k: nat, s: nat, rows: Seq<Seq<u8>>, v: Seq<u8>)
    requires
        solves(x, k, s, rows),
        wide(rows, k + s),
        in_span(rows, k + s, v),
    ensures
        satisfies(x, s, v),
{
    let w = k + s;
    let n = rows.len();
    let c = choose|c: Seq<u8>| c.len() == rows.len() && v == #[trigger] combo(c, rows, w);
    let cs = heads(rows, k);
    let tails = Seq::new(n, |i: int| rows[i].skip(k as int));
    assert forall|i: int| 0 <= i < n implies (#[trigger] cs[i]).len() == k && tails[i] == combo(cs[i], x, s) by {
        assert(rows[i].len() == w);
        assert(satisfies(x, s, rows[i]));
    }
    let head = v.take(k as int);
    assert forall|t: int| 0 <= t < k implies head[t] == dot(c, cs, t, n) by {
        assert forall|i: int| 0 <= i < n implies (#[trigger] rows[i])[t] == cs[i][t] by {
            assert(rows[i].len() == w);
        }
        lemma_dot_same(c, rows, c, cs, t, t, n);
    }
    assert(head =~= Seq::new(k, |t: int| dot(c, cs, t, n)));
    assert forall|j: int| 0 <= j < s implies v.skip(k as int)[j] == combo(head, x, s)[j] by {
        assert forall|i: int| 0 <= i < n implies (#[trigger] rows[i])[k + j] == tails[i][j] by {
            assert(rows[i].len() == w);
        }
        lemma_dot_same(c, rows, c, tails, k + j, j, n);
        lemma_nested(tails, cs, x, s, c, j, n);
    }
    assert(v.skip(k as int) =~= combo(head, x, s));
}

/// The combination with unit coefficients is one row.
pub proof fn lemma_unit_combo(x: Seq<Seq<u8>>, s: nat, j: int)
    requires
        wide(x, s),
        0 <= j < x.len(),
    ensures
        combo(unit(x.len(), j), x, s) == x[j],
{
    let u = unit(x.len(), j);
    assert(x[j].len() == s);
    assert forall|t: int| 0 <= t < s implies combo(u, x, s)[t] == x[j][t] by {
        lemma_dot_single(u, x, t, x.len(), j);
        lemma_mul_units(x[j][t]);
    }
    assert(combo(u, x, s) =~= x[j]);
}

/// A system of full rank has at most one solution.
pub proof fn lemma_solution_unique(x: Seq<Seq<u8>>, y: Seq<Seq<u8>>, k: nat, s: nat, rows: Seq<Seq<u8>>)
    requires
        wide(rows, k + s),
        has_rank(heads(rows, k), k, k),
        solves(x, k, s, rows),
        solves(y, k, s, rows),
    ensures
        x == y,
{
    let h = heads(rows, k);
    let w = k + s;
    let basis = choose|b: Seq<Seq<u8>>|
        b.len() == k && wide(b, k) && #[trigger] independent(b, k) && same_span(b, h, k);
    lemma_independent_fits(basis, k);
    assert forall|j: int| 0 <= j < k implies x[j] == y[j] by {
        let u = unit(k, j);
        assert(in_span(basis, k, u));
        assert(in_span(h, k, u));
        let c = choose|c: Seq<u8>| c.len() == h.len() && u == #[trigger] combo(c, h, k);
        let v = combo(c, rows, w);
        lemma_head_of_combo(rows, w, k, c);
        assert(in_span(rows, w, v));
        lemma_satisfies_span(x, k, s, rows, v);
        lemma_satisfies_span(y, k, s, rows, v);
        lemma_unit_combo(x, s, j);
        lemma_unit_combo(y, s, j);
    }
    assert(x =~= y);
}

/// The leading entry is the first that is not zero, and there is one only.
pub proof fn leading_entry_is_the_first(v: Seq<u8>, k: nat, p: int, q: int)
    requires
        leads(v, k, p),
    ensures
        0 <= p < k,
        v[p] != 0,
        forall|j: int| 0 <= j < p ==> #[trigger] v[j] == 0,
        leads(v, k, q) ==> q == p,
{
}

/// What lies in a span, place by place: every place is the same combination of that place
/// of the rows.
pub proof fn span_is_of_combinations(rows: Seq<Seq<u8>>, w: nat, v: Seq<u8>)
    requires
        in_span(rows, w, v),
    ensures
        exists|c: Seq<u8>|
            #![trigger c.len()]
            {
                &&& c.len() == rows.len()
                &&& v.len() == w
                &&& forall|j: int|
                    0 <= j < w ==> #[trigger] v[j] == Seq::new(rows.len(), |i: int| gf_mul(c[i], rows[i][j])).fold_left(
                        0u8,
                        |a: u8, b: u8| a ^ b,
                    )
            },
{
    let c = choose|c: Seq<u8>| c.len() == rows.len() && v == #[trigger] combo(c, rows, w);
    assert forall|j: int| 0 <= j < w implies #[trigger] v[j] == Seq::new(rows.len(), |i: int| gf_mul(c[i], rows[i][j])).fold_left(
        0u8,
        |a: u8, b: u8| a ^ b,
    ) by {
        lemma_dot_is_fold(c, rows, j, rows.len());
    }
    assert(c.len() == rows.len());
}

/// A sum of products is the exclusive or of the products, one for each row.
pub proof fn lemma_dot_is_fold(c: Seq<u8>, rows: Seq<Seq<u8>>, j: int, n: nat)
    ensures
        dot(c, rows, j, n) == Seq::new(n, |i: int| gf_mul(c[i], rows[i][j])).fold_left(0u8, |a: u8, b: u8| a ^ b),
    decreases n,
{
    let terms = Seq::new(n, |i: int| gf_mul(c[i], rows[i][j]));
    reveal_with_fuel(Seq::fold_left, 2);
    if n > 0 {
        let m = (n - 1) as nat;
        lemma_dot_is_fold(c, rows, j, m);
        assert(terms.drop_last() =~= Seq::new(m, |i: int| gf_mul(c[i], rows[i][j])));
    }
}

} // verus!
