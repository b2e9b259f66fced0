//! The peeling decoder: solves a sparse linear system over the field of bytes.
//!
//! A row is an equation, `k` coefficients followed by a payload. While some equation
//! has one unknown left, that unknown is known and is put into the others; when none
//! has, one step of Gaussian elimination goes on where peeling stopped.
use vstd::prelude::*;
use vstd::slice::{slice_subrange, slice_to_vec};

use crate::gf256::{axpy, gf_inv, inv, lemma_inverse, lemma_mul_commutes, lemma_mul_units, lemma_sum, plus_scaled,
    scal_inplace, scaled};
use crate::linalg::{combo, has_rank, heads, in_span, independent, leads, lemma_dot_single,
    lemma_dot_vanishes, lemma_heads_same_span, lemma_independent_fits, lemma_indices_fit,
    lemma_member_in_span, lemma_plus_scaled_twice, lemma_same_span, lemma_satisfies_span, lemma_scaled_back,
    lemma_span_closed, lemma_span_scales, lemma_unit_combo, lemma_zero_in_span, same_span, satisfies, solves, unit,
    wide, zeros};
use crate::rlnc::decoder::first_nonzero;

verus! {

/// Why a system cannot be solved.
#[derive(Debug, PartialEq, Eq, Structural)]
pub enum FountainError {
    /// Fewer independent equations than unknowns.
    Underdetermined { have: usize, need: usize },
    /// The equations contradict each other.
    Inconsistent,
}

/// Row `done[t]` is the only one with an entry in column `cols[t]`, and that is a one.
spec fn peeled(m: Seq<Seq<u8>>, done: Seq<int>, cols: Seq<int>, k: nat) -> bool {
    &&& done.len() == cols.len()
    &&& done.no_duplicates()
    &&& forall|t: int| 0 <= t < done.len() ==> 0 <= #[trigger] done[t] < m.len()
    &&& forall|t: int| 0 <= t < cols.len() ==> 0 <= #[trigger] cols[t] < k
    &&& forall|i: int, t: int|
        0 <= i < m.len() && 0 <= t < cols.len() ==> (#[trigger] m[i])[#[trigger] cols[t]] == (if i == done[t] {
            1u8
        } else {
            0u8
        })
}

/// The rows after unknown `c` has been taken from row `i` and put into the others.
spec fn substituted(m: Seq<Seq<u8>>, i: int, c: int) -> Seq<Seq<u8>> {
    let norm = scaled(gf_inv(m[i][c]), m[i]);
    Seq::new(m.len(), |r: int| if r == i { norm } else { plus_scaled(m[r], m[r][c], norm) })
}

proof fn lemma_substituted(m: Seq<Seq<u8>>, done: Seq<int>, cols: Seq<int>, k: nat, w: nat, i: int, c: int)
    requires
        peeled(m, done, cols, k),
        wide(m, w),
        k <= w,
        0 <= i < m.len(),
        !done.contains(i),
        0 <= c < k,
        m[i][c] != 0,
    ensures
        peeled(substituted(m, i, c), done.push(i), cols.push(c), k),
        wide(substituted(m, i, c), w),
        same_span(substituted(m, i, c), m, w),
{
    let f = gf_inv(m[i][c]);
    let norm = scaled(f, m[i]);
    let n = substituted(m, i, c);
    let d2 = done.push(i);
    let c2 = cols.push(c);
    lemma_inverse(m[i][c]);
    lemma_mul_commutes(f, m[i][c]);
    lemma_mul_units(f);
    assert(m[i].len() == w);
    assert forall|r: int| 0 <= r < n.len() implies (#[trigger] n[r]).len() == w by {
        assert(m[r].len() == w);
    }
    assert forall|r: int, t: int| 0 <= r < n.len() && 0 <= t < c2.len() implies (#[trigger] n[r])[#[trigger] c2[t]]
        == (if r == d2[t] { 1u8 } else { 0u8 }) by {
        assert(m[r].len() == w);
        let x = m[r][c];
        lemma_mul_units(x);
        if t < cols.len() {
            assert(0 <= cols[t] < k);
            assert(done.contains(done[t]));
            assert(m[i][cols[t]] == 0);
            assert(norm[cols[t]] == 0);
            assert(m[r][cols[t]] == (if r == done[t] { 1u8 } else { 0u8 }));
            lemma_sum(m[r][cols[t]], 0, 0);
        } else {
            lemma_sum(x, 0, 0);
        }
    }
    assert forall|t: int| 0 <= t < d2.len() implies 0 <= #[trigger] d2[t] < n.len() by {
        if t < done.len() {
            assert(0 <= done[t] < m.len());
        }
    }
    assert forall|t: int| 0 <= t < c2.len() implies 0 <= #[trigger] c2[t] < k by {
        if t < cols.len() {
            assert(0 <= cols[t] < k);
        }
    }
    assert(d2.no_duplicates()) by {
        assert forall|a: int, b: int| 0 <= a < d2.len() && 0 <= b < d2.len() && a != b implies d2[a] != d2[b] by {
            if a < done.len() {
                assert(done.contains(done[a]));
            }
            if b < done.len() {
                assert(done.contains(done[b]));
            }
        }
    }

    lemma_member_in_span(m, w, i);
    lemma_span_scales(m, w, f, m[i]);
    assert forall|r: int| 0 <= r < n.len() implies in_span(m, w, #[trigger] n[r]) by {
        if r != i {
            lemma_member_in_span(m, w, r);
            lemma_span_closed(m, w, m[r], m[r][c], norm);
        }
    }
    lemma_member_in_span(n, w, i);
    lemma_span_scales(n, w, m[i][c], norm);
    lemma_scaled_back(m[i][c], m[i]);
    assert forall|r: int| 0 <= r < m.len() implies in_span(n, w, #[trigger] m[r]) by {
        if r != i {
            lemma_member_in_span(n, w, r);
            lemma_span_closed(n, w, n[r], m[r][c], norm);
            lemma_plus_scaled_twice(m[r], m[r][c], norm);
        }
    }
    lemma_same_span(n, m, w);
}

/// Rows of the same span have the same rank.
pub proof fn lemma_rank_carries(a: Seq<Seq<u8>>, b: Seq<Seq<u8>>, w: nat, r: nat)
    requires
        has_rank(a, w, r),
        same_span(a, b, w),
    ensures
        has_rank(b, w, r),
{
    let basis = choose|s: Seq<Seq<u8>>|
        s.len() == r && wide(s, w) && #[trigger] independent(s, w) && same_span(s, a, w);
    assert forall|v: Seq<u8>| #[trigger] in_span(basis, w, v) <==> in_span(b, w, v) by {
        assert(in_span(a, w, v) <==> in_span(b, w, v));
    }
}

/// The rows that unknowns were taken from.
spec fn taken(m: Seq<Seq<u8>>, done: Seq<int>) -> Seq<Seq<u8>> {
    Seq::new(done.len(), |t: int| m[done[t]])
}

/// Every row that no unknown was taken from has no coefficient left.
spec fn exhausted(m: Seq<Seq<u8>>, done: Seq<int>, k: nat) -> bool {
    forall|i: int| 0 <= i < m.len() && !done.contains(i) ==> (#[trigger] m[i]).take(k as int) == zeros(k)
}

/// When nothing is left to peel, the unknowns taken count the rank.
proof fn lemma_peeled_rank(m: Seq<Seq<u8>>, done: Seq<int>, cols: Seq<int>, k: nat, w: nat)
    requires
        peeled(m, done, cols, k),
        wide(m, w),
        k <= w,
        exhausted(m, done, k),
    ensures
        has_rank(heads(m, k), k, done.len()),
        done.len() <= k,
        done.len() == k ==> forall|j: int| 0 <= j < k ==> #[trigger] cols.contains(j),
{
    let e = heads(taken(m, done), k);
    let h = heads(m, k);
    let n = done.len();
    assert forall|t: int| 0 <= t < n implies (#[trigger] e[t]).len() == k && e[t] == h[done[t]] by {
        assert(0 <= done[t] < m.len());
        assert(m[done[t]].len() == w);
    }
    assert forall|i: int| 0 <= i < h.len() implies (#[trigger] h[i]).len() == k by {
        assert(m[i].len() == w);
    }
    assert forall|c: Seq<u8>| c.len() == e.len() && #[trigger] combo(c, e, k) == zeros(k) implies c == zeros(e.len()) by {
        assert forall|t: int| 0 <= t < n implies c[t] == 0 by {
            let j = cols[t];
            assert(0 <= j < k);
            assert forall|u: int| 0 <= u < n && u != t implies c[u] == 0 || (#[trigger] e[u])[j] == 0 by {
                assert(0 <= done[u] < m.len());
                assert(m[done[u]][cols[t]] == 0);
                assert(m[done[u]].len() == w);
            }
            assert(0 <= done[t] < m.len());
            assert(m[done[t]][cols[t]] == 1);
            assert(m[done[t]].len() == w);
            lemma_dot_single(c, e, j, n, t);
            lemma_mul_units(c[t]);
            assert(combo(c, e, k)[j] == zeros(k)[j]);
        }
        assert(c =~= zeros(e.len()));
    }
    assert forall|t: int| 0 <= t < e.len() implies in_span(h, k, #[trigger] e[t]) by {
        assert(0 <= done[t] < m.len());
        lemma_member_in_span(h, k, done[t]);
    }
    assert forall|i: int| 0 <= i < h.len() implies in_span(e, k, #[trigger] h[i]) by {
        if done.contains(i) {
            let t = choose|t: int| 0 <= t < done.len() && done[t] == i;
            lemma_member_in_span(e, k, t);
            assert(e[t] == h[i]);
        } else {
            assert(m[i].take(k as int) == zeros(k));
            lemma_zero_in_span(e, k);
        }
    }
    lemma_same_span(e, h, k);
    assert(independent(e, k));
    lemma_independent_fits(e, k);
    assert(cols.no_duplicates()) by {
        assert forall|a: int, b: int| 0 <= a < cols.len() && 0 <= b < cols.len() && a != b implies cols[a] != cols[b] by {
            assert(0 <= done[a] < m.len());
            assert(m[done[a]][cols[a]] == 1);
            assert(m[done[a]][cols[b]] == (if done[a] == done[b] { 1u8 } else { 0u8 }));
        }
    }
    lemma_indices_fit(cols, k);
}

/// When every unknown has been taken, a row that one was taken from holds that one alone.
proof fn lemma_peeled_unit(m: Seq<Seq<u8>>, done: Seq<int>, cols: Seq<int>, k: nat, w: nat, t: int)
    requires
        peeled(m, done, cols, k),
        wide(m, w),
        k <= w,
        forall|j: int| 0 <= j < k ==> #[trigger] cols.contains(j),
        0 <= t < done.len(),
    ensures
        m[done[t]].take(k as int) == unit(k, cols[t]),
{
    let r = m[done[t]];
    assert(0 <= done[t] < m.len());
    assert(r.len() == w);
    assert forall|j: int| 0 <= j < k implies r[j] == unit(k, cols[t])[j] by {
        assert(cols.contains(j));
        let u = choose|u: int| 0 <= u < cols.len() && cols[u] == j;
        assert(r[cols[u]] == (if done[t] == done[u] { 1u8 } else { 0u8 }));
        assert(r[cols[t]] == 1);
    }
    assert(r.take(k as int) =~= unit(k, cols[t]));
}

/// An equation without coefficients, of a system that has a solution, says nothing.
proof fn lemma_no_empty_equation(x: Seq<Seq<u8>>, k: nat, s: nat, m: Seq<Seq<u8>>, given: Seq<Seq<u8>>, i: int)
    requires
        solves(x, k, s, given),
        wide(given, k + s),
        wide(m, k + s),
        same_span(m, given, k + s),
        0 <= i < m.len(),
        m[i].take(k as int) == zeros(k),
    ensures
        m[i].skip(k as int) == zeros(s),
{
    lemma_member_in_span(m, k + s, i);
    assert(in_span(given, k + s, m[i]));
    lemma_satisfies_span(x, k, s, given, m[i]);
    assert forall|j: int| 0 <= j < s implies #[trigger] combo(zeros(k), x, s)[j] == 0 by {
        lemma_dot_vanishes(zeros(k), x, j, k);
    }
    assert(combo(zeros(k), x, s) =~= zeros(s));
}

/// The payloads of the rows that unknowns were taken from solve the system.
proof fn lemma_peeled_solves(
    x: Seq<Seq<u8>>,
    m: Seq<Seq<u8>>,
    given: Seq<Seq<u8>>,
    done: Seq<int>,
    cols: Seq<int>,
    k: nat,
    s: nat,
)
    requires
        x.len() == k,
        wide(x, s),
        wide(m, k + s),
        wide(given, k + s),
        same_span(m, given, k + s),
        peeled(m, done, cols, k),
        exhausted(m, done, k),
        done.len() == k,
        forall|j: int| 0 <= j < k ==> #[trigger] cols.contains(j),
        forall|t: int| 0 <= t < k ==> x[#[trigger] cols[t]] == m[done[t]].skip(k as int),
        forall|r: int, j: int| 0 <= r < m.len() && !done.contains(r) && k <= j < k + s ==> #[trigger] m[r][j] == 0,
    ensures
        solves(x, k, s, given),
{
    let w = k + s;
    assert forall|i: int| 0 <= i < m.len() implies satisfies(x, s, #[trigger] m[i]) by {
        assert(m[i].len() == w);
        if done.contains(i) {
            let t = choose|t: int| 0 <= t < done.len() && done[t] == i;
            lemma_peeled_unit(m, done, cols, k, w, t);
            assert(0 <= cols[t] < k);
            lemma_unit_combo(x, s, cols[t]);
        } else {
            assert(m[i].take(k as int) == zeros(k));
            assert forall|j: int| 0 <= j < s implies #[trigger] combo(zeros(k), x, s)[j] == 0 by {
                lemma_dot_vanishes(zeros(k), x, j, k);
            }
            assert forall|j: int| 0 <= j < s implies #[trigger] m[i].skip(k as int)[j] == 0 by {
                assert(m[i][k + j] == 0);
            }
            assert(m[i].skip(k as int) =~= combo(zeros(k), x, s));
        }
    }
    assert forall|i: int| 0 <= i < given.len() implies satisfies(x, s, #[trigger] given[i]) by {
        lemma_member_in_span(given, w, i);
        assert(in_span(m, w, given[i]) <==> in_span(given, w, given[i]));
        lemma_satisfies_span(x, k, s, m, given[i]);
    }
}

/// Some rows as sequences.
pub open spec fn rows_view(rows: Seq<Vec<u8>>) -> Seq<Seq<u8>> {
    Seq::new(rows.len(), |i: int| rows[i]@)
}

/// `row` has no coefficient after column `c`.
fn is_last(row: &Vec<u8>, k: usize, c: usize) -> (last: bool)
    requires
        c < k <= row@.len(),
    ensures
        last == forall|j: int| c < j < k ==> #[trigger] row@[j] == 0,
{
    let mut j: usize = c + 1;
    while j < k
        invariant
            c < j <= k,
            k <= row@.len(),
            forall|i: int| c < i < j ==> #[trigger] row@[i] == 0,
        decreases k - j,
    {
        if row[j] != 0 {
            return false;
        }
        j += 1;
    }
    true
}

/// The next row to take an unknown from, with the unknown: a row with one unknown left
/// if there is one, else any row with an unknown left.
fn next_row(rows: &Vec<Vec<u8>>, used: &Vec<bool>, k: usize) -> (at: Option<(usize, usize)>)
    requires
        used@.len() == rows@.len(),
        forall|i: int| 0 <= i < rows@.len() ==> k <= (#[trigger] rows@[i])@.len(),
    ensures
        match at {
            Some((i, c)) => i < rows@.len() && !used@[i as int] && leads(rows@[i as int]@, k as nat, c as int),
            None => forall|i: int, j: int|
                0 <= i < rows@.len() && !used@[i] && 0 <= j < k ==> #[trigger] rows@[i]@[j] == 0,
        },
{
    let mut fallback: Option<(usize, usize)> = None;
    let n: usize = rows.len();
    let mut i: usize = 0;
    while i < n
        invariant
            i <= n,
            n == rows@.len(),
            used@.len() == n,
            forall|m: int| 0 <= m < n ==> k <= (#[trigger] rows@[m])@.len(),
            match fallback {
                Some((m, c)) => m < n && !used@[m as int] && leads(rows@[m as int]@, k as nat, c as int),
                None => forall|m: int, j: int|
                    0 <= m < i && !used@[m] && 0 <= j < k ==> #[trigger] rows@[m]@[j] == 0,
            },
        decreases n - i,
    {
        if !used[i] {
            let head: &[u8] = slice_subrange(rows[i].as_slice(), 0, k);
            assert(forall|j: int| 0 <= j < k ==> #[trigger] rows@[i as int]@[j] == head@[j]);
            match first_nonzero(head) {
                Some(c) => {
                    if is_last(&rows[i], k, c) {
                        return Some((i, c));
                    }
                    if fallback.is_none() {
                        fallback = Some((i, c));
                    }
                },
                None => {},
            }
        }
        i += 1;
    }
    fallback
}

/// Takes unknown `c` from row `i` and puts it into the other rows.
fn substitute(rows: &mut Vec<Vec<u8>>, i: usize, c: usize, Ghost(w): Ghost<nat>)
    requires
        wide(rows_view(old(rows)@), w),
        i < old(rows)@.len(),
        c < w,
        old(rows)@[i as int]@[c as int] != 0,
    ensures
        final(rows)@.len() == old(rows)@.len(),
        rows_view(final(rows)@) == substituted(rows_view(old(rows)@), i as int, c as int),
{
    let ghost m = rows_view(rows@);
    let n: usize = rows.len();
    assert(m[i as int].len() == w);
    let f: u8 = inv(rows[i][c]);
    let mut norm: Vec<u8> = Vec::new();
    std::mem::swap(&mut norm, &mut rows[i]);
    scal_inplace(&mut norm, f);
    let mut r: usize = 0;
    while r < n
        invariant
            wide(m, w),
            c < w,
            i < n,
            r <= n,
            n == m.len(),
            rows@.len() == n,
            norm@ == scaled(gf_inv(m[i as int][c as int]), m[i as int]),
            norm@.len() == w,
            forall|q: int| 0 <= q < r && q != i ==> (#[trigger] rows@[q])@ == substituted(m, i as int, c as int)[q],
            forall|q: int| r <= q < n && q != i ==> (#[trigger] rows@[q])@ == m[q],
        decreases n - r,
    {
        if r != i {
            assert(m[r as int].len() == w);
            let x: u8 = rows[r][c];
            if x != 0 {
                axpy(&mut rows[r], x, norm.as_slice());
            } else {
                proof {
                    let v = m[r as int];
                    assert forall|j: int| 0 <= j < w implies v[j] == #[trigger] plus_scaled(v, x, norm@)[j] by {
                        lemma_mul_units(norm@[j]);
                        lemma_sum(v[j], 0, 0);
                    }
                    assert(v =~= plus_scaled(v, x, norm@));
                }
            }
        }
        r += 1;
    }
    rows.set(i, norm);
    assert(rows_view(rows@) =~= substituted(m, i as int, c as int));
}

/// Some byte of the payload of `row` is not zero.
fn has_payload(row: &Vec<u8>, k: usize) -> (some: bool)
    requires
        k <= row@.len(),
    ensures
        some == exists|j: int| k <= j < row@.len() && #[trigger] row@[j] != 0,
{
    let mut j: usize = k;
    while j < row.len()
        invariant
            k <= j <= row@.len(),
            forall|i: int| k <= i < j ==> #[trigger] row@[i] == 0,
        decreases row@.len() - j,
    {
        if row[j] != 0 {
            return true;
        }
        j += 1;
    }
    false
}

/// The solution of the rows, each `k` coefficients and a payload of `s` bytes.
pub fn peel_decode(rows: Vec<Vec<u8>>, k: usize, s: usize) -> (out: Result<Vec<Vec<u8>>, FountainError>)
    requires
        wide(rows_view(rows@), (k + s) as nat),
    ensures
        match out {
            Ok(x) => {
                &&& has_rank(heads(rows_view(rows@), k as nat), k as nat, k as nat)
                &&& solves(rows_view(x@), k as nat, s as nat, rows_view(rows@))
            },
            Err(FountainError::Underdetermined { have, need }) => {
                &&& has_rank(heads(rows_view(rows@), k as nat), k as nat, have as nat)
                &&& have < need
                &&& need == k
            },
            Err(FountainError::Inconsistent) => {
                &&& has_rank(heads(rows_view(rows@), k as nat), k as nat, k as nat)
                &&& forall|x: Seq<Seq<u8>>| !#[trigger] solves(x, k as nat, s as nat, rows_view(rows@))
            },
        },
{
    let ghost given = rows_view(rows@);
    let ghost w = (k + s) as nat;
    let n: usize = rows.len();
    let mut work: Vec<Vec<u8>> = rows;
    let mut used: Vec<bool> = vec![false; n];
    let mut done: Vec<usize> = Vec::new();
    let mut cols: Vec<usize> = Vec::new();
    let ghost mut d: Seq<int> = Seq::empty();
    let ghost mut c: Seq<int> = Seq::empty();
    assert forall|i: int| 0 <= i < n implies k <= (#[trigger] work@[i])@.len() by {
        assert(given[i].len() == w);
    }
    let mut next: Option<(usize, usize)> = next_row(&work, &used, k);
    while next.is_some()
        invariant
            n == work@.len(),
            w == k + s,
            wide(rows_view(work@), w),
            same_span(rows_view(work@), given, w),
            peeled(rows_view(work@), d, c, k as nat),
            done@.len() == d.len(),
            cols@.len() == c.len(),
            forall|t: int| 0 <= t < d.len() ==> #[trigger] done@[t] == d[t],
            forall|t: int| 0 <= t < c.len() ==> #[trigger] cols@[t] == c[t],
            used@.len() == n,
            forall|i: int| 0 <= i < n ==> #[trigger] used@[i] == d.contains(i),
            d.len() <= n,
            match next {
                Some((i, q)) => i < n && !used@[i as int] && leads(work@[i as int]@, k as nat, q as int),
                None => forall|i: int, j: int|
                    0 <= i < n && !used@[i] && 0 <= j < k ==> #[trigger] work@[i]@[j] == 0,
            },
        decreases n - d.len(),
    {
        let (i, q): (usize, usize) = next.unwrap();
        proof {
            lemma_substituted(rows_view(work@), d, c, k as nat, w, i as int, q as int);
        }
        let ghost d0 = d;
        substitute(&mut work, i, q, Ghost(w));
        used.set(i, true);
        done.push(i);
        cols.push(q);
        proof {
            d = d0.push(i as int);
            c = c.push(q as int);
            lemma_indices_fit(d, n as nat);
            assert forall|r: int| 0 <= r < n implies #[trigger] used@[r] == d.contains(r) by {
                assert(d[d0.len() as int] == i);
                if d0.contains(r) {
                    let t = choose|t: int| 0 <= t < d0.len() && d0[t] == r;
                    assert(d[t] == r);
                }
            }
        }
        assert forall|r: int| 0 <= r < n implies k <= (#[trigger] work@[r])@.len() by {
            assert(rows_view(work@)[r].len() == w);
        }
        next = next_row(&work, &used, k);
    }
    let ghost m = rows_view(work@);
    proof {
        assert forall|i: int| 0 <= i < m.len() && !d.contains(i) implies (#[trigger] m[i]).take(k as int) == zeros(k as nat) by {
            assert(m[i].len() == w);
            assert(!used@[i]);
            assert forall|j: int| 0 <= j < k implies m[i][j] == 0 by {
                assert(work@[i]@[j] == 0);
            }
            assert(m[i].take(k as int) =~= zeros(k as nat));
        }
        lemma_peeled_rank(m, d, c, k as nat, w);
        lemma_heads_same_span(m, given, w, k as nat);
        lemma_rank_carries(heads(m, k as nat), heads(given, k as nat), k as nat, d.len());
    }
    if done.len() < k {
        return Err(FountainError::Underdetermined { have: done.len(), need: k });
    }
    let mut i: usize = 0;
    while i < n
        invariant
            i <= n,
            n == work@.len(),
            w == k + s,
            m == rows_view(work@),
            wide(m, w),
            wide(given, w),
            given == rows_view(rows@),
            same_span(m, given, w),
            exhausted(m, d, k as nat),
            used@.len() == n,
            has_rank(heads(given, k as nat), k as nat, k as nat),
            forall|r: int| 0 <= r < n ==> #[trigger] used@[r] == d.contains(r),
            forall|r: int, j: int| 0 <= r < i && !d.contains(r) && k <= j < w ==> #[trigger] m[r][j] == 0,
        decreases n - i,
    {
        assert(m[i as int].len() == w);
        if !used[i] && has_payload(&work[i], k) {
            proof {
                assert forall|x: Seq<Seq<u8>>| !#[trigger] solves(x, k as nat, s as nat, given) by {
                    if solves(x, k as nat, s as nat, given) {
                        lemma_no_empty_equation(x, k as nat, s as nat, m, given, i as int);
                        let j = choose|j: int| k <= j < w && #[trigger] m[i as int][j] != 0;
                        assert(m[i as int].skip(k as int)[j - k] == zeros(s as nat)[j - k]);
                    }
                }
            }
            return Err(FountainError::Inconsistent);
        }
        i += 1;
    }
    let mut out: Vec<Vec<u8>> = Vec::with_capacity(k);
    i = 0;
    while i < k
        invariant
            i <= k,
            out@.len() == i,
            forall|j: int| 0 <= j < i ==> (#[trigger] out@[j])@.len() == s,
        decreases k - i,
    {
        out.push(vec![0u8; s]);
        i += 1;
    }
    i = 0;
    while i < k
        invariant
            i <= k,
            n == work@.len(),
            w == k + s,
            m == rows_view(work@),
            wide(m, w),
            peeled(m, d, c, k as nat),
            d.len() == k,
            done@.len() == d.len(),
            cols@.len() == c.len(),
            forall|t: int| 0 <= t < d.len() ==> #[trigger] done@[t] == d[t],
            forall|t: int| 0 <= t < c.len() ==> #[trigger] cols@[t] == c[t],
            out@.len() == k,
            forall|j: int| 0 <= j < k ==> (#[trigger] out@[j])@.len() == s,
            forall|t: int| 0 <= t < i ==> out@[#[trigger] c[t]]@ == m[d[t]].skip(k as int),
        decreases k - i,
    {
        let from: usize = done[i];
        let to: usize = cols[i];
        assert(d[i as int] == from && c[i as int] == to);
        assert(m[from as int].len() == w);
        let payload: Vec<u8> = slice_to_vec(slice_subrange(work[from].as_slice(), k, work[from].len()));
        assert(payload@ =~= m[from as int].skip(k as int));
        proof {
            assert forall|t: int| 0 <= t < i implies #[trigger] c[t] != to by {
                assert(m[from as int][c[i as int]] == 1);
                assert(m[from as int][c[t]] == (if from == d[t] { 1u8 } else { 0u8 }));
            }
        }
        out.set(to, payload);
        i += 1;
    }
    proof {
        lemma_peeled_solves(rows_view(out@), m, given, d, c, k as nat, s as nat);
    }
    Ok(out)
}

} // verus!
