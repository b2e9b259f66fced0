//! Arithmetic in GF(2^8), the field of bytes.
//!
//! A byte stands for a polynomial over GF(2), bit `i` being the coefficient of
//! `x^i`; products are reduced by `x^8 + x^4 + x^3 + x^2 + 1`. Addition is
//! bitwise exclusive or, so every element is its own negative.
use vstd::prelude::*;

verus! {

/// `a` times `x`.
pub open spec fn times_x(a: u8) -> u8 {
    (a << 1u8) ^ (if a & 0x80u8 != 0 { 0x1du8 } else { 0u8 })
}

/// `a` if bit `i` of `b` is set, else zero.
pub open spec fn pick(a: u8, b: u8, i: u8) -> u8 {
    if (b >> i) & 1u8 == 1u8 { a } else { 0u8 }
}

/// The product of two field elements: the sum of `a * x^i` over the set bits `i` of `b`.
#[verifier::opaque]
pub open spec fn gf_mul(a: u8, b: u8) -> u8 {
    let a1 = times_x(a);
    let a2 = times_x(a1);
    let a3 = times_x(a2);
    let a4 = times_x(a3);
    let a5 = times_x(a4);
    let a6 = times_x(a5);
    let a7 = times_x(a6);
    pick(a, b, 0) ^ pick(a1, b, 1) ^ pick(a2, b, 2) ^ pick(a3, b, 3) ^ pick(a4, b, 4) ^ pick(a5, b, 5)
        ^ pick(a6, b, 6) ^ pick(a7, b, 7)
}

pub proof fn lemma_mul_commutes(a: u8, b: u8)
    ensures
        gf_mul(a, b) == gf_mul(b, a),
{
    assert(gf_mul(a, b) == gf_mul(b, a)) by (bit_vector);
}

pub proof fn lemma_mul_distributes(a: u8, b: u8, c: u8)
    ensures
        gf_mul(a, b ^ c) == gf_mul(a, b) ^ gf_mul(a, c),
{
    assert(gf_mul(a, b ^ c) == gf_mul(a, b) ^ gf_mul(a, c)) by (bit_vector);
}

pub proof fn lemma_mul_times_x(a: u8, b: u8)
    ensures
        gf_mul(a, times_x(b)) == times_x(gf_mul(a, b)),
{
    assert(gf_mul(a, times_x(b)) == times_x(gf_mul(a, b))) by (bit_vector);
}

pub proof fn lemma_mul_units(a: u8)
    ensures
        gf_mul(a, 0) == 0,
        gf_mul(0, a) == 0,
        gf_mul(a, 1) == a,
        gf_mul(1, a) == a,
{
    assert(gf_mul(a, 0) == 0 && gf_mul(0, a) == 0 && gf_mul(a, 1) == a && gf_mul(1, a) == a)
        by (bit_vector);
}

/// Four squarings: `a` to the power 16.
pub open spec fn power_16(a: u8) -> u8 {
    let p2 = gf_mul(a, a);
    let p4 = gf_mul(p2, p2);
    let p8 = gf_mul(p4, p4);
    gf_mul(p8, p8)
}

/// `a` to the power 14.
pub open spec fn power_14(a: u8) -> u8 {
    let p2 = gf_mul(a, a);
    let p4 = gf_mul(p2, p2);
    let p8 = gf_mul(p4, p4);
    gf_mul(gf_mul(p2, p4), p8)
}

proof fn lemma_no_zero_divisors(a: u8, b: u8)
    requires
        gf_mul(a, b) == 0,
    ensures
        a == 0 || b == 0,
{
    assert(gf_mul(a, b) == 0 ==> a == 0 || b == 0) by (bit_vector);
}

/// `a^17` lies in the subfield of 16 elements.
proof fn lemma_norm_is_fixed(a: u8)
    ensures
        power_16(gf_mul(a, power_16(a))) == gf_mul(a, power_16(a)),
{
    let p2 = gf_mul(a, a);
    let p4 = gf_mul(p2, p2);
    let p8 = gf_mul(p4, p4);
    let p16 = gf_mul(p8, p8);
    let n = gf_mul(a, p16);
    let n2 = gf_mul(n, n);
    let n4 = gf_mul(n2, n2);
    let n8 = gf_mul(n4, n4);
    let n16 = gf_mul(n8, n8);
    assert(n16 == n) by (bit_vector)
        requires
            p2 == gf_mul(a, a),
            p4 == gf_mul(p2, p2),
            p8 == gf_mul(p4, p4),
            p16 == gf_mul(p8, p8),
            n == gf_mul(a, p16),
            n2 == gf_mul(n, n),
            n4 == gf_mul(n2, n2),
            n8 == gf_mul(n4, n4),
            n16 == gf_mul(n8, n8),
    ;
}

proof fn lemma_subfield_inverse(n: u8)
    requires
        n != 0,
        power_16(n) == n,
    ensures
        gf_mul(n, power_14(n)) == 1,
{
    let n2 = gf_mul(n, n);
    let n4 = gf_mul(n2, n2);
    let n8 = gf_mul(n4, n4);
    let n6 = gf_mul(n2, n4);
    let n14 = gf_mul(n6, n8);
    assert(gf_mul(n, n14) == 1) by (bit_vector)
        requires
            n != 0,
            n2 == gf_mul(n, n),
            n4 == gf_mul(n2, n2),
            n8 == gf_mul(n4, n4),
            gf_mul(n8, n8) == n,
            n6 == gf_mul(n2, n4),
            n14 == gf_mul(n6, n8),
    ;
}

/// `a` to the power 254: `a^16` times the inverse of `a^17` in the subfield of 16 elements.
pub open spec fn gf_inv(a: u8) -> u8 {
    gf_mul(power_16(a), power_14(gf_mul(a, power_16(a))))
}

/// Every nonzero element has an inverse.
pub proof fn lemma_inverse(a: u8)
    requires
        a != 0,
    ensures
        gf_mul(a, gf_inv(a)) == 1,
        gf_inv(a) != 0,
{
    let p2 = gf_mul(a, a);
    let p4 = gf_mul(p2, p2);
    let p8 = gf_mul(p4, p4);
    let p16 = gf_mul(p8, p8);
    let n = gf_mul(a, p16);
    if n == 0 {
        lemma_no_zero_divisors(a, p16);
        lemma_no_zero_divisors(p8, p8);
        lemma_no_zero_divisors(p4, p4);
        lemma_no_zero_divisors(p2, p2);
        lemma_no_zero_divisors(a, a);
    }
    lemma_norm_is_fixed(a);
    lemma_subfield_inverse(n);
    lemma_mul_associates(a, p16, power_14(n));
    lemma_mul_units(a);
}

proof fn lemma_mul_pick(a: u8, t: u8, b: u8, i: u8)
    ensures
        gf_mul(a, pick(t, b, i)) == pick(gf_mul(a, t), b, i),
{
    lemma_mul_units(a);
}

/// Addition is a commutative group in which every element is its own negative.
pub proof fn lemma_sum(a: u8, b: u8, c: u8)
    ensures
        a ^ b == b ^ a,
        (a ^ b) ^ c == a ^ (b ^ c),
        a ^ 0 == a,
        0 ^ a == a,
        a ^ a == 0,
        (a ^ b) ^ b == a,
        a ^ b == 0 ==> a == b,
{
    assert(a ^ b == b ^ a && (a ^ b) ^ c == a ^ (b ^ c) && a ^ 0 == a && 0 ^ a == a && a ^ a == 0 && (a
        ^ b) ^ b == a && (a ^ b == 0 ==> a == b)) by (bit_vector);
}

/// The middle two of four summands trade places.
pub proof fn lemma_sum_swaps(a: u8, b: u8, c: u8, d: u8)
    ensures
        (a ^ b) ^ (c ^ d) == (a ^ c) ^ (b ^ d),
{
    assert((a ^ b) ^ (c ^ d) == (a ^ c) ^ (b ^ d)) by (bit_vector);
}

/// Multiplication is associative.
pub proof fn lemma_mul_associates(a: u8, b: u8, c: u8)
    ensures
        gf_mul(gf_mul(a, b), c) == gf_mul(a, gf_mul(b, c)),
{
    reveal(gf_mul);
    let b1 = times_x(b);
    let b2 = times_x(b1);
    let b3 = times_x(b2);
    let b4 = times_x(b3);
    let b5 = times_x(b4);
    let b6 = times_x(b5);
    let b7 = times_x(b6);
    lemma_mul_times_x(a, b);
    lemma_mul_times_x(a, b1);
    lemma_mul_times_x(a, b2);
    lemma_mul_times_x(a, b3);
    lemma_mul_times_x(a, b4);
    lemma_mul_times_x(a, b5);
    lemma_mul_times_x(a, b6);
    let t0 = pick(b, c, 0);
    let t1 = pick(b1, c, 1);
    let t2 = pick(b2, c, 2);
    let t3 = pick(b3, c, 3);
    let t4 = pick(b4, c, 4);
    let t5 = pick(b5, c, 5);
    let t6 = pick(b6, c, 6);
    let t7 = pick(b7, c, 7);
    lemma_mul_pick(a, b, c, 0);
    lemma_mul_pick(a, b1, c, 1);
    lemma_mul_pick(a, b2, c, 2);
    lemma_mul_pick(a, b3, c, 3);
    lemma_mul_pick(a, b4, c, 4);
    lemma_mul_pick(a, b5, c, 5);
    lemma_mul_pick(a, b6, c, 6);
    lemma_mul_pick(a, b7, c, 7);
    lemma_mul_distributes(a, t0, t1);
    lemma_mul_distributes(a, t0 ^ t1, t2);
    lemma_mul_distributes(a, t0 ^ t1 ^ t2, t3);
    lemma_mul_distributes(a, t0 ^ t1 ^ t2 ^ t3, t4);
    lemma_mul_distributes(a, t0 ^ t1 ^ t2 ^ t3 ^ t4, t5);
    lemma_mul_distributes(a, t0 ^ t1 ^ t2 ^ t3 ^ t4 ^ t5, t6);
    lemma_mul_distributes(a, t0 ^ t1 ^ t2 ^ t3 ^ t4 ^ t5 ^ t6, t7);
}

/// `a` times `x`.
fn double(a: u8) -> (r: u8)
    ensures
        r == times_x(a),
{
    (a << 1u8) ^ (if a & 0x80u8 != 0 { 0x1du8 } else { 0u8 })
}

/// `a` if bit `i` of `b` is set, else zero.
fn select(a: u8, b: u8, i: u8) -> (r: u8)
    requires
        i < 8,
    ensures
        r == pick(a, b, i),
{
    if (b >> i) & 1u8 == 1u8 { a } else { 0u8 }
}

/// The product of two field elements.
pub fn product(a: u8, b: u8) -> (r: u8)
    ensures
        r == gf_mul(a, b),
{
    reveal(gf_mul);
    let a1: u8 = double(a);
    let a2: u8 = double(a1);
    let a3: u8 = double(a2);
    let a4: u8 = double(a3);
    let a5: u8 = double(a4);
    let a6: u8 = double(a5);
    let a7: u8 = double(a6);
    select(a, b, 0) ^ select(a1, b, 1) ^ select(a2, b, 2) ^ select(a3, b, 3) ^ select(a4, b, 4)
        ^ select(a5, b, 5) ^ select(a6, b, 6) ^ select(a7, b, 7)
}

/// The inverse of a nonzero element.
pub fn inv(a: u8) -> (r: u8)
    requires
        a != 0,
    ensures
        r == gf_inv(a),
        gf_mul(a, r) == 1,
{
    let p2: u8 = product(a, a);
    let p4: u8 = product(p2, p2);
    let p8: u8 = product(p4, p4);
    let p16: u8 = product(p8, p8);
    let n: u8 = product(a, p16);
    let n2: u8 = product(n, n);
    let n4: u8 = product(n2, n2);
    let n8: u8 = product(n4, n4);
    let n14: u8 = product(product(n2, n4), n8);
    proof {
        lemma_inverse(a);
    }
    product(p16, n14)
}

/// `d + c * s`, byte by byte.
pub open spec fn plus_scaled(d: Seq<u8>, c: u8, s: Seq<u8>) -> Seq<u8> {
    Seq::new(d.len(), |j: int| d[j] ^ gf_mul(c, s[j]))
}

/// `c * s`, byte by byte.
pub open spec fn scaled(c: u8, s: Seq<u8>) -> Seq<u8> {
    Seq::new(s.len(), |j: int| gf_mul(c, s[j]))
}

/// Adds `c * src` to `dst`.
pub fn axpy(dst: &mut Vec<u8>, c: u8, src: &[u8])
    requires
        old(dst)@.len() == src@.len(),
    ensures
        final(dst)@ == plus_scaled(old(dst)@, c, src@),
{
    let n: usize = src.len();
    let ghost before = dst@;
    let mut j: usize = 0;
    while j < n
        invariant
            j <= n,
            n == src@.len(),
            dst@.len() == n,
            before.len() == n,
            forall|i: int| 0 <= i < j ==> dst@[i] == before[i] ^ gf_mul(c, src@[i]),
            forall|i: int| j <= i < n ==> dst@[i] == before[i],
        decreases n - j,
    {
        let v: u8 = dst[j] ^ product(c, src[j]);
        dst.set(j, v);
        j += 1;
    }
    assert(dst@ =~= plus_scaled(before, c, src@));
}

/// Multiplies every byte of `row` by `c`.
pub fn scal_inplace(row: &mut Vec<u8>, c: u8)
    ensures
        final(row)@ == scaled(c, old(row)@),
{
    let n: usize = row.len();
    let ghost before = row@;
    let mut j: usize = 0;
    while j < n
        invariant
            j <= n,
            row@.len() == n,
            before.len() == n,
            forall|i: int| 0 <= i < j ==> row@[i] == gf_mul(c, before[i]),
            forall|i: int| j <= i < n ==> row@[i] == before[i],
        decreases n - j,
    {
        let v: u8 = product(c, row[j]);
        row.set(j, v);
        j += 1;
    }
    assert(row@ =~= scaled(c, before));
}

/// Twice a byte is the byte shifted up; what is carried out of it comes back as `0x1d`.
/// With `lemma_mul_distributes` and `lemma_mul_associates` this fixes every product.
pub proof fn doubling_reduces(a: u8)
    ensures
        gf_mul(a, 2) == (if a < 128 { (2 * a) as u8 } else { ((2 * a - 256) as u8) ^ 0x1du8 }),
{
    assert(gf_mul(a, 2) == (if a < 128 { (2 * a) as u8 } else { ((2 * a - 256) as u8) ^ 0x1du8 })) by (bit_vector);
}

/// Scaled sums, place by place: every place has its own byte of `d` plus `c` times its own
/// byte of `s`, and adding the same twice takes it away again.
pub proof fn scaled_sums_are_placewise(d: Seq<u8>, c: u8, s: Seq<u8>, j: int)
    requires
        d.len() == s.len(),
        0 <= j < d.len(),
    ensures
        plus_scaled(d, c, s).len() == d.len(),
        plus_scaled(d, c, s)[j] == d[j] ^ gf_mul(c, s[j]),
        scaled(c, s).len() == s.len(),
        scaled(c, s)[j] == gf_mul(c, s[j]),
        plus_scaled(plus_scaled(d, c, s), c, s) == d,
{
    assert forall|i: int| 0 <= i < d.len() implies (d[i] ^ gf_mul(c, s[i])) ^ gf_mul(c, s[i]) == d[i] by {
        lemma_sum(d[i], gf_mul(c, s[i]), 0);
    }
    assert(plus_scaled(plus_scaled(d, c, s), c, s) =~= d);
}

} // verus!
