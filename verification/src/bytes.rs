//! Little-endian integers and fixed-size identifiers.
use vstd::prelude::*;

verus! {

/// The number that bytes stand for, least significant byte first.
pub open spec fn le_value(s: Seq<u8>) -> nat
    decreases s.len(),
{
    if s.len() == 0 {
        0
    } else {
        s[0] as nat + 256 * le_value(s.drop_first())
    }
}

/// The `n` least significant bytes of `x`, least significant first.
pub open spec fn le_bytes(x: nat, n: nat) -> Seq<u8>
    decreases n,
{
    if n == 0 {
        Seq::empty()
    } else {
        seq![(x % 256) as u8] + le_bytes(x / 256, (n - 1) as nat)
    }
}

/// 256 to the power `n`.
pub open spec fn pow256(n: nat) -> nat
    decreases n,
{
    if n == 0 {
        1
    } else {
        256 * pow256((n - 1) as nat)
    }
}

pub proof fn lemma_pow256_values()
    ensures
        pow256(4) == 0x1_0000_0000,
        pow256(16) == 0x1_0000_0000_0000_0000_0000_0000_0000_0000,
{
    reveal_with_fuel(pow256, 17);
}

proof fn lemma_pow256_grows(m: nat, n: nat)
    requires
        m <= n,
    ensures
        1 <= pow256(m) <= pow256(n),
    decreases n,
{
    if m < n {
        lemma_pow256_grows(m, (n - 1) as nat);
    } else if n > 0 {
        lemma_pow256_grows((n - 1) as nat, (n - 1) as nat);
    }
}

pub proof fn lemma_le_value_bound(s: Seq<u8>)
    ensures
        le_value(s) < pow256(s.len()),
    decreases s.len(),
{
    if s.len() > 0 {
        lemma_le_value_bound(s.drop_first());
    }
}

/// Writing `n` bytes and reading them back gives the number, if it fits.
pub proof fn lemma_le_value_of_bytes(x: nat, n: nat)
    requires
        x < pow256(n),
    ensures
        le_bytes(x, n).len() == n,
        le_value(le_bytes(x, n)) == x,
    decreases n,
{
    if n > 0 {
        let rest = le_bytes(x / 256, (n - 1) as nat);
        lemma_le_value_of_bytes(x / 256, (n - 1) as nat);
        assert(le_bytes(x, n).drop_first() =~= rest);
    }
}

/// Reading bytes and writing the number back gives the bytes.
pub proof fn lemma_le_bytes_of_value(s: Seq<u8>)
    ensures
        le_bytes(le_value(s), s.len()) == s,
    decreases s.len(),
{
    if s.len() > 0 {
        let rest = s.drop_first();
        lemma_le_bytes_of_value(rest);
        let v = le_value(s);
        assert(v % 256 == s[0] && v / 256 == le_value(rest));
        assert(le_bytes(v, s.len()) =~= s);
    } else {
        assert(le_bytes(le_value(s), s.len()) =~= s);
    }
}

pub proof fn lemma_le_bytes_len(x: nat, n: nat)
    ensures
        le_bytes(x, n).len() == n,
    decreases n,
{
    if n > 0 {
        lemma_le_bytes_len(x / 256, (n - 1) as nat);
    }
}

/// The number that at most 16 bytes stand for.
pub fn read_le(s: &[u8]) -> (x: u128)
    requires
        s@.len() <= 16,
    ensures
        x == le_value(s@),
{
    let mut x: u128 = 0;
    let mut i: usize = s.len();
    assert(s@.skip(i as int) =~= Seq::<u8>::empty());
    while i > 0
        invariant
            i <= s@.len() <= 16,
            x == le_value(s@.skip(i as int)),
        decreases i,
    {
        i -= 1;
        let ghost tail = s@.skip(i as int);
        assert(tail.drop_first() =~= s@.skip(i + 1));
        proof {
            lemma_le_value_bound(tail);
            lemma_pow256_grows(tail.len(), 16);
            lemma_pow256_values();
        }
        x = x * 256 + s[i] as u128;
    }
    assert(s@.skip(0) =~= s@);
    x
}

/// Appends the `n` least significant bytes of `x`.
pub fn write_le(out: &mut Vec<u8>, x: u128, n: usize)
    ensures
        final(out)@ == old(out)@ + le_bytes(x as nat, n as nat),
{
    let ghost before = out@;
    let mut rest: u128 = x;
    let mut i: usize = 0;
    assert(before + le_bytes(x as nat, n as nat) =~= out@ + le_bytes(rest as nat, n as nat));
    while i < n
        invariant
            i <= n,
            before + le_bytes(x as nat, n as nat) == out@ + le_bytes(rest as nat, (n - i) as nat),
        decreases n - i,
    {
        let ghost tail = le_bytes(rest as nat, (n - i) as nat);
        let ghost sofar = out@;
        let b: u8 = (rest % 256) as u8;
        out.push(b);
        rest = rest / 256;
        assert(sofar + tail =~= out@ + le_bytes(rest as nat, (n - i - 1) as nat));
        i += 1;
    }
    assert(out@ + le_bytes(rest as nat, 0) =~= out@);
}

/// A content address: the hash of a block.
pub type BlockId = [u8; 32];

/// The rolling hash of a session's block ids.
pub type MerkleRoot = [u8; 32];

/// Whether two identifiers are the same.
pub fn same_bytes(a: &[u8; 32], b: &[u8; 32]) -> (same: bool)
    ensures
        same == (a == b),
{
    let mut i: usize = 0;
    while i < 32
        invariant
            i <= 32,
            forall|j: int| 0 <= j < i ==> a@[j] == b@[j],
        decreases 32 - i,
    {
        if a[i] != b[i] {
            return false;
        }
        i += 1;
    }
    assert(*a =~= *b);
    true
}

/// The root of a session without blocks.
pub const ROOT_ZERO: [u8; 32] = [0, 0, 0, 0, 0, 0, 0, 0, 0, 0, 0, 0, 0, 0, 0, 0, 0, 0, 0, 0, 0, 0, 0, 0, 0, 0, 0, 0, 0, 0, 0, 0];

/// The identifier that 32 bytes stand for.
pub fn to_id(s: &[u8]) -> (id: BlockId)
    requires
        s@.len() == 32,
    ensures
        id@ == s@,
{
    let mut id: BlockId = ROOT_ZERO;
    let mut i: usize = 0;
    while i < 32
        invariant
            i <= 32,
            s@.len() == 32,
            forall|j: int| 0 <= j < i ==> id@[j] == s@[j],
        decreases 32 - i,
    {
        id[i] = s[i];
        i += 1;
    }
    assert(id@ =~= s@);
    id
}

/// The two halves of an identifier, each as a number.
pub open spec fn halves(id: BlockId) -> (u128, u128) {
    (le_value(id@.take(16)) as u128, le_value(id@.skip(16)) as u128)
}

proof fn lemma_halves_fit(id: BlockId)
    ensures
        halves(id).0 == le_value(id@.take(16)),
        halves(id).1 == le_value(id@.skip(16)),
{
    lemma_le_value_bound(id@.take(16));
    lemma_le_value_bound(id@.skip(16));
    lemma_pow256_values();
}

/// Identifiers with the same halves are the same.
pub proof fn lemma_halves_injective(a: BlockId, b: BlockId)
    requires
        halves(a) == halves(b),
    ensures
        a == b,
{
    lemma_halves_fit(a);
    lemma_halves_fit(b);
    lemma_le_bytes_of_value(a@.take(16));
    lemma_le_bytes_of_value(b@.take(16));
    lemma_le_bytes_of_value(a@.skip(16));
    lemma_le_bytes_of_value(b@.skip(16));
    assert(a@ =~= a@.take(16) + a@.skip(16));
    assert(b@ =~= b@.take(16) + b@.skip(16));
    assert(a =~= b);
}

/// The two halves of an identifier.
pub fn split_id(id: &BlockId) -> (h: (u128, u128))
    ensures
        h == halves(*id),
{
    let s: &[u8] = vstd::array::array_as_slice(id);
    let lo: u128 = read_le(vstd::slice::slice_subrange(s, 0, 16));
    let hi: u128 = read_le(vstd::slice::slice_subrange(s, 16, 32));
    assert(s@.subrange(0, 16) =~= id@.take(16));
    assert(s@.subrange(16, 32) =~= id@.skip(16));
    (lo, hi)
}

/// A copy of some identifiers.
pub fn copy_ids(ids: &Vec<BlockId>) -> (copy: Vec<BlockId>)
    ensures
        copy@ == ids@,
{
    let mut copy: Vec<BlockId> = Vec::with_capacity(ids.len());
    let mut i: usize = 0;
    while i < ids.len()
        invariant
            i <= ids@.len(),
            copy@ == ids@.take(i as int),
        decreases ids@.len() - i,
    {
        copy.push(ids[i]);
        assert(copy@ =~= ids@.take(i + 1));
        i += 1;
    }
    assert(ids@.take(i as int) =~= ids@);
    copy
}

/// Numbers in little-endian order: one byte stands for itself, and bytes further along
/// weigh a power of 256 more.
pub proof fn bytes_weigh_by_their_place(b: u8, s: Seq<u8>, t: Seq<u8>)
    ensures
        le_value(Seq::empty()) == 0,
        le_value(seq![b]) == b,
        le_value(s + t) == le_value(s) + vstd::arithmetic::power::pow(256, s.len()) * le_value(t),
    decreases s.len(),
{
    reveal_with_fuel(le_value, 2);
    reveal(vstd::arithmetic::power::pow);
    if s.len() == 0 {
        assert(s + t =~= t);
    } else {
        bytes_weigh_by_their_place(b, s.drop_first(), t);
        assert((s + t).drop_first() =~= s.drop_first() + t);
        let p = vstd::arithmetic::power::pow(256, s.drop_first().len());
        assert(256 * (p * le_value(t)) == (256 * p) * le_value(t)) by (nonlinear_arith);
    }
}

/// Byte `i` of a number is the number over `256^i`, modulo 256; what does not fit is cut
/// off, and what fits is read back.
pub proof fn number_bytes_by_place(x: nat, n: nat, i: nat)
    requires
        i < n,
    ensures
        le_bytes(x, n).len() == n,
        le_bytes(x, n)[i as int] as int == (x as int / vstd::arithmetic::power::pow(256, i)) % 256,
        x < vstd::arithmetic::power::pow(256, n) ==> le_value(le_bytes(x, n)) == x,
    decreases n,
{
    reveal(vstd::arithmetic::power::pow);
    lemma_le_bytes_len(x, n);
    lemma_pow256_is_pow(n);
    if x < vstd::arithmetic::power::pow(256, n) {
        lemma_le_value_of_bytes(x, n);
    }
    if i > 0 {
        let p = vstd::arithmetic::power::pow(256, (i - 1) as nat);
        number_bytes_by_place(x / 256, (n - 1) as nat, (i - 1) as nat);
        lemma_pow256_is_pow((i - 1) as nat);
        lemma_pow256_grows((i - 1) as nat, (i - 1) as nat);
        assert(le_bytes(x, n)[i as int] == le_bytes(x / 256, (n - 1) as nat)[i - 1]);
        vstd::arithmetic::div_mod::lemma_div_denominator(x as int, 256, p);
    }
}

proof fn lemma_pow256_is_pow(n: nat)
    ensures
        pow256(n) == vstd::arithmetic::power::pow(256, n),
    decreases n,
{
    reveal(vstd::arithmetic::power::pow);
    if n > 0 {
        lemma_pow256_is_pow((n - 1) as nat);
    }
}

} // verus!
