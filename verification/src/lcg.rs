//! The deterministic stream that coding coefficients are drawn from.
use vstd::prelude::*;

verus! {

/// The state that a seed gives.
pub open spec fn seeded(seed: u64) -> u64 {
    ((0x9E3779B97F4A7C15u64 * (seed ^ 0xD1B54A32D192ED03u64)) % 0x1_0000_0000_0000_0000) as u64
}

/// The state after `x`.
pub open spec fn stepped(x: u64) -> u64 {
    ((x * 6364136223846793005 + 1442695040888963407) % 0x1_0000_0000_0000_0000) as u64
}

/// The state `n` steps after `x`.
pub open spec fn steps(x: u64, n: nat) -> u64
    decreases n,
{
    if n == 0 {
        x
    } else {
        stepped(steps(x, (n - 1) as nat))
    }
}

/// The byte that a state yields: its bits 40 to 47.
pub open spec fn byte_of(x: u64) -> u8 {
    (x >> 40u64) as u8
}

/// The `n` bytes that follow state `x`.
pub open spec fn bytes_after(x: u64, n: nat) -> Seq<u8> {
    Seq::new(n, |i: int| byte_of(steps(x, (i + 1) as nat)))
}

/// Steps add up.
pub proof fn lemma_steps_add(x: u64, m: nat, n: nat)
    ensures
        steps(steps(x, m), n) == steps(x, m + n),
    decreases n,
{
    if n > 0 {
        lemma_steps_add(x, m, (n - 1) as nat);
    }
}

proof fn lemma_zero_byte(x: u64)
    requires
        byte_of(x) == 0,
    ensures
        x % 0x1_0000_0000_0000 < 0x100_0000_0000,
{
    assert((x >> 40u64) as u8 == 0 ==> x % 0x1_0000_0000_0000 < 0x100_0000_0000) by (bit_vector);
}

/// Seven states in a row cannot all yield zero: `25*x1 - 8*x2 + 19*x3 - 71*x4 - 50*x5 - 43*x6 + 8*x7`
/// is the same modulo `2^48` for every first state `x1`, and no sum of that form
/// over residues below `2^40` has that remainder.
pub proof fn lemma_no_long_zero_run(x: u64)
    ensures
        exists|i: nat| 1 <= i <= 7 && byte_of(#[trigger] steps(x, i)) != 0,
{
    if forall|i: nat| 1 <= i <= 7 ==> byte_of(#[trigger] steps(x, i)) == 0 {
        let x1 = steps(x, 1);
        let x2 = steps(x, 2);
        let x3 = steps(x, 3);
        let x4 = steps(x, 4);
        let x5 = steps(x, 5);
        let x6 = steps(x, 6);
        let x7 = steps(x, 7);
        lemma_zero_byte(x1);
        lemma_zero_byte(x2);
        lemma_zero_byte(x3);
        lemma_zero_byte(x4);
        lemma_zero_byte(x5);
        lemma_zero_byte(x6);
        lemma_zero_byte(x7);
        reveal_with_fuel(steps, 8);
        let q1 = (x1 * 6364136223846793005 + 1442695040888963407) / 0x1_0000_0000_0000_0000;
        assert(x2 == x1 * 6364136223846793005 + 1442695040888963407 - q1 * 0x1_0000_0000_0000_0000);
        let q2 = (x2 * 6364136223846793005 + 1442695040888963407) / 0x1_0000_0000_0000_0000;
        assert(x3 == x2 * 6364136223846793005 + 1442695040888963407 - q2 * 0x1_0000_0000_0000_0000);
        let q3 = (x3 * 6364136223846793005 + 1442695040888963407) / 0x1_0000_0000_0000_0000;
        assert(x4 == x3 * 6364136223846793005 + 1442695040888963407 - q3 * 0x1_0000_0000_0000_0000);
        let q4 = (x4 * 6364136223846793005 + 1442695040888963407) / 0x1_0000_0000_0000_0000;
        assert(x5 == x4 * 6364136223846793005 + 1442695040888963407 - q4 * 0x1_0000_0000_0000_0000);
        let q5 = (x5 * 6364136223846793005 + 1442695040888963407) / 0x1_0000_0000_0000_0000;
        assert(x6 == x5 * 6364136223846793005 + 1442695040888963407 - q5 * 0x1_0000_0000_0000_0000);
        let q6 = (x6 * 6364136223846793005 + 1442695040888963407) / 0x1_0000_0000_0000_0000;
        assert(x7 == x6 * 6364136223846793005 + 1442695040888963407 - q6 * 0x1_0000_0000_0000_0000);
        let h1 = x1 / 0x1_0000_0000_0000;
        let l1 = x1 % 0x1_0000_0000_0000;
        assert(x1 == h1 * 0x1_0000_0000_0000 + l1);
        let h2 = x2 / 0x1_0000_0000_0000;
        let l2 = x2 % 0x1_0000_0000_0000;
        assert(x2 == h2 * 0x1_0000_0000_0000 + l2);
        let h3 = x3 / 0x1_0000_0000_0000;
        let l3 = x3 % 0x1_0000_0000_0000;
        assert(x3 == h3 * 0x1_0000_0000_0000 + l3);
        let h4 = x4 / 0x1_0000_0000_0000;
        let l4 = x4 % 0x1_0000_0000_0000;
        assert(x4 == h4 * 0x1_0000_0000_0000 + l4);
        let h5 = x5 / 0x1_0000_0000_0000;
        let l5 = x5 % 0x1_0000_0000_0000;
        assert(x5 == h5 * 0x1_0000_0000_0000 + l5);
        let h6 = x6 / 0x1_0000_0000_0000;
        let l6 = x6 % 0x1_0000_0000_0000;
        assert(x6 == h6 * 0x1_0000_0000_0000 + l6);
        let h7 = x7 / 0x1_0000_0000_0000;
        let l7 = x7 % 0x1_0000_0000_0000;
        assert(x7 == h7 * 0x1_0000_0000_0000 + l7);
        let c2: int = q1 as int;
        let c3: int = c2 * 6364136223846793005 + q2;
        let c4: int = c3 * 6364136223846793005 + q3;
        let c5: int = c4 * 6364136223846793005 + q4;
        let c6: int = c5 * 6364136223846793005 + q5;
        let c7: int = c6 * 6364136223846793005 + q6;
        assert(x2 == x1 * 6364136223846793005int + 1442695040888963407int - c2 * 0x1_0000_0000_0000_0000);
        assert(x3 == x1 * 40502229875678917802724098623316930025int + 9181507769685582209825849996637531442int - c3 * 0x1_0000_0000_0000_0000);
        assert(x4 == x1 * 257761708298377992451382931344992443440413701818244475125int + 58432366186586791617119980549998314098108253752442126617int - c4 * 0x1_0000_0000_0000_0000);
        assert(x5 == x1 * 1640430624902337885449783616670362387799750424730211083418480155790746500625int + 371871538293137496216266235122069571116176938621263565726177837118488877492int - c5 * 0x1_0000_0000_0000_0000);
        assert(x6 == x1 * 10439923962648599552531271091909167968093229209189097358826945984686813496492969019832478128125int + 2366641127468986149374683860051345999385590030301359810634910004263854146128855025387416506867int - c6 * 0x1_0000_0000_0000_0000);
        assert(x7 == x1 * 66441098264898106016788569070381508495920823781993388640187205095328385948821818388502517644731396322586743765625int + 15061626528170990214406765178658601131373847989183003512474980916114445021382533357865804263899007351418399028742int - c7 * 0x1_0000_0000_0000_0000);
        let t: int = x1 * (1888369589121853833849910920751690522672917900801564855593634187317750219064825866056338706015299660int) + (428077172732940601965937876187604177180239876380338427392961855384377925138427726555404978023318081int) - 0x1_0000 * ((-8) * c2 + 19 * c3 + (-71) * c4 + (-50) * c5 + (-43) * c6 + 8 * c7) - (25 * h1 + (-8) * h2 + 19 * h3 + (-71) * h4 + (-50) * h5 + (-43) * h6 + 8 * h7);
        assert(25 * l1 + (-8) * l2 + 19 * l3 + (-71) * l4 + (-50) * l5 + (-43) * l6 + 8 * l7 == 84969258789254 + t * 0x1_0000_0000_0000);
        assert(false);
    }
}

/// A 64-bit linear congruential generator.
pub struct Lcg {
    state: u64,
}

impl View for Lcg {
    type V = u64;

    closed spec fn view(&self) -> u64 {
        self.state
    }
}

impl Lcg {
    /// A generator in the state that `seed` gives.
    pub fn new(seed: u64) -> (rng: Self)
        ensures
            rng@ == seeded(seed),
    {
        Lcg { state: 0x9E3779B97F4A7C15u64.wrapping_mul(seed ^ 0xD1B54A32D192ED03u64) }
    }

    /// Advances one step and returns the new state.
    pub fn next_u64(&mut self) -> (x: u64)
        ensures
            x == stepped(old(self)@),
            final(self)@ == x,
    {
        let ghost s = self.state;
        self.state = self.state.wrapping_mul(6364136223846793005).wrapping_add(1442695040888963407);
        proof {
            vstd::arithmetic::div_mod::lemma_add_mod_noop(
                s * 6364136223846793005, 1442695040888963407, 0x1_0000_0000_0000_0000);
        }
        self.state
    }

    /// Advances one step and returns the byte of the new state.
    pub fn next_u8(&mut self) -> (b: u8)
        ensures
            b == byte_of(stepped(old(self)@)),
            final(self)@ == stepped(old(self)@),
    {
        (self.next_u64() >> 40u64) as u8
    }
}

/// The stream, place by place: each state is the one before it times a constant plus a
/// constant, modulo `2^64`, and each byte is bits 40 to 47 of its own state, so that no
/// two places are tied together.
pub proof fn stream_bytes_follow_the_recurrence(x: u64, n: nat, i: int)
    requires
        0 <= i < n,
    ensures
        steps(x, 0) == x,
        steps(x, (i + 1) as nat) as int == (steps(x, i as nat) * 6364136223846793005 + 1442695040888963407)
            % 0x1_0000_0000_0000_0000,
        bytes_after(x, n).len() == n,
        bytes_after(x, n)[i] as int == (steps(x, (i + 1) as nat) as int / 0x100_0000_0000) % 256,
{
    lemma_byte_is_bits(steps(x, (i + 1) as nat));
}

/// The byte of a state, in numbers.
pub proof fn lemma_byte_is_bits(x: u64)
    ensures
        byte_of(x) as int == (x as int / 0x100_0000_0000) % 256,
        (x >> 40u64) as int == x as int / 0x100_0000_0000,
{
    assert((x >> 40u64) as u8 == (x / 0x100_0000_0000u64) % 256u64) by (bit_vector);
    assert(x >> 40u64 == x / 0x100_0000_0000u64) by (bit_vector);
}

/// Drawing `m` bytes and then `n` more is drawing `m + n`.
pub proof fn stream_splits_anywhere(x: u64, m: nat, n: nat)
    ensures
        bytes_after(x, m + n) == bytes_after(x, m) + bytes_after(steps(x, m), n),
        steps(x, m + n) == steps(steps(x, m), n),
{
    lemma_steps_add(x, m, n);
    assert forall|i: int| 0 <= i < m + n implies #[trigger] bytes_after(x, m + n)[i] == (bytes_after(x, m) + bytes_after(
        steps(x, m), n))[i] by {
        if i >= m {
            lemma_steps_add(x, m, (i - m + 1) as nat);
        }
    }
    assert(bytes_after(x, m + n) =~= bytes_after(x, m) + bytes_after(steps(x, m), n));
}

/// The seed can be read back from the state that it gives: no two seeds share a stream
/// from its start.
pub proof fn seed_is_read_back(seed: u64)
    ensures
        ((seeded(seed) as int * 0xF1DE83E19937733D) % 0x1_0000_0000_0000_0000) as u64 ^ 0xD1B54A32D192ED03u64 == seed,
        seeded(seed) as int == (0x9E3779B97F4A7C15 * ((seed ^ 0xD1B54A32D192ED03u64) as int)) % 0x1_0000_0000_0000_0000,
{
    let y = seed ^ 0xD1B54A32D192ED03u64;
    let k: int = 0x9E3779B97F4A7C15;
    let v: int = 0xF1DE83E19937733D;
    let m: int = 0x1_0000_0000_0000_0000;
    assert((k * v) % m == 1);
    vstd::arithmetic::div_mod::lemma_mul_mod_noop_left(k * y, v, m);
    assert((k * y) * v == (k * v) * y) by (nonlinear_arith);
    vstd::arithmetic::div_mod::lemma_mul_mod_noop_left(k * v, y as int, m);
    assert((seeded(seed) as int * v) % m == y);
    assert((seed ^ 0xD1B54A32D192ED03u64) ^ 0xD1B54A32D192ED03u64 == seed) by (bit_vector);
}

} // verus!
