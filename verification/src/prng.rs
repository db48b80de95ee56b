//! The mulberry32 pseudo-random generator that drives every random choice of
//! the simulation.

use vstd::prelude::*;
use vstd::arithmetic::div_mod::*;
use vstd::arithmetic::mul::*;

verus! {

/// Odd constant added to the state on every draw.
pub const STATE_INCREMENT: u32 = 0x6D2B79F5;

/// Number of distinct generator states.
pub open spec fn state_count() -> int {
    0x1_0000_0000
}

/// Product of two words, reduced to 32 bits.
pub open spec fn mul32(a: u32, b: u32) -> u32 {
    ((a * b) % state_count()) as u32
}

/// Sum of two words, reduced to 32 bits.
pub open spec fn add32(a: u32, b: u32) -> u32 {
    ((a + b) % state_count()) as u32
}

/// The state that follows `s`.
pub open spec fn next_state(s: u32) -> u32 {
    add32(s, STATE_INCREMENT)
}

/// The state reached from `s` after `k` draws.
pub open spec fn state_after(s: u32, k: nat) -> u32 {
    ((s + k * STATE_INCREMENT) % state_count()) as u32
}

/// The output word that the generator derives from a freshly advanced state.
pub open spec fn temper(z: u32) -> u32 {
    let t = mul32(z ^ (z >> 15u32), 1u32 | z);
    let u = add32(t, mul32(t ^ (t >> 7u32), 61u32 | t)) ^ t;
    u ^ (u >> 14u32)
}

/// The word produced by the `k`-th draw (counting from 1) from state `s`.
pub open spec fn nth_draw(s: u32, k: nat) -> u32 {
    temper(state_after(s, k))
}

/// A 32-bit generator whose whole state is one word.
pub struct Prng {
    pub s: u32,
}

impl Prng {
    /// A generator whose state is the seed.
    pub fn new(seed: u32) -> (r: Prng)
        ensures
            r.s == seed,
    {
        Prng { s: seed }
    }

    /// Advances the state and returns the tempered word of the new state.
    pub fn next_u32(&mut self) -> (out: u32)
        ensures
            final(self).s == next_state(old(self).s),
            out == temper(final(self).s),
    {
        self.s = self.s.wrapping_add(STATE_INCREMENT);
        let mut t = (self.s ^ (self.s >> 15u32)).wrapping_mul(1u32 | self.s);
        t = t.wrapping_add((t ^ (t >> 7u32)).wrapping_mul(61u32 | t)) ^ t;
        t ^ (t >> 14u32)
    }

    /// Advances the generator by `n` draws, discarding the words.
    pub fn discard(&mut self, n: usize)
        ensures
            final(self).s == state_after(old(self).s, n as nat),
    {
        let ghost s0 = self.s;
        let mut i: usize = 0;
        while i < n
            invariant
                i <= n,
                self.s == state_after(s0, i as nat),
            decreases n - i,
        {
            proof { lemma_state_after_step(s0, i as nat); }
            self.next_u32();
            i = i + 1;
        }
        proof { lemma_state_after_step(s0, 0); }
    }

    /// Advances the generator by three draws per spark, discarding the words:
    /// the cost in randomness of a visual spark effect.
    pub fn spark_prng(&mut self, n: u32)
        ensures
            final(self).s == state_after(old(self).s, 3 * n as nat),
    {
        let ghost s0 = self.s;
        let mut i: u32 = 0;
        while i < n
            invariant
                i <= n,
                self.s == state_after(s0, 3 * i as nat),
            decreases n - i,
        {
            proof { lemma_state_after_step(s0, 3 * i as nat); }
            self.next_u32();
            proof { lemma_state_after_step(s0, 3 * i as nat + 1); }
            self.next_u32();
            proof { lemma_state_after_step(s0, 3 * i as nat + 2); }
            self.next_u32();
            i = i + 1;
        }
    }
}

/// One more draw moves the state one step further along the same orbit:
/// `k` draws from `s` followed by a draw is `k + 1` draws from `s`, and the
/// word returned by that draw is the `(k + 1)`-th draw from `s`.
pub proof fn lemma_state_after_step(s: u32, k: nat)
    ensures
        state_after(s, 0) == s,
        next_state(state_after(s, k)) == state_after(s, k + 1),
        temper(next_state(state_after(s, k))) == nth_draw(s, k + 1),
{
    let m = state_count();
    let a = s + k * STATE_INCREMENT;
    lemma_small_mod(s as nat, m as nat);
    lemma_add_mod_noop(a, STATE_INCREMENT as int, m);
    lemma_small_mod(STATE_INCREMENT as nat, m as nat);
    lemma_mod_bound(a, m);
    assert(a + STATE_INCREMENT == s + (k + 1) * STATE_INCREMENT);
}



/// For every state the output word is the mulberry32 tempering of the new
/// state `z`: `t = (z ^ z >> 15) * (z | 1)`, `u = (t + (t ^ t >> 7) * (t | 61)) ^ t`
/// (products and sums taken modulo 2^32), output `u ^ u >> 14`.
pub proof fn lemma_mulberry32_tempering(z: u32)
    ensures
        ({
            let t: u32 = (((z ^ (z >> 15u32)) as int * (z | 1u32) as int) % 0x1_0000_0000) as u32;
            let m: u32 = (((t ^ (t >> 7u32)) as int * (t | 61u32) as int) % 0x1_0000_0000) as u32;
            let u: u32 = (((t as int + m as int) % 0x1_0000_0000) as u32) ^ t;
            temper(z) == u ^ (u >> 14u32)
        }),
{
    assert((1u32 | z) == (z | 1u32)) by (bit_vector);
    let t: u32 = (((z ^ (z >> 15u32)) as int * (z | 1u32) as int) % 0x1_0000_0000) as u32;
    assert((61u32 | t) == (t | 61u32)) by (bit_vector);
}

/// The generator is mulberry32: its output words agree with the published
/// reference on a spread of states, among them the first draws from seeds
/// 0, 1 and 7, the zero state and the extremes of the word range.
pub proof fn lemma_reference_words()
    ensures
        temper(0x6D2B79F5) == 1144304738,
        temper(0x6D2B79FC) == 50271532,
        temper(0x6D2B79F6) == 2693262067,
        temper(0xDA56F3EB) == 11749833,
        temper(0x47826DE0) == 2265367787,
        temper(0) == 0,
        temper(1) == 63,
        temper(0xFFFF_FFFF) == 142530043,
        temper(0x8000_0000) == 3208480509,
        temper(0x00BC_614E) == 75921328,
        temper(0xDEAD_BEEF) == 1602391113,
        temper(0x1357_9BDF) == 3296597697,
        nth_draw(0, 1) == 1144304738,
        nth_draw(7, 1) == 50271532,
        nth_draw(1, 1) == 2693262067,
        nth_draw(1, 2) == 11749833,
        nth_draw(1, 3) == 2265367787,
{
    assert(temper(0x6D2B79F5) == 1144304738) by (bit_vector);
    assert(temper(0x6D2B79FC) == 50271532) by (bit_vector);
    assert(temper(0x6D2B79F6) == 2693262067) by (bit_vector);
    assert(temper(0xDA56F3EB) == 11749833) by (bit_vector);
    assert(temper(0x47826DE0) == 2265367787) by (bit_vector);
    assert(temper(0) == 0) by (bit_vector);
    assert(temper(1) == 63) by (bit_vector);
    assert(temper(0xFFFF_FFFF) == 142530043) by (bit_vector);
    assert(temper(0x8000_0000) == 3208480509) by (bit_vector);
    assert(temper(0x00BC_614E) == 75921328) by (bit_vector);
    assert(temper(0xDEAD_BEEF) == 1602391113) by (bit_vector);
    assert(temper(0x1357_9BDF) == 3296597697) by (bit_vector);
    assert(state_after(0, 1) == 0x6D2B79F5);
    assert(state_after(7, 1) == 0x6D2B79FC);
    assert(state_after(1, 1) == 0x6D2B79F6);
    assert(state_after(1, 2) == 0xDA56F3EB);
    assert(state_after(1, 3) == 0x47826DE0);
}

/// The generator's orbit has the full period: the state comes back to where
/// it started after `k` draws exactly when `k` is a multiple of 2^32, so
/// every one of the 2^32 states is visited before any repeats.
pub proof fn lemma_full_period(s: u32, k: nat)
    ensures
        state_after(s, k) == s <==> k % (state_count() as nat) == 0,
{
    let m = state_count();
    let c = STATE_INCREMENT as int;
    let inv: int = 0xdc58aa5d;
    let r = (k % (m as nat)) as int;
    lemma_small_mod(s as nat, m as nat);
    lemma_fundamental_div_mod(k as int, m);
    let q = (k as int) / m;
    assert(k * c == m * (q * c) + r * c) by (nonlinear_arith)
        requires k as int == m * q + r;
    lemma_mod_multiples_vanish(q * c, r * c + s, m);
    assert(s + k * c == m * (q * c) + (r * c + s)) by (nonlinear_arith)
        requires k * c == m * (q * c) + r * c;
    // state_after(s, k) is (r * c + s) % m
    lemma_add_mod_noop(r * c, s as int, m);
    lemma_mod_bound(r * c, m);
    lemma_mul_nonnegative(r, c);
    if r == 0 {
        assert(r * c == 0);
    } else {
        if state_after(s, k) == s {
            // (r * c) % m == 0, but c is invertible modulo 2^32
            assert(((r * c) % m + s) % m == s);
            assert((r * c) % m == 0) by {
                if (r * c) % m != 0 {
                    lemma_small_mod(((r * c) % m + s) as nat, m as nat);
                }
            }
            assert((c * inv) % m == 1);
            lemma_mul_mod_noop_right(r, c * inv, m);
            lemma_mul_is_associative(r, c, inv);
            lemma_mul_mod_noop_left(r * c, inv, m);
            lemma_small_mod(r as nat, m as nat);
            assert(false);
        }
    }
}

} // verus!
