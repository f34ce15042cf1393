//! SplitMix64 — a small, fast pseudo-random generator.
//!
//! Deterministic: the same seed always yields the same draw sequence, which is
//! the sole mechanism behind reproducible games, replays and sharing by seed.
//! The generator is a plain value owned by its user; its state is public so
//! that a full game (including generator state) can be saved and restored
//! bit for bit.

use vstd::prelude::*;

verus! {

/// Odd increment added to the state before every draw; an odd constant makes
/// the state walk through all 2^64 values before repeating.
pub const GOLDEN_GAMMA: u64 = 0x9e37_79b9_7f4a_7c15;

/// 2^53: one more than the largest value of a 53-bit draw.
pub const FRACTION_ONE: u64 = 0x20_0000_0000_0000;

/// How many rejected draws `next_usize` tolerates before accepting the final
/// candidate anyway. Each rejection has probability below one half, so the
/// fallback fires with probability below 2^-64 per call.
pub const SAMPLE_TRIES: u64 = 64;

#[derive(Clone, Copy, Debug, PartialEq, Eq)]
pub struct SplitMix64 {
    pub state: u64,
}

/// The state after one draw.
pub open spec fn spec_next_state(s: u64) -> u64 {
    u64::wrapping_add(s, GOLDEN_GAMMA)
}

/// The avalanche finalizer applied to a freshly advanced state.
pub open spec fn spec_mix(z0: u64) -> u64 {
    let z1 = u64::wrapping_mul(z0 ^ (z0 >> 30u64), 0xbf58_476d_1ce4_e5b9);
    let z2 = u64::wrapping_mul(z1 ^ (z1 >> 27u64), 0x94d0_49bb_1331_11eb);
    z2 ^ (z2 >> 31u64)
}

/// The value produced by one draw from state `s`.
pub open spec fn spec_draw(s: u64) -> u64 {
    spec_mix(spec_next_state(s))
}

/// Whether a raw draw avoids the incomplete final bucket of the modulus range
/// (accepting only such draws removes modulo bias).
pub open spec fn spec_accepts(x: u64, bound: u64) -> bool
    recommends
        bound >= 2,
{
    x - (x % bound) <= u64::MAX - (bound - 1)
}

/// The (state, value) pair produced by rejection sampling in `[0, bound)`,
/// starting from state `s`, with at most `fuel` draws; the last permitted
/// draw is accepted unconditionally.
pub open spec fn spec_sample(s: u64, bound: u64, fuel: nat) -> (u64, u64)
    recommends
        bound >= 2,
        fuel >= 1,
    decreases fuel,
{
    let s2 = spec_next_state(s);
    let x = spec_mix(s2);
    if fuel <= 1 || spec_accepts(x, bound) {
        (s2, (x as int % bound as int) as u64)
    } else {
        spec_sample(s2, bound, (fuel - 1) as nat)
    }
}

/// Rejection sampling stays below its bound.
pub proof fn lemma_sample_in_range(s: u64, bound: u64, fuel: nat)
    requires
        bound >= 2,
        fuel >= 1,
    ensures
        spec_sample(s, bound, fuel).1 < bound,
    decreases fuel,
{
    let s2 = spec_next_state(s);
    let x = spec_mix(s2);
    if fuel <= 1 || spec_accepts(x, bound) {
        assert((x as int) % (bound as int) < bound as int);
    } else {
        lemma_sample_in_range(s2, bound, (fuel - 1) as nat);
    }
}

impl SplitMix64 {
    pub fn new(seed: u64) -> (r: Self)
        ensures
            r.state == seed,
    {
        Self { state: seed }
    }

    /// Advance the internal state and return the next 64-bit value.
    pub fn next_u64(&mut self) -> (r: u64)
        ensures
            final(self).state == spec_next_state(old(self).state),
            r == spec_draw(old(self).state),
    {
        self.state = self.state.wrapping_add(GOLDEN_GAMMA);
        let z0 = self.state;
        let z1 = (z0 ^ (z0 >> 30)).wrapping_mul(0xbf58_476d_1ce4_e5b9);
        let z2 = (z1 ^ (z1 >> 27)).wrapping_mul(0x94d0_49bb_1331_11eb);
        z2 ^ (z2 >> 31)
    }

    /// Return a value in `[0, bound)` by rejection sampling, so that every
    /// bucket of the modulus range is equally likely. Returns 0 immediately
    /// if `bound <= 1`. After `SAMPLE_TRIES` rejections in a row (probability
    /// below 2^-64) the final candidate is accepted as drawn.
    pub fn next_usize(&mut self, bound: usize) -> (r: usize)
        ensures
            bound <= 1 ==> r == 0 && *final(self) == *old(self),
            bound >= 2 ==> {
                let sr = spec_sample(old(self).state, bound as u64, SAMPLE_TRIES as nat);
                final(self).state == sr.0 && r == sr.1 as usize
            },
            bound >= 1 ==> r < bound,
    {
        if bound <= 1 {
            return 0;
        }
        let b: u64 = bound as u64;
        let ghost s0: u64 = self.state;
        let mut tries: u64 = SAMPLE_TRIES;
        loop
            invariant
                2 <= b,
                b == bound as u64,
                bound >= 2,
                1 <= tries <= SAMPLE_TRIES,
                spec_sample(s0, b, SAMPLE_TRIES as nat) == spec_sample(self.state, b, tries as nat),
                s0 == old(self).state,
            decreases tries,
        {
            let ghost s_before: u64 = self.state;
            let x = self.next_u64();
            proof {
                assert(x % b < b);
                assert(x % b <= x) by (nonlinear_arith)
                    requires b >= 2,
                ;
            }
            let bucket = x % b;
            if tries <= 1 || x - bucket <= u64::MAX - (b - 1) {
                proof {
                    assert(spec_sample(s_before, b, tries as nat) == (self.state, bucket));
                    lemma_sample_in_range(s0, b, SAMPLE_TRIES as nat);
                }
                return bucket as usize;
            }
            proof {
                assert(spec_sample(s_before, b, tries as nat)
                    == spec_sample(self.state, b, (tries - 1) as nat));
            }
            tries = tries - 1;
        }
    }

    /// Return a fixed-point fraction in `[0, scale)`: the top 53 bits of a
    /// draw, scaled down. The counterpart of drawing a float in [0, 1) and
    /// multiplying by `scale`.
    pub fn next_fraction(&mut self, scale: u64) -> (r: u64)
        requires
            scale >= 1,
        ensures
            r < scale,
            final(self).state == spec_next_state(old(self).state),
            r == spec_fraction(spec_draw(old(self).state), scale),
    {
        let x = self.next_u64();
        let hi: u64 = x / 2048;
        assert(hi < FRACTION_ONE);
        proof {
            assert((hi as int) * (scale as int) < 0x20_0000_0000_0000_0000_0000_0000_0000int)
                by (nonlinear_arith)
                requires
                    hi < 0x20_0000_0000_0000u64,
                    scale <= 0xffff_ffff_ffff_ffffu64,
            ;
        }
        let wide: u128 = (hi as u128) * (scale as u128);
        let r128: u128 = wide / (FRACTION_ONE as u128);
        proof {
            assert(((hi as int) * (scale as int)) / (FRACTION_ONE as int) < scale as int)
                by (nonlinear_arith)
                requires
                    hi < FRACTION_ONE,
                    scale >= 1,
                    FRACTION_ONE == 0x20_0000_0000_0000u64,
            ;
        }
        r128 as u64
    }
}

/// The fraction derived from raw draw `x` at a given scale: the top 53 bits
/// of `x`, scaled into `[0, scale)`.
pub open spec fn spec_fraction(x: u64, scale: u64) -> u64 {
    (((x / 2048) as int * scale as int) / (FRACTION_ONE as int)) as u64
}

/// The state after `k` draws from `seed`: the increment added `k` times.
pub open spec fn spec_state_after(seed: u64, k: int) -> u64 {
    u64::wrapping_add(seed, u64::wrapping_mul(GOLDEN_GAMMA, k as u64))
}

/// Wrapping addition is addition modulo 2^64.
pub proof fn lemma_wrapping_add_mod(x: u64, y: u64)
    ensures
        u64::wrapping_add(x, y) as int == (x as int + y as int) % 0x1_0000_0000_0000_0000int,
{
    let m = 0x1_0000_0000_0000_0000int;
    let s = x as int + y as int;
    if s > u64::MAX as int {
        vstd::arithmetic::div_mod::lemma_fundamental_div_mod_converse(s, m, 1, s - m);
    } else {
        vstd::arithmetic::div_mod::lemma_small_mod(s as nat, m as nat);
    }
}

/// One more draw advances the closed-form state by one increment.
pub proof fn lemma_state_after_step(seed: u64, k: int)
    requires
        0 <= k < 0xffff_ffff_ffff_ffffu64,
    ensures
        spec_next_state(spec_state_after(seed, k)) == spec_state_after(seed, k + 1),
{
    let m = 0x1_0000_0000_0000_0000int;
    let g = GOLDEN_GAMMA as int;
    let t = g * (k as u64) as int;
    let t1 = g * ((k + 1) as u64) as int;
    assert(t1 == t + g);
    assert(u64::wrapping_mul(GOLDEN_GAMMA, k as u64) as int == t % m);
    assert(u64::wrapping_mul(GOLDEN_GAMMA, (k + 1) as u64) as int == t1 % m);
    lemma_wrapping_add_mod(seed, u64::wrapping_mul(GOLDEN_GAMMA, k as u64));
    lemma_wrapping_add_mod(spec_state_after(seed, k), GOLDEN_GAMMA);
    lemma_wrapping_add_mod(seed, u64::wrapping_mul(GOLDEN_GAMMA, (k + 1) as u64));
    // Collapse the nested reductions: both sides equal (seed + t + g) % m.
    vstd::arithmetic::div_mod::lemma_add_mod_noop(seed as int, t, m);
    vstd::arithmetic::div_mod::lemma_mod_twice(t, m);
    vstd::arithmetic::div_mod::lemma_small_mod(seed as nat, m as nat);
    vstd::arithmetic::div_mod::lemma_add_mod_noop((seed as int + t) % m, g, m);
    vstd::arithmetic::div_mod::lemma_mod_twice(seed as int + t, m);
    vstd::arithmetic::div_mod::lemma_small_mod(g as nat, m as nat);
    vstd::arithmetic::div_mod::lemma_add_mod_noop(seed as int, t1, m);
    vstd::arithmetic::div_mod::lemma_mod_twice(t1, m);
    assert((seed as int + t % m) % m == (seed as int + t) % m);
    assert(((seed as int + t) % m + g) % m == (seed as int + t + g) % m);
    assert((seed as int + t1 % m) % m == (seed as int + t + g) % m);
}

} // verus!
