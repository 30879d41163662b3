//! Zobrist keys: a deterministic table of 97 pseudo-random 64-bit values,
//! derived from a fixed seed by a three-shift xorshift generator. Entries
//! 0..32 key a black piece per square, 32..64 a white piece, 64..96 a king,
//! and entry 96 the side to move being White.

use vstd::prelude::*;

use crate::bitboard::Color;

verus! {

/// The fixed seed the key table is derived from.
pub const SEED: u64 = 25184470690726;

/// The multiplier the generator applies after its shifts.
pub const PRNG_MULTIPLIER: u64 = 2685821657736338717;

/// One xorshift of the generator state.
pub open spec fn spec_xorshift(s: u64) -> u64 {
    let s1 = s ^ (s >> 12);
    let s2 = s1 ^ (s1 << 25);
    s2 ^ (s2 >> 27)
}

/// The generator state after `n` xorshifts of the seed.
pub open spec fn spec_prng_state(n: nat) -> u64
    decreases n,
{
    if n == 0 {
        SEED
    } else {
        spec_xorshift(spec_prng_state((n - 1) as nat))
    }
}

/// Entry `i` of the key table: the generator's `i+1`-th output.
pub open spec fn spec_table(i: nat) -> u64 {
    vstd::wrapping::u64_specs::wrapping_mul(spec_prng_state(i + 1), PRNG_MULTIPLIER)
}

/// The key of a piece of side `color` on square `position`, XORed with the
/// king key when `is_king`.
pub open spec fn spec_position_hash(position: u8, color: Color, is_king: bool) -> u64 {
    let base = match color {
        Color::Black => spec_table(position as nat),
        Color::White => spec_table(32 + position as nat),
    };
    if is_king {
        base ^ spec_table(64 + position as nat)
    } else {
        base
    }
}

/// The key of the side to move being White.
pub open spec fn spec_turn_hash() -> u64 {
    spec_table(96)
}

/// The three-shift xorshift generator the key table is built with.
struct Prng {
    s: u64,
}

impl Prng {
    /// A generator starting from `seed`.
    fn new(seed: u64) -> (r: Prng)
        ensures
            r.s == seed,
    {
        Prng { s: seed }
    }

    /// The next pseudo-random value: the state is xorshifted and the output
    /// is the new state times the multiplier, wrapping.
    fn rand64(&mut self) -> (r: u64)
        ensures
            final(self).s == spec_xorshift(old(self).s),
            r == vstd::wrapping::u64_specs::wrapping_mul(final(self).s, PRNG_MULTIPLIER),
    {
        self.s = self.s ^ (self.s >> 12u64);
        self.s = self.s ^ (self.s << 25u64);
        self.s = self.s ^ (self.s >> 27u64);
        self.s.wrapping_mul(PRNG_MULTIPLIER)
    }
}

/// Entry `i` of the key table, recomputed from the seed.
fn table_entry(i: usize) -> (r: u64)
    requires
        i < 97,
    ensures
        r == spec_table(i as nat),
{
    let mut prng = Prng::new(SEED);
    let mut out = prng.rand64();
    let mut k: usize = 0;
    proof {
        assert(spec_prng_state(0) == SEED);
        assert(spec_prng_state(1) == spec_xorshift(spec_prng_state(0)));
    }
    while k < i
        invariant
            k <= i,
            prng.s == spec_prng_state((k + 1) as nat),
            out == spec_table(k as nat),
        decreases i - k,
    {
        out = prng.rand64();
        k = k + 1;
        proof {
            assert(spec_prng_state((k + 1) as nat) == spec_xorshift(spec_prng_state(k as nat)));
        }
    }
    out
}

/// The key of a piece of side `color` on square `position`, with the king
/// key XORed in when `is_king`.
pub fn get_position_hash(position: u8, color: Color, is_king: bool) -> (r: u64)
    requires
        position < 32,
    ensures
        r == spec_position_hash(position, color, is_king),
{
    let mut hash = match color {
        Color::Black => table_entry(position as usize),
        Color::White => table_entry(32 + position as usize),
    };

    if is_king {
        hash = hash ^ table_entry(64 + position as usize);
    }

    hash
}

/// The key of the side to move being White.
pub fn get_turn_hash() -> (r: u64)
    ensures
        r == spec_turn_hash(),
{
    table_entry(96)
}

} // verus!
