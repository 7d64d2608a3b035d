//! Deterministic keystream bytes from an integer seed, via a linear
//! congruential generator computed with 64-bit wraparound.

use vstd::prelude::*;

verus! {

use vstd::wrapping::u64_specs;

pub const LCG_MULTIPLIER: u64 = 1103515245;

pub const LCG_INCREMENT: u64 = 12345;

/// One generator step: `state * A + C`, wrapping modulo `2^64`.
pub open spec fn lcg_next_state(s: u64) -> u64 {
    u64_specs::wrapping_add(u64_specs::wrapping_mul(s, LCG_MULTIPLIER), LCG_INCREMENT)
}

/// The byte a state emits: bits 39..32 of the state.
pub open spec fn lcg_output(s: u64) -> u8 {
    ((s >> 32) & 0xFF) as u8
}

/// The state after `k` steps from `seed`.
pub open spec fn lcg_state_at(seed: u64, k: nat) -> u64
    decreases k,
{
    if k == 0 {
        seed
    } else {
        lcg_next_state(lcg_state_at(seed, (k - 1) as nat))
    }
}

/// The first `n` keystream bytes for `seed`: byte `i` comes from the state
/// after `i + 1` steps.
pub open spec fn keystream_spec(seed: u64, n: nat) -> Seq<u8> {
    Seq::new(n, |i: int| lcg_output(lcg_state_at(seed, (i + 1) as nat)))
}

/// Linear congruential generator cursor.
pub struct LCG {
    pub state: u64,
}

impl LCG {
    pub fn new(seed: u64) -> (r: Self)
        ensures
            r.state == seed,
    {
        LCG { state: seed }
    }

    /// Advance the state once and emit the new state's output byte.
    pub fn next(&mut self) -> (b: u8)
        ensures
            final(self).state == lcg_next_state(old(self).state),
            b == lcg_output(final(self).state),
    {
        self.state = self.state.wrapping_mul(LCG_MULTIPLIER).wrapping_add(LCG_INCREMENT);
        let s = self.state;
        proof {
            assert(((s >> 32) & 0xFF) < 256) by (bit_vector);
        }
        ((s >> 32) & 0xFF) as u8
    }
}

/// Exactly `length` keystream bytes, always restarted from `seed`.
pub fn generate_keystream(seed: u64, length: usize) -> (r: Vec<u8>)
    ensures
        r@ == keystream_spec(seed, length as nat),
        r@.len() == length,
{
    let mut rng = LCG::new(seed);
    let mut out: Vec<u8> = Vec::new();
    let mut i: usize = 0;
    while i < length
        invariant
            i <= length,
            rng.state == lcg_state_at(seed, i as nat),
            out@ == keystream_spec(seed, i as nat),
        decreases length - i,
    {
        let b = rng.next();
        out.push(b);
        i = i + 1;
        proof {
            assert(out@ =~= keystream_spec(seed, i as nat));
        }
    }
    out
}

/// Law: the keystream has exactly the requested length, and requesting more
/// bytes extends a shorter request without changing its bytes; `keystream(s, n)`
/// is a prefix of `keystream(s, n + k)`.
pub proof fn lemma_keystream_prefix(seed: u64, n: nat, k: nat)
    ensures
        keystream_spec(seed, n).len() == n,
        keystream_spec(seed, n) == keystream_spec(seed, n + k).subrange(0, n as int),
{
    assert(keystream_spec(seed, n) =~= keystream_spec(seed, n + k).subrange(0, n as int));
}

} // verus!
