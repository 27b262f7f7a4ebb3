//! A seedable xorshift pseudo-random generator over a single 64-bit
//! state word.  Every draw returns the current state and then advances
//! it by three shift-xor operations, so the whole stream is a pure
//! function of the seed.

use vstd::prelude::*;

verus! {

/// One advance of the xorshift recurrence: three shift-xor operations
/// with shift amounts 13 (left), 17 (right) and 43 (left), each fed by
/// the previous one's output.
pub open spec fn step(s: u64) -> u64 {
    let a = s ^ (s << 13);
    let b = a ^ (a >> 17);
    b ^ (b << 43)
}

/// The state word after `k` advances from `seed`.
pub open spec fn nth_state(seed: u64, k: nat) -> u64
    decreases k,
{
    if k == 0 {
        seed
    } else {
        step(nth_state(seed, (k - 1) as nat))
    }
}

/// The first `n` values that a generator seeded with `seed` draws:
/// draw `i` returns the state *before* the `i`-th advance, so draw 0 is
/// the seed itself.
pub open spec fn draws(seed: u64, n: nat) -> Seq<u64> {
    Seq::new(n, |i: int| nth_state(seed, i as nat))
}

/// A deterministic, seedable pseudo-random number stream.  The single
/// field is the internal state word, mutated in place on every draw.
pub struct Rng(u64);

impl View for Rng {
    type V = u64;

    closed spec fn view(&self) -> u64 {
        self.0
    }
}

impl Rng {
    /// Creates a new seeded PRNG.  A zero seed is legal but degenerate:
    /// the recurrence fixes 0, so the stream is all zeros.
    pub fn new(seed: u64) -> (rng: Self)
        ensures
            rng@ == seed,
    {
        Rng(seed)
    }

    /// Returns the next pseudo-randomly generated number: the current
    /// state word, drawn before the state advances by one `step`.
    pub fn rand(&mut self) -> (r: u64)
        ensures
            r == old(self)@,
            final(self)@ == step(old(self)@),
    {
        let ret = self.0;
        self.0 = self.0 ^ (self.0 << 13);
        self.0 = self.0 ^ (self.0 >> 17);
        self.0 = self.0 ^ (self.0 << 43);
        ret
    }
}

/// Two generators given the same seed draw identical streams: the
/// stream is a function of the seed alone.  `rand`'s contract pins both
/// its result and the successor state as functions of the current
/// state, so the law holds at the level of the spec-level stream.
pub proof fn lemma_stream_deterministic(s1: u64, s2: u64, n: nat)
    requires
        s1 == s2,
    ensures
        draws(s1, n) == draws(s2, n),
{
}

/// The zero seed is a fixed point: every state, and hence every draw,
/// is zero.
pub proof fn lemma_zero_seed_fixed_point(k: nat)
    ensures
        nth_state(0, k) == 0,
    decreases k,
{
    if k > 0 {
        lemma_zero_seed_fixed_point((k - 1) as nat);
        assert(step(0) == 0) by (bit_vector);
    }
}

} // verus!
