//! A seedable SplitMix64 random stream.
//!
//! Each pixel task owns its own generator, seeded from the render seed and the
//! pixel's index, so the draws a pixel sees do not depend on which worker ran
//! it or when.

use vstd::prelude::*;

verus! {

/// Increment added to the state on every draw.
pub const GAMMA: u64 = 0x9E37_79B9_7F4A_7C15;

/// Number of low bits dropped to turn a draw into a 53-bit mantissa.
pub const MANTISSA_SHIFT: u64 = 11;

/// State after one draw.
pub open spec fn advance(s: u64) -> u64 {
    s.wrapping_add(GAMMA)
}

/// The output mixing function applied to an advanced state.
pub open spec fn mix(z: u64) -> u64 {
    let a = (z ^ (z >> 30u64)).wrapping_mul(0xBF58_476D_1CE4_E5B9u64);
    let b = (a ^ (a >> 27u64)).wrapping_mul(0x94D0_49BB_1331_11EBu64);
    b ^ (b >> 31u64)
}

/// The state after `k` draws from `seed`.
pub open spec fn state_after(seed: u64, k: nat) -> u64
    decreases k,
{
    if k == 0 {
        seed
    } else {
        advance(state_after(seed, (k - 1) as nat))
    }
}

/// The first `n` draws of the stream that starts at `seed`.
pub open spec fn stream(seed: u64, n: nat) -> Seq<u64> {
    Seq::new(n, |k: int| mix(state_after(seed, (k + 1) as nat)))
}

/// The seed of the stream owned by the pixel at row-major position `index`.
pub open spec fn pixel_seed(base: u64, index: u64) -> u64 {
    mix(base ^ index.wrapping_mul(GAMMA))
}

pub struct Rng {
    pub state: u64,
}

impl Rng {
    /// A generator whose stream starts at `seed`.
    pub fn new(seed: u64) -> (r: Rng)
        ensures
            r.state == seed,
    {
        Rng { state: seed }
    }

    /// The generator of the pixel at row-major position `index` in a render
    /// seeded with `base`.
    pub fn for_pixel(base: u64, index: u64) -> (r: Rng)
        ensures
            r.state == pixel_seed(base, index),
    {
        Rng { state: mix_exec(base ^ index.wrapping_mul(GAMMA)) }
    }

    /// The next 64-bit draw.
    pub fn next_u64(&mut self) -> (r: u64)
        ensures
            final(self).state == advance(old(self).state),
            r == mix(advance(old(self).state)),
    {
        self.state = self.state.wrapping_add(GAMMA);
        mix_exec(self.state)
    }

    /// The next draw reduced to its top 53 bits, the mantissa of a uniform
    /// sample in `[0, 1)`.
    pub fn next_mantissa(&mut self) -> (r: u64)
        ensures
            final(self).state == advance(old(self).state),
            r == mix(advance(old(self).state)) >> MANTISSA_SHIFT,
            r < 0x20_0000_0000_0000u64,
    {
        let x = self.next_u64();
        let r = x >> MANTISSA_SHIFT;
        assert(x >> 11u64 < 0x20_0000_0000_0000u64) by (bit_vector);
        r
    }

    /// The next `n` draws, in order.
    pub fn take(&mut self, n: usize) -> (r: Vec<u64>)
        ensures
            r@ == stream(old(self).state, n as nat),
            final(self).state == state_after(old(self).state, n as nat),
    {
        let ghost seed = self.state;
        let mut out: Vec<u64> = Vec::new();
        let mut i: usize = 0;
        while i < n
            invariant
                i <= n,
                self.state == state_after(seed, i as nat),
                out@ =~= stream(seed, i as nat),
            decreases n - i,
        {
            let x = self.next_u64();
            out.push(x);
            i = i + 1;
            assert(out@ =~= stream(seed, i as nat));
        }
        out
    }
}

fn mix_exec(z: u64) -> (r: u64)
    ensures
        r == mix(z),
{
    let a = (z ^ (z >> 30u64)).wrapping_mul(0xBF58_476D_1CE4_E5B9u64);
    let b = (a ^ (a >> 27u64)).wrapping_mul(0x94D0_49BB_1331_11EBu64);
    b ^ (b >> 31u64)
}

/// Two generators started from the same seed produce the same draws, so a
/// render repeated with the same seed and sample count samples identically.
pub proof fn lemma_same_seed_same_draws(a: Rng, b: Rng, n: nat)
    requires
        a.state == b.state,
    ensures
        stream(a.state, n) == stream(b.state, n),
{
}

/// A stream of `m + n` draws is the first `m` draws followed by the `n` draws
/// of the generator left after them.
pub proof fn lemma_stream_split(seed: u64, m: nat, n: nat)
    ensures
        stream(seed, m + n) == stream(seed, m) + stream(state_after(seed, m), n),
{
    assert forall|k: nat| k <= n implies state_after(state_after(seed, m), k) == state_after(
        seed,
        m + k,
    ) by {
        lemma_state_after_add(seed, m, k);
    }
    assert(stream(seed, m + n) =~= stream(seed, m) + stream(state_after(seed, m), n)) by {
        assert forall|k: int| m <= k < m + n implies #[trigger] stream(seed, m + n)[k] == stream(
            state_after(seed, m),
            n,
        )[k - m] by {
            lemma_state_after_add(seed, m, (k - m + 1) as nat);
        }
    }
}

proof fn lemma_state_after_add(seed: u64, m: nat, k: nat)
    ensures
        state_after(state_after(seed, m), k) == state_after(seed, m + k),
    decreases k,
{
    if k > 0 {
        lemma_state_after_add(seed, m, (k - 1) as nat);
    }
}

} // verus!
