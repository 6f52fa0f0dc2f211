//! Seeded PCG32. The simulator's ONLY source of randomness.
//!
//! No OS entropy, no time seeding: `--seed 42` must produce a byte-identical
//! market on every run, forever. (The engine itself has no RNG at all.)

use vstd::prelude::*;

verus! {

/// What PCG32 multiplies its state by.
pub const PCG_MULTIPLIER: u64 = 6_364_136_223_846_793_005;

/// `x` rotated right by `r` bits.
pub open spec fn rotated_right(x: u32, r: u32) -> u32 {
    if r == 0 {
        x
    } else {
        (x >> r) | (x << ((32 - r) as u32))
    }
}

/// A point in a PCG32 stream.
pub struct Pcg {
    pub state: u64,
    pub inc: u64,
}

impl Pcg {
    /// The next 32 bits of the stream.
    pub open spec fn bits(self) -> u32 {
        rotated_right(
            (((self.state >> 18) ^ self.state) >> 27) as u32,
            (self.state >> 59) as u32,
        )
    }

    /// The point behind the next 32 bits.
    pub open spec fn step(self) -> Pcg {
        Pcg {
            state: self.state.wrapping_mul(PCG_MULTIPLIER).wrapping_add(self.inc),
            inc: self.inc,
        }
    }

    /// The start of the stream of a seed.
    pub open spec fn seeded(seed: u64) -> Pcg {
        let first = Pcg { state: 0, inc: (seed << 1) | 1 }.step();
        Pcg { state: first.state.wrapping_add(seed), inc: first.inc }.step()
    }

    /// The next 64 bits of the stream: the first 32 are the high ones.
    pub open spec fn word(self) -> u64 {
        ((self.bits() as u64) << 32) | (self.step().bits() as u64)
    }

    /// The point behind the next 64 bits: where every draw leaves the stream.
    pub open spec fn next(self) -> Pcg {
        self.step().step()
    }

    /// The next draw from `0..n`.
    pub open spec fn below(self, n: u64) -> u64 {
        self.word() % n
    }

    /// The next draw from `lo..hi`.
    pub open spec fn range(self, lo: int, hi: int) -> int {
        lo + self.below((hi - lo) as u64)
    }

    /// The next draw with a chance of `pct` percent.
    pub open spec fn chance(self, pct: u64) -> bool {
        self.below(100) < pct
    }

    /// The point behind the next `n` outputs of 32 bits.
    pub open spec fn skip(self, n: nat) -> Pcg
        decreases n,
    {
        if n == 0 {
            self
        } else {
            self.skip((n - 1) as nat).step()
        }
    }
}

/// The seeded generator.
#[derive(Clone, Debug)]
pub struct Pcg32 {
    state: u64,
    inc: u64,
}

impl View for Pcg32 {
    type V = Pcg;

    closed spec fn view(&self) -> Pcg {
        Pcg { state: self.state, inc: self.inc }
    }
}

impl Pcg32 {
    /// The generator of a seed.
    pub fn new(seed: u64) -> (r: Self)
        ensures
            r@ == Pcg::seeded(seed),
    {
        let mut rng = Pcg32 { state: 0, inc: (seed << 1) | 1 };
        let _ = rng.next_u32();
        rng.state = rng.state.wrapping_add(seed);
        let _ = rng.next_u32();
        rng
    }

    /// The next 32 bits.
    pub fn next_u32(&mut self) -> (r: u32)
        ensures
            r == old(self)@.bits(),
            final(self)@ == old(self)@.step(),
    {
        let old = self.state;
        self.state = old.wrapping_mul(PCG_MULTIPLIER).wrapping_add(self.inc);
        let xorshifted = (((old >> 18) ^ old) >> 27) as u32;
        let rot = (old >> 59) as u32;
        proof {
            assert((old >> 59) as u32 <= 31) by (bit_vector);
        }
        if rot == 0 {
            xorshifted
        } else {
            (xorshifted >> rot) | (xorshifted << (32 - rot))
        }
    }

    /// The next 64 bits.
    pub fn next_u64(&mut self) -> (r: u64)
        ensures
            r == old(self)@.word(),
            final(self)@ == old(self)@.next(),
    {
        let high = self.next_u32();
        let low = self.next_u32();
        ((high as u64) << 32) | low as u64
    }

    /// Uniform in [0, n). n must be > 0.
    pub fn below(&mut self, n: u64) -> (r: u64)
        requires
            n > 0,
        ensures
            r == old(self)@.below(n),
            r < n,
            final(self)@ == old(self)@.next(),
    {
        self.next_u64() % n
    }

    /// Uniform in [lo, hi).
    pub fn range_i64(&mut self, lo: i64, hi: i64) -> (r: i64)
        requires
            lo < hi,
            hi - lo <= i64::MAX,
        ensures
            r == old(self)@.range(lo as int, hi as int),
            lo <= r < hi,
            final(self)@ == old(self)@.next(),
    {
        lo + self.below((hi - lo) as u64) as i64
    }

    /// True with probability pct/100.
    pub fn chance(&mut self, pct: u64) -> (r: bool)
        ensures
            r == old(self)@.chance(pct),
            final(self)@ == old(self)@.next(),
    {
        self.below(100) < pct
    }

    /// Twelve outputs of 32 bits: what an approximately normal draw (the sum
    /// of twelve uniform ones) is made of.
    pub fn twelve(&mut self) -> (r: [u32; 12])
        ensures
            forall|i: int| 0 <= i < 12 ==> #[trigger] r@[i] == old(self)@.skip(i as nat).bits(),
            final(self)@ == old(self)@.skip(12),
    {
        let ghost start = self@;
        let mut r = [0u32; 12];
        let mut i: usize = 0;
        while i < 12
            invariant
                i <= 12,
                self@ == start.skip(i as nat),
                forall|k: int| 0 <= k < i ==> #[trigger] r@[k] == start.skip(k as nat).bits(),
            decreases 12 - i,
        {
            r[i] = self.next_u32();
            i += 1;
        }
        r
    }
}

/// One seed, one stream: two generators that stand at the same point draw the
/// same, and stand at the same point afterwards.
pub proof fn law_stream_is_seeded(a: Pcg32, b: Pcg32, seed: u64, n: nat)
    requires
        a@ == Pcg::seeded(seed).skip(n),
        b@ == Pcg::seeded(seed).skip(n),
    ensures
        a@.bits() == b@.bits(),
        a@.step() == b@.step(),
        a@.step() == Pcg::seeded(seed).skip(n + 1),
{
}

} // verus!
