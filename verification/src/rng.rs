//! A seeded generator of numbers: one seed, one sequence, nothing else.

use vstd::prelude::*;

verus! {

/// How far the state moves with each number.
pub const STRIDE: u64 = 0x9E37_79B9_7F4A_7C15;

pub const MIX_A: u64 = 0xBF58_476D_1CE4_E5B9;

pub const MIX_B: u64 = 0x94D0_49BB_1331_11EB;

/// The state after one more number.
pub open spec fn next_state(state: u64) -> u64 {
    state.wrapping_add(STRIDE)
}

/// The number that a state gives.
pub open spec fn mixed(state: u64) -> u64 {
    let a = (state ^ (state >> 30)).wrapping_mul(MIX_A);
    let b = (a ^ (a >> 27)).wrapping_mul(MIX_B);
    b ^ (b >> 31)
}

/// The number that comes next.
pub open spec fn drawn(state: u64) -> u64 {
    mixed(next_state(state))
}

/// A number below a bound.
pub open spec fn drawn_below(state: u64, n: u64) -> u64 {
    drawn(state) % n
}

/// A number of a range.
pub open spec fn drawn_range(state: u64, lo: i64, hi: i64) -> i64 {
    (lo + drawn(state) % ((hi - lo) as u64)) as i64
}

/// A yes with the given odds.
pub open spec fn drawn_chance(state: u64, num: u64, den: u64) -> bool {
    drawn(state) % den < num
}

/// The generator: a splitmix.
pub struct Rng {
    pub state: u64,
}

impl Rng {
    pub fn new(seed: u64) -> (r: Self)
        ensures
            r.state == seed,
    {
        Rng { state: seed }
    }

    /// The next number.
    pub fn next_u64(&mut self) -> (r: u64)
        ensures
            final(self).state == next_state(old(self).state),
            r == drawn(old(self).state),
    {
        self.state = self.state.wrapping_add(STRIDE);
        let mut z: u64 = self.state;
        z = (z ^ (z >> 30)).wrapping_mul(MIX_A);
        z = (z ^ (z >> 27)).wrapping_mul(MIX_B);
        z ^ (z >> 31)
    }

    /// A number in `0..n`.
    pub fn below(&mut self, n: u64) -> (r: u64)
        requires
            n > 0,
        ensures
            final(self).state == next_state(old(self).state),
            r == drawn_below(old(self).state, n),
            r < n,
    {
        self.next_u64() % n
    }

    /// A number in `lo..hi`.
    pub fn range(&mut self, lo: i64, hi: i64) -> (r: i64)
        requires
            lo < hi,
            hi - lo <= i64::MAX,
        ensures
            final(self).state == next_state(old(self).state),
            r == drawn_range(old(self).state, lo, hi),
            lo <= r < hi,
    {
        let off: u64 = self.below((hi - lo) as u64);
        lo + off as i64
    }

    /// Yes in `num` of `den` cases.
    pub fn chance(&mut self, num: u64, den: u64) -> (r: bool)
        requires
            den > 0,
        ensures
            final(self).state == next_state(old(self).state),
            r == drawn_chance(old(self).state, num, den),
    {
        self.below(den) < num
    }

    /// One of some values.
    pub fn one_of<T: Copy>(&mut self, xs: &[T]) -> (r: T)
        requires
            xs@.len() > 0,
        ensures
            final(self).state == next_state(old(self).state),
            r == xs@[drawn_below(old(self).state, xs@.len() as u64) as int],
    {
        let n: u64 = xs.len() as u64;
        let i: u64 = self.below(n);
        xs[i as usize]
    }
}

} // verus!
