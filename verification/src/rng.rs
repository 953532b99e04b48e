//! A small, reseedable pseudo-random number generator.
//!
//! The generator is xoshiro256** (Blackman and Vigna), seeded through
//! splitmix64. Every draw is a function of the generator's state alone, so
//! the contracts below give the exact value of each draw and the exact state
//! that follows it: a session can be replayed from its seed.

use vstd::prelude::*;

verus! {

/// Rotation of a 64-bit word to the left by `k` bits, for `0 < k < 64`.
pub open spec fn rotl_spec(x: u64, k: u64) -> u64 {
    (x << k) | (x >> ((64 - k) as u64))
}

/// The splitmix64 step: the value it yields and the seed that follows.
pub open spec fn splitmix64_spec(seed: u64) -> (u64, u64) {
    let next_seed = seed.wrapping_add(0x9e3779b97f4a7c15);
    let z1 = (next_seed ^ (next_seed >> 30)).wrapping_mul(0xbf58476d1ce4e5b9);
    let z2 = (z1 ^ (z1 >> 27)).wrapping_mul(0x94d049bb133111eb);
    (z2 ^ (z2 >> 31), next_seed)
}

/// The generator that `Rng::seeded` builds from `seed`.
pub open spec fn seeded_spec(seed: u64) -> Rng {
    let (a, seed1) = splitmix64_spec(seed);
    let (b, seed2) = splitmix64_spec(seed1);
    let (c, seed3) = splitmix64_spec(seed2);
    let (d, _seed4) = splitmix64_spec(seed3);
    Rng { initialseed: seed, s0: a, s1: b, s2: c, s3: d }
}

/// True when `cw` never decreases from one entry to the next.
pub open spec fn non_decreasing(cw: Seq<u64>) -> bool {
    forall|i: int, j: int| 0 <= i <= j < cw.len() ==> cw[i] <= cw[j]
}

/// The running sums of `weights`: entry `i` is the sum of the first `i + 1`
/// weights.
pub open spec fn prefix_sum(weights: Seq<u64>, i: int) -> int
    decreases i + 1,
{
    if i < 0 || i >= weights.len() {
        0
    } else {
        prefix_sum(weights, i - 1) + weights[i]
    }
}

/// The position that a weighted draw of `x` selects: the first entry of
/// the running sums `cw` that exceeds `x`, or the last position when none
/// before it does.
pub open spec fn weighted_position(cw: Seq<u64>, x: u64) -> int
    decreases cw.len(),
{
    if cw.len() <= 1 {
        0
    } else if x < cw[0] {
        0
    } else {
        1 + weighted_position(cw.subrange(1, cw.len() as int), x)
    }
}

/// Rotates `x` to the left by `k` bits.
fn rotl(x: u64, k: u64) -> (r: u64)
    requires
        0 < k < 64,
    ensures
        r == rotl_spec(x, k),
{
    (x << k) | (x >> (64 - k))
}

/// State of the xoshiro256** generator, with the seed it was built from.
#[derive(Clone, Copy, Debug, PartialEq, Eq)]
pub struct Rng {
    /// The seed that this generator was created with.
    pub initialseed: u64,
    pub s0: u64,
    pub s1: u64,
    pub s2: u64,
    pub s3: u64,
}

impl Rng {
    /// The value that the next draw yields.
    pub open spec fn output(self) -> u64 {
        rotl_spec(self.s1.wrapping_mul(5), 7).wrapping_mul(9)
    }

    /// The generator after one draw.
    pub open spec fn step(self) -> Rng {
        let t = self.s1 << 17;
        let s2 = self.s2 ^ self.s0;
        let s3 = self.s3 ^ self.s1;
        let s1 = self.s1 ^ s2;
        let s0 = self.s0 ^ s3;
        Rng {
            initialseed: self.initialseed,
            s0: s0,
            s1: s1,
            s2: s2 ^ t,
            s3: rotl_spec(s3, 45),
        }
    }

    /// The generator after `n` draws.
    pub open spec fn advance(self, n: nat) -> Rng
        decreases n,
    {
        if n == 0 {
            self
        } else {
            self.advance((n - 1) as nat).step()
        }
    }

    /// The value of the draw that follows `i` earlier draws.
    pub open spec fn draw(self, i: nat) -> u64 {
        self.advance(i).output()
    }

    /// The value that `range(min, max)` yields on the next draw.
    pub open spec fn range_value(self, min: u64, max: u64) -> u64 {
        (min + self.output() % ((max - min) as u64)) as u64
    }

    /// Creates a generator from a seed value.
    pub fn seeded(seed: u64) -> (r: Self)
        ensures
            r == seeded_spec(seed),
            r.initialseed == seed,
    {
        let (a, seed1) = Self::splitmix64(seed);
        let (b, seed2) = Self::splitmix64(seed1);
        let (c, seed3) = Self::splitmix64(seed2);
        let (d, _seed4) = Self::splitmix64(seed3);
        Rng { initialseed: seed, s0: a, s1: b, s2: c, s3: d }
    }

    /// One splitmix64 step: returns the value and the seed that follows.
    pub fn splitmix64(seed: u64) -> (r: (u64, u64))
        ensures
            r == splitmix64_spec(seed),
    {
        let next_seed = seed.wrapping_add(0x9e3779b97f4a7c15);
        let mut z = next_seed;
        z = (z ^ (z >> 30)).wrapping_mul(0xbf58476d1ce4e5b9);
        z = (z ^ (z >> 27)).wrapping_mul(0x94d049bb133111eb);
        (z ^ (z >> 31), next_seed)
    }

    /// Draws the next random number and advances the state.
    pub fn next(&mut self) -> (r: u64)
        ensures
            r == old(self).output(),
            *final(self) == old(self).step(),
    {
        let result = rotl(self.s1.wrapping_mul(5), 7).wrapping_mul(9);
        let t = self.s1 << 17;

        self.s2 = self.s2 ^ self.s0;
        self.s3 = self.s3 ^ self.s1;
        self.s1 = self.s1 ^ self.s2;
        self.s0 = self.s0 ^ self.s3;

        self.s2 = self.s2 ^ t;

        self.s3 = rotl(self.s3, 45);

        result
    }

    /// Draws a random `u64`.
    pub fn u64(&mut self) -> (r: u64)
        ensures
            r == old(self).output(),
            *final(self) == old(self).step(),
    {
        self.next()
    }

    /// Draws a number in `[min, max)`: the next draw reduced modulo the
    /// width of the interval, which is slightly non-uniform.
    pub fn range(&mut self, min: u64, max: u64) -> (r: u64)
        requires
            min < max,
        ensures
            r == old(self).range_value(min, max),
            r == min + old(self).output() % ((max - min) as u64),
            min <= r < max,
            *final(self) == old(self).step(),
    {
        let width = max - min;
        min + (self.next() % width)
    }

    /// Draws a number in `[0, max)`.
    pub fn below(&mut self, max: u64) -> (r: u64)
        requires
            0 < max,
        ensures
            r == old(self).output() % max,
            r == old(self).range_value(0, max),
            r < max,
            *final(self) == old(self).step(),
    {
        self.range(0, max)
    }

    /// Draws a random boolean: `true` when the next draw is odd.
    pub fn bool(&mut self) -> (r: bool)
        ensures
            r == (old(self).output() % 2 == 1),
            *final(self) == old(self).step(),
    {
        self.below(2) == 1
    }

    /// Draws `len` random bytes, one draw per byte.
    pub fn bytes(&mut self, len: u64) -> (res: Vec<u8>)
        ensures
            res@.len() == len,
            forall|i: int| 0 <= i < len ==> res@[i] == (old(self).draw(i as nat) % 0x100) as u8,
            *final(self) == old(self).advance(len as nat),
    {
        let mut res: Vec<u8> = Vec::new();
        let mut i: u64 = 0;
        while i < len
            invariant
                i <= len,
                res@.len() == i,
                forall|j: int| 0 <= j < i ==> res@[j] == (old(self).draw(j as nat) % 0x100) as u8,
                *self == old(self).advance(i as nat),
            decreases len - i,
        {
            let b = self.below(0x100);
            res.push(b as u8);
            i += 1;
        }
        res
    }

    /// Draws `len` random bytes, each the low eight bits of a draw from
    /// `[min, max)`.
    pub fn bytes_range(&mut self, len: u64, min: u64, max: u64) -> (res: Vec<u8>)
        requires
            min < max,
        ensures
            res@.len() == len,
            forall|i: int|
                0 <= i < len ==> res@[i] == (old(self).advance(i as nat).range_value(min, max)
                    % 0x100) as u8,
            max <= 0x100 ==> forall|i: int| 0 <= i < len ==> min <= #[trigger] res@[i] < max,
            *final(self) == old(self).advance(len as nat),
    {
        let mut res: Vec<u8> = Vec::new();
        let mut i: u64 = 0;
        while i < len
            invariant
                min < max,
                i <= len,
                res@.len() == i,
                forall|j: int|
                    0 <= j < i ==> res@[j] == (old(self).advance(j as nat).range_value(min, max)
                        % 0x100) as u8,
                max <= 0x100 ==> forall|j: int| 0 <= j < i ==> min <= #[trigger] res@[j] < max,
                *self == old(self).advance(i as nat),
            decreases len - i,
        {
            let b = self.range(min, max);
            res.push((b % 0x100) as u8);
            i += 1;
        }
        res
    }

    /// Draws a string of `len` characters, each from the codes `min` to
    /// `max - 1`, which are ASCII codes.
    pub fn text_range(&mut self, len: u64, min: u64, max: u64) -> (res: String)
        requires
            min < max <= 0x80,
        ensures
            res@.len() == len,
            forall|i: int|
                0 <= i < len ==> res@[i] == (old(self).advance(i as nat).range_value(min, max)
                    as u8) as char,
            *final(self) == old(self).advance(len as nat),
    {
        let mut res = String::new();
        let mut i: u64 = 0;
        while i < len
            invariant
                min < max <= 0x80,
                i <= len,
                res@.len() == i,
                forall|j: int|
                    0 <= j < i ==> res@[j] == (old(self).advance(j as nat).range_value(min, max)
                        as u8) as char,
                *self == old(self).advance(i as nat),
            decreases len - i,
        {
            let b = self.range(min, max);
            crate::text::push_char(&mut res, (b as u8) as char);
            i += 1;
        }
        res
    }

    /// Draws a random ASCII string of `len` characters.
    pub fn ascii(&mut self, len: u64) -> (res: String)
        ensures
            res@.len() == len,
            forall|i: int|
                0 <= i < len ==> res@[i] == (old(self).advance(i as nat).range_value(0, 0x80)
                    as u8) as char,
            *final(self) == old(self).advance(len as nat),
    {
        self.text_range(len, 0, 0x7f + 1)
    }

    /// Draws a random string of `len` printable ASCII characters, from the
    /// space to the tilde.
    pub fn ascii_printable(&mut self, len: u64) -> (res: String)
        ensures
            res@.len() == len,
            forall|i: int|
                0 <= i < len ==> res@[i] == (old(self).advance(i as nat).range_value(0x20, 0x7f)
                    as u8) as char,
            forall|i: int| 0 <= i < len ==> 0x20 <= (#[trigger] res@[i]) as u32 <= 0x7e,
            *final(self) == old(self).advance(len as nat),
    {
        self.text_range(len, 0x20, 0x7e + 1)
    }

    /// Picks a position of a non-empty slice of length `len`.
    pub fn index(&mut self, len: usize) -> (pos: usize)
        requires
            0 < len,
        ensures
            pos == old(self).output() % (len as u64),
            pos < len,
            *final(self) == old(self).step(),
    {
        self.below(len as u64) as usize
    }

    /// Picks an element of a non-empty slice, each with the same weight.
    pub fn choice<'a, T>(&mut self, v: &'a [T]) -> (r: &'a T)
        requires
            v@.len() > 0,
        ensures
            *r == v@[(old(self).output() % (v@.len() as u64)) as int],
            *final(self) == old(self).step(),
    {
        let pos = self.index(v.len());
        &v[pos]
    }

    /// Picks a position of `weights` with a chance proportional to its
    /// weight. The weights must have a positive sum that fits in a `u64`.
    pub fn choice_w(&mut self, weights: &[u64]) -> (pos: usize)
        requires
            weights@.len() > 0,
            0 < prefix_sum(weights@, weights@.len() - 1) <= u64::MAX,
        ensures
            pos < weights@.len(),
            weights@[pos as int] > 0,
            prefix_sum(weights@, pos as int - 1) <= old(self).output() % (prefix_sum(
                weights@,
                weights@.len() - 1,
            ) as u64) < prefix_sum(weights@, pos as int),
            *final(self) == old(self).step(),
    {
        let cw = cumulative_weights(weights);
        let pos = self.choice_cw(cw.as_slice());
        proof {
            let x = old(self).output() % cw@[cw@.len() - 1];
            lemma_weighted_position(cw@, x);
            assert(prefix_sum(weights@, pos as int) == prefix_sum(weights@, pos as int - 1)
                + weights@[pos as int]);
        }
        pos
    }

    /// Picks a position given the running sums of the weights: draws `x`
    /// below the total and returns the first position whose running sum
    /// exceeds `x`.
    pub fn choice_cw(&mut self, cumulative_weights: &[u64]) -> (pos: usize)
        requires
            cumulative_weights@.len() > 0,
            non_decreasing(cumulative_weights@),
            cumulative_weights@[cumulative_weights@.len() - 1] > 0,
        ensures
            pos < cumulative_weights@.len(),
            pos == weighted_position(
                cumulative_weights@,
                old(self).output() % cumulative_weights@[cumulative_weights@.len() - 1],
            ),
            *final(self) == old(self).step(),
    {
        let n = cumulative_weights.len();
        let total = cumulative_weights[n - 1];
        let x = self.below(total);
        let pos = bisect(cumulative_weights, x, 0, n - 1);
        proof {
            lemma_bisect_is_weighted_position(cumulative_weights@, x, pos as int);
        }
        pos
    }
}

/// Advancing a generator by `a` draws and then by `b` draws advances it by
/// `a + b` draws.
pub proof fn lemma_advance_add(rng: Rng, a: nat, b: nat)
    ensures
        rng.advance(a).advance(b) == rng.advance(a + b),
    decreases b,
{
    if b > 0 {
        lemma_advance_add(rng, a, (b - 1) as nat);
    }
}

/// One step of Marsaglia's xorshift64 generator.
pub open spec fn xorshift64_spec(state: u64) -> u64 {
    let a = state ^ (state << 13);
    let b = a ^ (a >> 7);
    b ^ (b << 17)
}

/// The xorshift64 generator: smaller and faster than `Rng`, of lower
/// quality. Its state must not be zero, which is a fixed point.
#[derive(Clone, Copy, Debug, PartialEq, Eq)]
pub struct Xorshift64 {
    pub state: u64,
}

impl Xorshift64 {
    /// Creates a generator whose state is the seed.
    pub fn seeded(seed: u64) -> (r: Self)
        ensures
            r.state == seed,
    {
        Xorshift64 { state: seed }
    }

    /// Advances the state by one step and returns it.
    pub fn next(&mut self) -> (r: u64)
        ensures
            r == xorshift64_spec(old(self).state),
            final(self).state == r,
    {
        self.state = self.state ^ (self.state << 13);
        self.state = self.state ^ (self.state >> 7);
        self.state = self.state ^ (self.state << 17);
        self.state
    }
}

/// The running sums of `weights`.
pub fn cumulative_weights(weights: &[u64]) -> (cw: Vec<u64>)
    requires
        prefix_sum(weights@, weights@.len() - 1) <= u64::MAX,
    ensures
        cw@.len() == weights@.len(),
        forall|i: int| 0 <= i < cw@.len() ==> cw@[i] == prefix_sum(weights@, i),
        non_decreasing(cw@),
{
    let mut cw: Vec<u64> = Vec::new();
    let mut total: u64 = 0;
    let mut i: usize = 0;
    while i < weights.len()
        invariant
            i <= weights@.len(),
            cw@.len() == i,
            total == prefix_sum(weights@, i as int - 1),
            forall|j: int| 0 <= j < i ==> cw@[j] == prefix_sum(weights@, j),
            prefix_sum(weights@, weights@.len() - 1) <= u64::MAX,
        decreases weights@.len() - i,
    {
        proof {
            lemma_prefix_sum_monotonic(weights@, i as int, weights@.len() - 1);
        }
        total = total + weights[i];
        cw.push(total);
        i += 1;
    }
    proof {
        assert forall|a: int, b: int| 0 <= a <= b < cw@.len() implies cw@[a] <= cw@[b] by {
            lemma_prefix_sum_monotonic(weights@, a, b);
        }
    }
    cw
}

/// Finds, in the non-decreasing slice `v`, the first position in `[lo, hi]`
/// whose entry exceeds `x`; `hi` when no entry before `hi` does.
pub fn bisect(v: &[u64], x: u64, lo: usize, hi: usize) -> (pos: usize)
    requires
        lo <= hi < v@.len(),
        non_decreasing(v@),
    ensures
        lo <= pos <= hi,
        forall|j: int| lo <= j < pos ==> v@[j] <= x,
        forall|j: int| pos <= j < hi ==> x < v@[j],
{
    let mut lo = lo;
    let mut hi = hi;
    let ghost lo0 = lo;
    let ghost hi0 = hi;
    while lo < hi
        invariant
            lo0 <= lo <= hi <= hi0 < v@.len(),
            non_decreasing(v@),
            forall|j: int| lo0 <= j < lo ==> v@[j] <= x,
            forall|j: int| hi <= j < hi0 ==> x < v@[j],
        decreases hi - lo,
    {
        let mid = lo + (hi - lo) / 2;
        if x < v[mid] {
            hi = mid;
        } else {
            lo = mid + 1;
        }
    }
    lo
}

/// Running sums never decrease.
pub proof fn lemma_prefix_sum_monotonic(weights: Seq<u64>, a: int, b: int)
    requires
        -1 <= a <= b < weights.len(),
    ensures
        prefix_sum(weights, a) <= prefix_sum(weights, b),
    decreases b - a,
{
    if a < b {
        lemma_prefix_sum_monotonic(weights, a, b - 1);
    }
}

/// A position that `bisect` reports over the whole slice is the weighted
/// position of the draw.
pub proof fn lemma_bisect_is_weighted_position(cw: Seq<u64>, x: u64, pos: int)
    requires
        cw.len() > 0,
        0 <= pos <= cw.len() - 1,
        forall|j: int| 0 <= j < pos ==> cw[j] <= x,
        forall|j: int| pos <= j < cw.len() - 1 ==> x < cw[j],
    ensures
        pos == weighted_position(cw, x),
    decreases cw.len(),
{
    if cw.len() <= 1 {
    } else if x < cw[0] {
    } else {
        let rest = cw.subrange(1, cw.len() as int);
        assert forall|j: int| 0 <= j < pos - 1 implies rest[j] <= x by {
            assert(rest[j] == cw[j + 1]);
        }
        assert forall|j: int| pos - 1 <= j < rest.len() - 1 implies x < rest[j] by {
            assert(rest[j] == cw[j + 1]);
        }
        lemma_bisect_is_weighted_position(rest, x, pos - 1);
    }
}

/// Where a draw below the total falls among running sums: at or after the
/// running sum before the position, and before the one at it.
pub proof fn lemma_weighted_position(cw: Seq<u64>, x: u64)
    requires
        cw.len() > 0,
        non_decreasing(cw),
        x < cw[cw.len() - 1],
    ensures
        0 <= weighted_position(cw, x) < cw.len(),
        x < cw[weighted_position(cw, x)],
        weighted_position(cw, x) > 0 ==> cw[weighted_position(cw, x) - 1] <= x,
    decreases cw.len(),
{
    if cw.len() <= 1 {
    } else if x < cw[0] {
    } else {
        let rest = cw.subrange(1, cw.len() as int);
        assert forall|i: int, j: int| 0 <= i <= j < rest.len() implies rest[i] <= rest[j] by {
            assert(rest[i] == cw[i + 1]);
            assert(rest[j] == cw[j + 1]);
        }
        assert(rest[rest.len() - 1] == cw[cw.len() - 1]);
        lemma_weighted_position(rest, x);
        let p = weighted_position(rest, x);
        assert(rest[p] == cw[p + 1]);
        if p > 0 {
            assert(rest[p - 1] == cw[p]);
        }
    }
}

} // verus!
