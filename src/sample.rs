//! Randomness: uniform, zero-one and discrete Gaussian coefficient vectors,
//! all drawn from an explicitly passed ChaCha20 generator.
use rand::Rng;
use rand::RngCore;
use rand_chacha::ChaCha20Rng;
use vstd::prelude::*;

verus! {

/// The ChaCha20 generator of `rand_chacha`, held opaque: it only passes
/// through to the two calls below.
#[verifier::external_type_specification]
#[verifier::external_body]
pub struct ExChaCha20Rng(ChaCha20Rng);

/// Relies on `rand::Rng::gen_range` (rand 0.8): a value of `[0, n)`; it
/// panics only on an empty range, which `n > 0` rules out.
#[verifier::external_body]
fn gen_below(rng: &mut ChaCha20Rng, n: u64) -> (r: u64)
    requires
        n > 0,
    ensures
        r < n,
{
    rng.gen_range(0..n)
}

/// Relies on `rand_core::RngCore::next_u64`: 64 bits from the generator.
#[verifier::external_body]
fn gen_u64(rng: &mut ChaCha20Rng) -> (r: u64) {
    rng.next_u64()
}

/// `d` values drawn uniformly from `[0, n)`.
pub fn uniform_vec(rng: &mut ChaCha20Rng, n: u64, d: usize) -> (r: Vec<u64>)
    requires
        n > 0,
    ensures
        r.len() == d,
        forall|i: int| 0 <= i < d ==> #[trigger] r@[i] < n,
{
    let mut out: Vec<u64> = Vec::with_capacity(d);
    let mut i: usize = 0;
    while i < d
        invariant
            n > 0,
            i <= d,
            out.len() == i,
            forall|k: int| 0 <= k < i ==> #[trigger] out@[k] < n,
        decreases d - i,
    {
        out.push(gen_below(rng, n));
        i += 1;
    }
    out
}

/// `d` values drawn uniformly from `{0, 1}`.
pub fn zero_one_vec(rng: &mut ChaCha20Rng, d: usize) -> (r: Vec<i64>)
    ensures
        r.len() == d,
        forall|i: int| 0 <= i < d ==> 0 <= #[trigger] r@[i] <= 1,
{
    let mut out: Vec<i64> = Vec::with_capacity(d);
    let mut i: usize = 0;
    while i < d
        invariant
            i <= d,
            out.len() == i,
            forall|k: int| 0 <= k < i ==> 0 <= #[trigger] out@[k] <= 1,
        decreases d - i,
    {
        out.push(gen_below(rng, 2) as i64);
        i += 1;
    }
    out
}

/// A discrete Gaussian on `[-bound, bound]`, held as its cumulative
/// distribution: a 64-bit draw `u` yields `i - bound` for the first `i`
/// with `u < cdf[i]` (the last value when there is none).
#[derive(Debug, Clone)]
pub struct DiscreteGaussian {
    pub bound: u64,
    pub cdf: Vec<u64>,
}

impl DiscreteGaussian {
    pub open spec fn wf(&self) -> bool {
        &&& self.bound < 0x1000_0000
        &&& self.cdf.len() == 2 * self.bound + 1
        &&& forall|i: int, j: int| 0 <= i <= j < self.cdf.len() ==> #[trigger] self.cdf@[i] <= #[trigger] self.cdf@[j]
    }

    /// The sampler for a non-decreasing table of `2·bound + 1` thresholds.
    pub fn new(bound: u64, cdf: Vec<u64>) -> (r: Option<DiscreteGaussian>)
        ensures
            r is Some <==> (bound < 0x1000_0000 && cdf.len() == 2 * bound + 1 && forall|i: int, j: int|
                0 <= i <= j < cdf.len() ==> #[trigger] cdf@[i] <= #[trigger] cdf@[j]),
            r matches Some(g) ==> g.bound == bound && g.cdf == cdf,
    {
        if bound >= 0x1000_0000 || cdf.len() as u64 != 2 * bound + 1 {
            return None;
        }
        let mut i: usize = 1;
        while i < cdf.len()
            invariant
                1 <= i <= cdf.len(),
                forall|a: int, b: int| 0 <= a <= b < i ==> #[trigger] cdf@[a] <= #[trigger] cdf@[b],
            decreases cdf.len() - i,
        {
            if cdf[i - 1] > cdf[i] {
                return None;
            }
            i += 1;
        }
        Some(DiscreteGaussian { bound, cdf })
    }

    /// The value that the 64-bit draw `u` stands for.
    pub fn value_of(&self, u: u64) -> (r: i64)
        requires
            self.wf(),
        ensures
            -(self.bound as int) <= r <= self.bound,
            ({
                let i = r + self.bound;
                &&& (u < self.cdf@[i] || i == self.cdf.len() - 1)
                &&& forall|k: int| 0 <= k < i ==> u >= #[trigger] self.cdf@[k]
            }),
    {
        let last = self.cdf.len() - 1;
        let mut i: usize = 0;
        while i < last && u >= self.cdf[i]
            invariant
                self.wf(),
                last == self.cdf.len() - 1,
                i <= last,
                forall|k: int| 0 <= k < i ==> u >= #[trigger] self.cdf@[k],
            decreases last - i,
        {
            i += 1;
        }
        i as i64 - self.bound as i64
    }

    /// `d` independent draws.
    pub fn sample_vec(&self, rng: &mut ChaCha20Rng, d: usize) -> (r: Vec<i64>)
        requires
            self.wf(),
        ensures
            r.len() == d,
            forall|i: int| 0 <= i < d ==> -(self.bound as int) <= #[trigger] r@[i] <= self.bound,
    {
        let mut out: Vec<i64> = Vec::with_capacity(d);
        let mut i: usize = 0;
        while i < d
            invariant
                self.wf(),
                i <= d,
                out.len() == i,
                forall|k: int| 0 <= k < i ==> -(self.bound as int) <= #[trigger] out@[k] <= self.bound,
            decreases d - i,
        {
            let u = gen_u64(rng);
            out.push(self.value_of(u));
            i += 1;
        }
        out
    }
}

} // verus!
