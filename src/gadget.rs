//! Base-`B` digit expansion of integers, least significant digit first.
use vstd::arithmetic::div_mod::*;
use vstd::arithmetic::mul::*;
use vstd::arithmetic::power::*;
use vstd::prelude::*;

verus! {

/// Digit `i` of `x` in base `b`.
pub open spec fn digit(x: int, b: int, i: nat) -> int {
    (x / pow(b, i)) % b
}

/// `Σ_{i < m} digit_i(x)·b^i`.
pub open spec fn digit_sum(x: int, b: int, m: nat) -> int
    decreases m,
{
    if m == 0 {
        0
    } else {
        digit_sum(x, b, (m - 1) as nat) + digit(x, b, (m - 1) as nat) * pow(b, (m - 1) as nat)
    }
}

/// The first `len` digits recombine to `x mod b^len`, and so to `x` itself
/// whenever `x < b^len`: the decomposition loses nothing when the gadget
/// covers the modulus.
pub proof fn lemma_digits_recombine(x: nat, b: nat, len: nat)
    requires
        b >= 2,
    ensures
        digit_sum(x as int, b as int, len) == (x as int) % pow(b as int, len),
        (x as int) < pow(b as int, len) ==> digit_sum(x as int, b as int, len) == x,
    decreases len,
{
    lemma_pow_positive(b as int, len);
    if len == 0 {
        lemma_mod_multiples_basic(x as int, 1);
        assert(pow(b as int, 0) == 1) by {
            lemma_pow0(b as int);
        }
    } else {
        let m = (len - 1) as nat;
        lemma_digits_recombine(x, b, m);
        lemma_pow_positive(b as int, m);
        let y = pow(b as int, m);
        assert(pow(b as int, len) == y * b) by {
            lemma_pow_adds(b as int, m, 1);
            lemma_pow1(b as int);
        }
        lemma_breakdown(x as int, y, b as int);
        lemma_mul_is_commutative(y, digit(x as int, b as int, m));
    }
    if (x as int) < pow(b as int, len) {
        lemma_small_mod(x, pow(b as int, len) as nat);
    }
}

/// The first `len` base-`b` digits of `x`.
pub fn decompose(x: u64, b: u64, len: usize) -> (r: Vec<u64>)
    requires
        b >= 2,
    ensures
        r.len() == len,
        forall|i: int| 0 <= i < len ==> #[trigger] r@[i] == digit(x as int, b as int, i as nat),
        forall|i: int| 0 <= i < len ==> #[trigger] r@[i] < b,
{
    let mut out: Vec<u64> = Vec::with_capacity(len);
    let mut cur: u64 = x;
    let mut i: usize = 0;
    proof {
        lemma_pow0(b as int);
    }
    while i < len
        invariant
            b >= 2,
            i <= len,
            out.len() == i,
            cur as int == (x as int) / pow(b as int, i as nat),
            forall|k: int| 0 <= k < i ==> #[trigger] out@[k] == digit(x as int, b as int, k as nat),
            forall|k: int| 0 <= k < i ==> #[trigger] out@[k] < b,
        decreases len - i,
    {
        proof {
            lemma_mod_bound(cur as int, b as int);
            lemma_pow_positive(b as int, i as nat);
            lemma_div_denominator(x as int, pow(b as int, i as nat), b as int);
            lemma_pow_adds(b as int, i as nat, 1);
            lemma_pow1(b as int);
        }
        out.push(cur % b);
        cur = cur / b;
        i += 1;
    }
    out
}

/// `z^t >= q`, computed without overflow.
fn pow_reaches(z: u64, t: u64, q: u64) -> (r: bool)
    requires
        z >= 1,
    ensures
        r == (pow(z as int, t as nat) >= q),
{
    let mut acc: u64 = 1;
    let mut i: u64 = 0;
    proof {
        lemma_pow0(z as int);
    }
    while i < t
        invariant
            z >= 1,
            i <= t,
            acc as int == pow(z as int, i as nat),
            acc < q || i == 0,
        decreases t - i,
    {
        if acc >= q {
            proof {
                lemma_pow_increases(z as nat, i as nat, t as nat);
            }
            return true;
        }
        proof {
            lemma_pow_adds(z as int, i as nat, 1);
            lemma_pow1(z as int);
            assert(acc * z <= u64::MAX as int * u64::MAX as int) by (nonlinear_arith)
                requires
                    acc <= u64::MAX,
                    z <= u64::MAX,
            ;
        }
        let next = acc as u128 * z as u128;
        if next >= q as u128 {
            proof {
                lemma_pow_increases(z as nat, (i + 1) as nat, t as nat);
            }
            return true;
        }
        acc = next as u64;
        i += 1;
    }
    acc >= q
}

/// The smallest base `z >= 2` with `z^t >= q`: the gadget base for `t` digits.
pub fn gadget_base(q: u64, t: u64) -> (z: u64)
    requires
        q >= 2,
        t >= 1,
    ensures
        z >= 2,
        pow(z as int, t as nat) >= q,
        z == 2 || pow((z - 1) as int, t as nat) < q,
{
    if pow_reaches(2, t, q) {
        return 2;
    }
    let mut lo: u64 = 2;
    let mut hi: u64 = q;
    proof {
        lemma_pow_increases(q as nat, 1, t as nat);
        lemma_pow1(q as int);
    }
    while hi - lo > 1
        invariant
            2 <= lo < hi <= q,
            pow(lo as int, t as nat) < q,
            pow(hi as int, t as nat) >= q,
        decreases hi - lo,
    {
        let mid = lo + (hi - lo) / 2;
        if pow_reaches(mid, t, q) {
            hi = mid;
        } else {
            lo = mid;
        }
    }
    hi
}

} // verus!
