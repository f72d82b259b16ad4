//! Ring elements modulo `Q = n1·n2` held as a pair of evaluation-form
//! components, one modulo each CRT factor. Addition and multiplication work on
//! each component point by point; reconstruction to coefficients modulo `Q`
//! is needed only for norms and gadget decomposition.
use crate::crt::{crt_reconstruct, crt_value, lemma_crt_round_trip, ConfigError, CrtParams};
use crate::cyclo::{ints, reduced, ring_add, ring_mul, ring_neg, ring_sub, ring_zero};
use crate::gadget::{decompose, digit};
use crate::modular::{add_mod, has_inverse, inv_mod, mul_mod, neg_mod, pow_mod, sub_mod};
use crate::ntt::{intt_spec, ntt_forward, ntt_inverse, ntt_spec};
use crate::ntt_laws::{
    auto_coeffs, lemma_auto_commutes, lemma_convolution, lemma_ntt_add, lemma_ntt_inverse_round_trip, lemma_ntt_neg, lemma_ntt_sub, lemma_ntt_round_trip, lemma_shift_commutes, primitive_root, shift_coeffs,
};
use crate::sample::{uniform_vec, zero_one_vec, DiscreteGaussian};
use rand_chacha::ChaCha20Rng;
use vstd::arithmetic::div_mod::*;
use vstd::arithmetic::power::*;
use vstd::prelude::*;

verus! {

/// `d` is a power of two.
pub open spec fn is_pow2(d: int) -> bool
    decreases d,
{
    if d <= 1 {
        d == 1
    } else {
        d % 2 == 0 && is_pow2(d / 2)
    }
}

/// The point-by-point product of two evaluation vectors.
pub open spec fn pt_mul(a: Seq<int>, b: Seq<int>, n: int) -> Seq<int> {
    Seq::new(a.len(), |i: int| (a[i] * b[i]) % n)
}

/// The constant vector of length `d` with value `v`.
pub open spec fn constant(d: nat, v: int) -> Seq<int> {
    Seq::new(d, |i: int| v)
}

/// Degree, CRT moduli and, for each modulus, a `2D`-th root of unity `w`
/// with `w^D = -1` together with `w^-1` and `D^-1`.
#[derive(Debug, Clone, Copy, PartialEq, Eq, Structural)]
pub struct CycloParams {
    pub d: usize,
    pub crt: CrtParams,
    pub w1: u64,
    pub w2: u64,
    pub w1_inv: u64,
    pub w2_inv: u64,
    pub d1_inv: u64,
    pub d2_inv: u64,
}

/// `w` is a root of `x^D + 1` modulo `n`, `w_inv` its inverse and `d_inv`
/// the inverse of `D`.
pub open spec fn root_ok(d: int, n: int, w: int, w_inv: int, d_inv: int) -> bool {
    &&& w < n
    &&& w_inv < n
    &&& d_inv < n
    &&& pow(w, d as nat) % n == n - 1
    &&& (w * w_inv) % n == 1
    &&& (d * d_inv) % n == 1
}

impl CycloParams {
    pub open spec fn wf(&self) -> bool {
        &&& self.crt.wf()
        &&& 1 <= self.d <= 0x10_0000
        &&& is_pow2(self.d as int)
        &&& root_ok(self.d as int, self.crt.n1 as int, self.w1 as int, self.w1_inv as int, self.d1_inv as int)
        &&& root_ok(self.d as int, self.crt.n2 as int, self.w2 as int, self.w2_inv as int, self.d2_inv as int)
        &&& primitive_root(self.w1 as int, self.d as int, self.crt.n1 as int)
        &&& primitive_root(self.w2 as int, self.d as int, self.crt.n2 as int)
    }

    pub open spec fn n1(&self) -> int {
        self.crt.n1 as int
    }

    pub open spec fn n2(&self) -> int {
        self.crt.n2 as int
    }

    /// The conditions under which `new` accepts its arguments.
    pub open spec fn acceptable(d: int, n1: int, n2: int, w1: int, w2: int) -> bool {
        &&& 1 <= d <= 0x10_0000
        &&& is_pow2(d)
        &&& 1 < n1 <= u32::MAX
        &&& 1 < n2 <= u32::MAX
        &&& has_inverse(n1 % n2, n2)
        &&& has_inverse(n2 % n1, n1)
        &&& w1 < n1
        &&& w2 < n2
        &&& pow(w1, d as nat) % n1 == n1 - 1
        &&& pow(w2, d as nat) % n2 == n2 - 1
        &&& has_inverse(d % n1, n1)
        &&& has_inverse(d % n2, n2)
        &&& primitive_root(w1, d, n1)
        &&& primitive_root(w2, d, n2)
    }

    /// Validates the parameters once and derives the inverses that the
    /// transforms and reconstruction need.
    pub fn new(d: usize, n1: u64, n2: u64, w1: u64, w2: u64) -> (r: Result<CycloParams, ConfigError>)
        ensures
            r is Ok <==> Self::acceptable(d as int, n1 as int, n2 as int, w1 as int, w2 as int),
            r matches Ok(p) ==> p.wf() && p.d == d && p.crt.n1 == n1 && p.crt.n2 == n2 && p.w1 == w1 && p.w2 == w2,
    {
        if d < 1 || d > 0x10_0000 || !check_pow2(d) {
            return Err(ConfigError::DegreeNotPowerOfTwo);
        }
        let crt = match CrtParams::new(n1, n2) {
            Ok(c) => c,
            Err(e) => {
                return Err(e);
            },
        };
        if w1 >= n1 || w2 >= n2 {
            return Err(ConfigError::BadRootOfUnity);
        }
        if pow_mod(w1, d as u64, n1) != n1 - 1 || pow_mod(w2, d as u64, n2) != n2 - 1 {
            return Err(ConfigError::BadRootOfUnity);
        }
        let d1 = d as u64 % n1;
        let d2 = d as u64 % n2;
        let (d1_inv, d2_inv) = match (inv_mod(d1, n1), inv_mod(d2, n2)) {
            (Some(a), Some(b)) => (a, b),
            _ => {
                return Err(ConfigError::NotCoprime);
            },
        };
        // w^D = -1 makes w a unit
        let (w1_inv, w2_inv) = match (inv_mod(w1, n1), inv_mod(w2, n2)) {
            (Some(a), Some(b)) => (a, b),
            _ => {
                proof {
                    lemma_root_unit(w1 as int, d as nat, n1 as int);
                    lemma_root_unit(w2 as int, d as nat, n2 as int);
                }
                return Err(ConfigError::BadRootOfUnity);
            },
        };
        if !check_primitive(w1, d, n1) || !check_primitive(w2, d, n2) {
            return Err(ConfigError::BadRootOfUnity);
        }
        proof {
            lemma_mul_mod_noop_left(d as int, d1_inv as int, n1 as int);
            lemma_mul_mod_noop_left(d as int, d2_inv as int, n2 as int);
        }
        Ok(CycloParams { d, crt, w1, w2, w1_inv, w2_inv, d1_inv, d2_inv })
    }
}

/// A root of `x^D + 1` is invertible: `w · (-w^(D-1)) = -w^D = 1`.
proof fn lemma_root_unit(w: int, d: nat, n: int)
    requires
        1 < n,
        0 <= w < n,
        d >= 1,
        pow(w, d) % n == n - 1,
    ensures
        has_inverse(w, n),
{
    let u = pow(w, (d - 1) as nat);
    lemma_pow_adds(w, 1, (d - 1) as nat);
    lemma_pow1(w);
    let r = (-u) % n;
    lemma_mod_bound(-u, n);
    // w * r ≡ -(w·u) = -w^D ≡ -(n-1) ≡ 1
    lemma_mul_mod_noop_right(w, -u, n);
    assert(w * (-u) == -(w * u)) by (nonlinear_arith);
    assert(w * u == pow(w, d));
    lemma_fundamental_div_mod(pow(w, d), n);
    let k = pow(w, d) / n;
    assert(-(w * u) == n * (-k - 1) + 1) by (nonlinear_arith)
        requires
            w * u == n * k + (n - 1),
    ;
    lemma_mod_multiples_vanish(-k - 1, 1, n);
    lemma_small_mod(1, n as nat);
    assert((w * r) % n == 1);
}

/// Whether `w^m - 1` is a unit modulo `n` for every `0 < m < 2d`.
fn check_primitive(w: u64, d: usize, n: u64) -> (r: bool)
    requires
        1 < n <= u32::MAX,
        w < n,
        1 <= d <= 0x10_0000,
    ensures
        r == forall|m: int| 0 < m < 2 * d ==> has_inverse(#[trigger] (pow(w as int, m as nat) - 1) % (n as int), n as int),
{
    let mut x: u64 = w;
    let mut m: usize = 1;
    proof {
        lemma_pow1(w as int);
        lemma_small_mod(w as nat, n as nat);
    }
    while m < 2 * d
        invariant
            1 < n <= u32::MAX,
            w < n,
            1 <= d <= 0x10_0000,
            1 <= m <= 2 * d,
            x < n,
            x == pow(w as int, m as nat) % (n as int),
            forall|k: int| 0 < k < m ==> has_inverse(#[trigger] (pow(w as int, k as nat) - 1) % (n as int), n as int),
        decreases 2 * d - m,
    {
        let y = sub_mod(x, 1, n);
        proof {
            lemma_sub_mod_noop(pow(w as int, m as nat), 1, n as int);
            lemma_small_mod(1, n as nat);
            lemma_small_mod(x as nat, n as nat);
        }
        proof {
            assert(y == (pow(w as int, m as nat) - 1) % (n as int));
        }
        if inv_mod(y, n).is_none() {
            proof {
                let mi: int = m as int;
                assert(0 < mi < 2 * d && !has_inverse((pow(w as int, mi as nat) - 1) % (n as int), n as int));
                assert(!(forall|k: int| 0 < k < 2 * d ==> has_inverse(#[trigger] (pow(w as int, k as nat) - 1) % (n as int), n as int)));
            }
            return false;
        }
        proof {
            lemma_pow_adds(w as int, m as nat, 1);
            lemma_pow1(w as int);
            lemma_mul_mod_noop_left(pow(w as int, m as nat), w as int, n as int);
        }
        x = mul_mod(x, w, n);
        m += 1;
    }
    true
}

fn check_pow2(d: usize) -> (r: bool)
    ensures
        r == is_pow2(d as int),
{
    let mut x = d;
    while x > 1
        invariant
            is_pow2(d as int) == is_pow2(x as int),
        decreases x,
    {
        if x % 2 != 0 {
            return false;
        }
        x = x / 2;
    }
    x == 1
}


/// The shape shared by the point-by-point operations on one component.
pub open spec fn comp_ok(a: Seq<u64>, n: int, d: int) -> bool {
    a.len() == d && forall|i: int| 0 <= i < d ==> #[trigger] a[i] < n
}

fn comp_add(a: &Vec<u64>, b: &Vec<u64>, n: u64) -> (r: Vec<u64>)
    requires
        n > 0,
        comp_ok(a@, n as int, a.len() as int),
        comp_ok(b@, n as int, a.len() as int),
    ensures
        comp_ok(r@, n as int, a.len() as int),
        ints(r@) == ring_add(ints(a@), ints(b@), n as int),
{
    let d = a.len();
    let mut out: Vec<u64> = Vec::with_capacity(d);
    let mut i: usize = 0;
    while i < d
        invariant
            n > 0,
            d == a.len(),
            comp_ok(a@, n as int, d as int),
            comp_ok(b@, n as int, d as int),
            i <= d,
            out.len() == i,
            forall|k: int| 0 <= k < i ==> #[trigger] out@[k] == (a@[k] + b@[k]) % (n as int),
            forall|k: int| 0 <= k < i ==> #[trigger] out@[k] < n,
        decreases d - i,
    {
        out.push(add_mod(a[i], b[i], n));
        i += 1;
    }
    proof {
        assert(ints(out@) =~= ring_add(ints(a@), ints(b@), n as int));
    }
    out
}

fn comp_sub(a: &Vec<u64>, b: &Vec<u64>, n: u64) -> (r: Vec<u64>)
    requires
        n > 0,
        comp_ok(a@, n as int, a.len() as int),
        comp_ok(b@, n as int, a.len() as int),
    ensures
        comp_ok(r@, n as int, a.len() as int),
        ints(r@) == ring_sub(ints(a@), ints(b@), n as int),
{
    let d = a.len();
    let mut out: Vec<u64> = Vec::with_capacity(d);
    let mut i: usize = 0;
    while i < d
        invariant
            n > 0,
            d == a.len(),
            comp_ok(a@, n as int, d as int),
            comp_ok(b@, n as int, d as int),
            i <= d,
            out.len() == i,
            forall|k: int| 0 <= k < i ==> #[trigger] out@[k] == (a@[k] - b@[k]) % (n as int),
            forall|k: int| 0 <= k < i ==> #[trigger] out@[k] < n,
        decreases d - i,
    {
        out.push(sub_mod(a[i], b[i], n));
        i += 1;
    }
    proof {
        assert(ints(out@) =~= ring_sub(ints(a@), ints(b@), n as int));
    }
    out
}

fn comp_neg(a: &Vec<u64>, n: u64) -> (r: Vec<u64>)
    requires
        n > 0,
        comp_ok(a@, n as int, a.len() as int),
    ensures
        comp_ok(r@, n as int, a.len() as int),
        ints(r@) == ring_neg(ints(a@), n as int),
{
    let d = a.len();
    let mut out: Vec<u64> = Vec::with_capacity(d);
    let mut i: usize = 0;
    while i < d
        invariant
            n > 0,
            d == a.len(),
            comp_ok(a@, n as int, d as int),
            i <= d,
            out.len() == i,
            forall|k: int| 0 <= k < i ==> #[trigger] out@[k] == (-a@[k]) % (n as int),
            forall|k: int| 0 <= k < i ==> #[trigger] out@[k] < n,
        decreases d - i,
    {
        out.push(neg_mod(a[i], n));
        i += 1;
    }
    proof {
        assert(ints(out@) =~= ring_neg(ints(a@), n as int));
    }
    out
}

fn comp_mul(a: &Vec<u64>, b: &Vec<u64>, n: u64) -> (r: Vec<u64>)
    requires
        n > 0,
        comp_ok(a@, n as int, a.len() as int),
        comp_ok(b@, n as int, a.len() as int),
    ensures
        comp_ok(r@, n as int, a.len() as int),
        ints(r@) == pt_mul(ints(a@), ints(b@), n as int),
{
    let d = a.len();
    let mut out: Vec<u64> = Vec::with_capacity(d);
    let mut i: usize = 0;
    while i < d
        invariant
            n > 0,
            d == a.len(),
            comp_ok(a@, n as int, d as int),
            comp_ok(b@, n as int, d as int),
            i <= d,
            out.len() == i,
            forall|k: int| 0 <= k < i ==> #[trigger] out@[k] == (a@[k] * b@[k]) % (n as int),
            forall|k: int| 0 <= k < i ==> #[trigger] out@[k] < n,
        decreases d - i,
    {
        out.push(mul_mod(a[i], b[i], n));
        i += 1;
    }
    proof {
        assert(ints(out@) =~= pt_mul(ints(a@), ints(b@), n as int));
    }
    out
}

/// `s[i] += a[i]·b[i] mod n` for every point.
fn comp_add_eq_mul(s: &mut Vec<u64>, a: &Vec<u64>, b: &Vec<u64>, n: u64)
    requires
        n > 0,
        comp_ok(old(s)@, n as int, a.len() as int),
        comp_ok(a@, n as int, a.len() as int),
        comp_ok(b@, n as int, a.len() as int),
    ensures
        comp_ok(final(s)@, n as int, a.len() as int),
        ints(final(s)@) == ring_add(ints(old(s)@), pt_mul(ints(a@), ints(b@), n as int), n as int),
{
    let d = a.len();
    let ghost s0 = s@;
    let mut i: usize = 0;
    while i < d
        invariant
            n > 0,
            d == a.len(),
            s.len() == d,
            s0.len() == d,
            comp_ok(s0, n as int, d as int),
            comp_ok(a@, n as int, d as int),
            comp_ok(b@, n as int, d as int),
            i <= d,
            forall|k: int| 0 <= k < d ==> #[trigger] s@[k] < n,
            forall|k: int| 0 <= k < i ==> #[trigger] s@[k] == (s0[k] + (a@[k] * b@[k]) % (n as int)) % (n as int),
            forall|k: int| i <= k < d ==> #[trigger] s@[k] == s0[k],
        decreases d - i,
    {
        let p = mul_mod(a[i], b[i], n);
        let v = add_mod(s[i], p, n);
        s.set(i, v);
        i += 1;
    }
    proof {
        assert(ints(s@) =~= ring_add(ints(s0), pt_mul(ints(a@), ints(b@), n as int), n as int));
    }
}

/// The residue of the signed value `c` modulo `n`, in `[0, n)`.
pub fn signed_residue(c: i64, n: u64) -> (r: u64)
    requires
        n > 0,
    ensures
        r == (c as int) % (n as int),
        r < n,
{
    if c >= 0 {
        (c as u64) % n
    } else {
        let m: u64 = (-(c as i128)) as u64;
        let a = m % n;
        proof {
            lemma_mod_bound(m as int, n as int);
            lemma_sub_mod_noop(0, m as int, n as int);
            lemma_small_mod(0, n as nat);
        }
        if a == 0 {
            proof {
                lemma_small_mod(0, n as nat);
            }
            0
        } else {
            proof {
                lemma_mod_add_multiples_vanish(-(a as int), n as int);
                lemma_small_mod((n - a) as nat, n as nat);
            }
            n - a
        }
    }
}

/// The residues of a coefficient vector modulo `n`.
fn residues(c: &Vec<u64>, n: u64) -> (r: Vec<u64>)
    requires
        n > 0,
    ensures
        comp_ok(r@, n as int, c.len() as int),
        forall|i: int| 0 <= i < c.len() ==> #[trigger] r@[i] == (c@[i] as int) % (n as int),
{
    let mut out: Vec<u64> = Vec::with_capacity(c.len());
    let mut i: usize = 0;
    while i < c.len()
        invariant
            n > 0,
            i <= c.len(),
            out.len() == i,
            forall|k: int| 0 <= k < i ==> #[trigger] out@[k] == (c@[k] as int) % (n as int),
            forall|k: int| 0 <= k < i ==> #[trigger] out@[k] < n,
        decreases c.len() - i,
    {
        out.push(c[i] % n);
        i += 1;
    }
    out
}

/// The residues of a signed coefficient vector modulo `n`.
fn signed_residues(c: &Vec<i64>, n: u64) -> (r: Vec<u64>)
    requires
        n > 0,
    ensures
        comp_ok(r@, n as int, c.len() as int),
        forall|i: int| 0 <= i < c.len() ==> #[trigger] r@[i] == (c@[i] as int) % (n as int),
{
    let mut out: Vec<u64> = Vec::with_capacity(c.len());
    let mut i: usize = 0;
    while i < c.len()
        invariant
            n > 0,
            i <= c.len(),
            out.len() == i,
            forall|k: int| 0 <= k < i ==> #[trigger] out@[k] == (c@[k] as int) % (n as int),
            forall|k: int| 0 <= k < i ==> #[trigger] out@[k] < n,
        decreases c.len() - i,
    {
        out.push(signed_residue(c[i], n));
        i += 1;
    }
    out
}

/// `|c|` for a value modulo `q` taken in `(-q/2, q/2]`.
pub open spec fn centered_abs(c: int, q: int) -> int {
    if c <= q / 2 {
        c
    } else {
        q - c
    }
}

/// The largest centered absolute value among `s`.
pub open spec fn max_centered(s: Seq<int>, q: int) -> int
    decreases s.len(),
{
    if s.len() == 0 {
        0
    } else {
        let m = max_centered(s.drop_last(), q);
        let c = centered_abs(s.last(), q);
        if c > m {
            c
        } else {
            m
        }
    }
}

/// The residues modulo `n` of an integer vector.
pub open spec fn mod_all(c: Seq<int>, n: int) -> Seq<int> {
    Seq::new(c.len(), |i: int| c[i] % n)
}

/// The slot whose point `w^(2j'+1)` is `w^((2j+1)k)`: for odd `k`, the
/// automorphism `x ↦ x^k` moves the value at slot `j'` to slot `j`.
pub open spec fn auto_index(j: int, k: int, d: int) -> int {
    (((2 * j + 1) * k) % (2 * d)) / 2
}

/// The exponent of `w` by which `x^k` scales slot `j`.
pub open spec fn shift_exp(j: int, k: int, d: int) -> nat {
    (((2 * j + 1) * k) % (2 * d)) as nat
}

/// Digit `k` of every coefficient of `c`.
pub open spec fn digit_poly(c: Seq<int>, b: int, k: nat) -> Seq<int> {
    Seq::new(c.len(), |i: int| digit(c[i], b, k))
}

/// Reducing a running sum of raw products gives what reducing after each
/// step gives: the deferred accumulate and the reduced one agree.
pub proof fn lemma_lazy_matches_reduced(raw: int, acc: int, a: int, b: int, n: int)
    requires
        n > 0,
        raw % n == acc,
    ensures
        (raw + a * b) % n == (acc + (a * b) % n) % n,
{
    lemma_add_mod_noop(raw, a * b, n);
}

fn comp_auto(a: &Vec<u64>, k: usize, d: usize) -> (r: Vec<u64>)
    requires
        1 <= d <= 0x10_0000,
        a.len() == d,
    ensures
        r.len() == d,
        forall|j: int| 0 <= j < d ==> 0 <= #[trigger] auto_index(j, k as int, d as int) < d,
        forall|j: int| 0 <= j < d ==> #[trigger] r@[j] == a@[auto_index(j, k as int, d as int)],
{
    let two_d = 2 * d;
    let km = k % two_d;
    let mut out: Vec<u64> = Vec::with_capacity(d);
    let mut j: usize = 0;
    while j < d
        invariant
            1 <= d <= 0x10_0000,
            a.len() == d,
            two_d == 2 * d,
            km == k % two_d,
            j <= d,
            out.len() == j,
            forall|t: int| 0 <= t < j ==> #[trigger] out@[t] == a@[auto_index(t, k as int, d as int)],
        decreases d - j,
    {
        proof {
            assert((2 * j + 1) * km <= 0x20_0000 * 0x20_0000) by (nonlinear_arith)
                requires
                    j < d <= 0x10_0000,
                    km < 2 * d,
            ;
            lemma_mul_mod_noop_right((2 * j + 1) as int, k as int, two_d as int);
            lemma_mod_bound((2 * j + 1) * k, two_d as int);
        }
        let e = ((2 * j as u64 + 1) * km as u64) % two_d as u64;
        out.push(a[(e / 2) as usize]);
        j += 1;
    }
    proof {
        assert forall|t: int| 0 <= t < d implies 0 <= #[trigger] auto_index(t, k as int, d as int) < d by {
            lemma_mod_bound((2 * t + 1) * k, 2 * d);
        }
    }
    out
}

fn comp_mul_x_pow(a: &Vec<u64>, k: usize, w: u64, n: u64, d: usize) -> (r: Vec<u64>)
    requires
        1 <= d <= 0x10_0000,
        a.len() == d,
        n > 0,
    ensures
        r.len() == d,
        forall|j: int| 0 <= j < d ==> #[trigger] r@[j] == (a@[j] * (pow(w as int, shift_exp(j, k as int, d as int)) % (n as int))) % (n as int),
        forall|j: int| 0 <= j < d ==> #[trigger] r@[j] < n,
{
    let two_d = 2 * d;
    let km = k % two_d;
    let mut out: Vec<u64> = Vec::with_capacity(d);
    let mut j: usize = 0;
    while j < d
        invariant
            1 <= d <= 0x10_0000,
            a.len() == d,
            n > 0,
            two_d == 2 * d,
            km == k % two_d,
            j <= d,
            out.len() == j,
            forall|t: int| 0 <= t < j ==> #[trigger] out@[t] == (a@[t] * (pow(w as int, shift_exp(t, k as int, d as int)) % (n as int))) % (n as int),
            forall|t: int| 0 <= t < j ==> #[trigger] out@[t] < n,
        decreases d - j,
    {
        proof {
            assert((2 * j + 1) * km <= 0x20_0000 * 0x20_0000) by (nonlinear_arith)
                requires
                    j < d <= 0x10_0000,
                    km < 2 * d,
            ;
            lemma_mul_mod_noop_right((2 * j + 1) as int, k as int, two_d as int);
            lemma_mod_bound((2 * j + 1) * k, two_d as int);
        }
        let e = ((2 * j as u64 + 1) * km as u64) % two_d as u64;
        let f = pow_mod(w, e, n);
        out.push(mul_mod(a[j], f, n));
        j += 1;
    }
    out
}

/// The coefficients modulo `Q` of the element with evaluation vectors `v1`, `v2`.
pub open spec fn q_coeffs_of(v1: Seq<int>, v2: Seq<int>, p: CycloParams) -> Seq<int> {
    Seq::new(
        p.d as nat,
        |i: int|
            crt_value(
                intt_spec(v1, p.w1_inv as int, p.d1_inv as int, p.crt.n1 as int)[i],
                intt_spec(v2, p.w2_inv as int, p.d2_inv as int, p.crt.n2 as int)[i],
                p.crt,
            ),
    )
}

/// Moving coefficients to evaluation form and back gives them back, in
/// both components of every well-formed ring.
pub proof fn lemma_eval_round_trip(p: CycloParams, c1: Seq<int>, c2: Seq<int>)
    requires
        p.wf(),
        c1.len() == p.d,
        c2.len() == p.d,
        reduced(c1, p.n1()),
        reduced(c2, p.n2()),
    ensures
        intt_spec(ntt_spec(c1, p.w1 as int, p.n1()), p.w1_inv as int, p.d1_inv as int, p.n1()) == c1,
        intt_spec(ntt_spec(c2, p.w2 as int, p.n2()), p.w2_inv as int, p.d2_inv as int, p.n2()) == c2,
{
    lemma_ntt_round_trip(c1, p.w1 as int, p.w1_inv as int, p.d1_inv as int, p.n1());
    lemma_ntt_round_trip(c2, p.w2 as int, p.w2_inv as int, p.d2_inv as int, p.n2());
}

/// The coefficients, modulo the factor `first` or the second, of the
/// evaluation vector `v`.
pub open spec fn coeffs_of(p: CycloParams, v: Seq<int>, first: bool) -> Seq<int> {
    if first {
        intt_spec(v, p.w1_inv as int, p.d1_inv as int, p.n1())
    } else {
        intt_spec(v, p.w2_inv as int, p.d2_inv as int, p.n2())
    }
}

/// Reduced evaluation vectors of length `D` for component `first`.
pub open spec fn evals_ok(p: CycloParams, v: Seq<int>, first: bool) -> bool {
    v.len() == p.d && reduced(v, if first { p.n1() } else { p.n2() })
}

/// Point-by-point operations on evaluation vectors represent the ring
/// operations on their coefficients: sum (`op == 0`), difference (`1`),
/// negation (`2`) and negacyclic product (`3`).
pub(crate) proof fn lemma_represents(p: CycloParams, x: Seq<int>, y: Seq<int>, first: bool, op: int)
    requires
        p.wf(),
        evals_ok(p, x, first),
        evals_ok(p, y, first),
    ensures
        ({
            let n = if first { p.n1() } else { p.n2() };
            let cx = coeffs_of(p, x, first);
            let cy = coeffs_of(p, y, first);
            &&& op == 0 ==> coeffs_of(p, ring_add(x, y, n), first) == ring_add(cx, cy, n)
            &&& op == 1 ==> coeffs_of(p, ring_sub(x, y, n), first) == ring_sub(cx, cy, n)
            &&& op == 2 ==> coeffs_of(p, ring_neg(x, n), first) == ring_neg(cx, n)
            &&& op == 3 ==> coeffs_of(p, pt_mul(x, y, n), first) == ring_mul(cx, cy, n)
        }),
{
    let n = if first { p.n1() } else { p.n2() };
    let w = if first { p.w1 as int } else { p.w2 as int };
    let wi = if first { p.w1_inv as int } else { p.w2_inv as int };
    let di = if first { p.d1_inv as int } else { p.d2_inv as int };
    lemma_ntt_inverse_round_trip(x, w, wi, di, n);
    lemma_ntt_inverse_round_trip(y, w, wi, di, n);
    let cx = coeffs_of(p, x, first);
    let cy = coeffs_of(p, y, first);
    let m = if op == 0 {
        ring_add(cx, cy, n)
    } else if op == 1 {
        ring_sub(cx, cy, n)
    } else if op == 2 {
        ring_neg(cx, n)
    } else {
        ring_mul(cx, cy, n)
    };
    if op == 0 {
        lemma_ntt_add(cx, cy, w, n);
    } else if op == 1 {
        lemma_ntt_sub(cx, cy, w, n);
    } else if op == 2 {
        lemma_ntt_neg(cx, w, n);
    } else if op == 3 {
        lemma_convolution(cx, cy, w, n);
    }
    assert forall|k: int| 0 <= k < m.len() implies 0 <= #[trigger] m[k] < n by {
        lemma_mod_bound(cx[k] + cy[k], n);
        lemma_mod_bound(cx[k] - cy[k], n);
        lemma_mod_bound(-cx[k], n);
        lemma_mod_bound(crate::cyclo::nega_coeff(cx, cy, k), n);
    }
    lemma_ntt_round_trip(m, w, wi, di, n);
}

/// The same for an element `x`, evaluation vectors `y1`, `y2` and a result
/// `r` that the operation produced.
proof fn lemma_elem_represents(x: IntModCycloCRTEval, y1: Seq<int>, y2: Seq<int>, r: IntModCycloCRTEval, op: int)
    requires
        x.wf(),
        evals_ok(x.params, y1, true),
        evals_ok(x.params, y2, false),
        r.params == x.params,
        op == 0 ==> r.v1() == ring_add(x.v1(), y1, x.params.n1()) && r.v2() == ring_add(x.v2(), y2, x.params.n2()),
        op == 1 ==> r.v1() == ring_sub(x.v1(), y1, x.params.n1()) && r.v2() == ring_sub(x.v2(), y2, x.params.n2()),
        op == 2 ==> r.v1() == ring_neg(x.v1(), x.params.n1()) && r.v2() == ring_neg(x.v2(), x.params.n2()),
        op == 3 ==> r.v1() == pt_mul(x.v1(), y1, x.params.n1()) && r.v2() == pt_mul(x.v2(), y2, x.params.n2()),
    ensures
        ({
            let p = x.params;
            let c1 = coeffs_of(p, y1, true);
            let c2 = coeffs_of(p, y2, false);
            &&& op == 0 ==> r.coeffs1() == ring_add(x.coeffs1(), c1, p.n1()) && r.coeffs2() == ring_add(x.coeffs2(), c2, p.n2())
            &&& op == 1 ==> r.coeffs1() == ring_sub(x.coeffs1(), c1, p.n1()) && r.coeffs2() == ring_sub(x.coeffs2(), c2, p.n2())
            &&& op == 2 ==> r.coeffs1() == ring_neg(x.coeffs1(), p.n1()) && r.coeffs2() == ring_neg(x.coeffs2(), p.n2())
            &&& op == 3 ==> r.coeffs1() == ring_mul(x.coeffs1(), c1, p.n1()) && r.coeffs2() == ring_mul(x.coeffs2(), c2, p.n2())
        }),
{
    lemma_represents(x.params, x.v1(), y1, true, op);
    lemma_represents(x.params, x.v2(), y2, false, op);
}

/// A ring element modulo `Q = n1·n2`: evaluation points `p1` modulo `n1`
/// and `p2` modulo `n2`.
#[derive(Debug, Clone)]
pub struct IntModCycloCRTEval {
    pub params: CycloParams,
    pub p1: Vec<u64>,
    pub p2: Vec<u64>,
}

impl IntModCycloCRTEval {
    pub open spec fn v1(&self) -> Seq<int> {
        ints(self.p1@)
    }

    pub open spec fn v2(&self) -> Seq<int> {
        ints(self.p2@)
    }

    pub open spec fn wf(&self) -> bool {
        &&& self.params.wf()
        &&& comp_ok(self.p1@, self.params.n1(), self.params.d as int)
        &&& comp_ok(self.p2@, self.params.n2(), self.params.d as int)
    }

    /// The coefficients modulo `n1` that the first component evaluates.
    pub open spec fn coeffs1(&self) -> Seq<int> {
        intt_spec(self.v1(), self.params.w1_inv as int, self.params.d1_inv as int, self.params.n1())
    }

    /// The coefficients modulo `n2` that the second component evaluates.
    pub open spec fn coeffs2(&self) -> Seq<int> {
        intt_spec(self.v2(), self.params.w2_inv as int, self.params.d2_inv as int, self.params.n2())
    }

    /// The coefficients modulo `Q`.
    pub open spec fn q_coeffs(&self) -> Seq<int> {
        q_coeffs_of(self.v1(), self.v2(), self.params)
    }

    fn from_points(params: CycloParams, p1: Vec<u64>, p2: Vec<u64>) -> (r: IntModCycloCRTEval)
        requires
            params.wf(),
            p1.len() == params.d,
            p2.len() == params.d,
            forall|i: int| 0 <= i < p1.len() ==> #[trigger] p1@[i] < params.crt.n1,
            forall|i: int| 0 <= i < p2.len() ==> #[trigger] p2@[i] < params.crt.n2,
        ensures
            r.wf(),
            r.params == params,
            r.p1@ == p1@,
            r.p2@ == p2@,
    {
        IntModCycloCRTEval { params, p1, p2 }
    }

    /// A copy with the same parameters and points.
    pub fn duplicate(&self) -> (r: IntModCycloCRTEval)
        ensures
            r.params == self.params,
            r.p1@ == self.p1@,
            r.p2@ == self.p2@,
    {
        let p1 = self.p1.clone();
        let p2 = self.p2.clone();
        proof {
            assert(p1@ =~= self.p1@);
            assert(p2@ =~= self.p2@);
        }
        IntModCycloCRTEval { params: self.params, p1, p2 }
    }

    /// The element with the constant value `a mod Q`.
    pub fn from_u64(params: &CycloParams, a: u64) -> (r: IntModCycloCRTEval)
        requires
            params.wf(),
        ensures
            r.wf(),
            r.params == *params,
            r.v1() == constant(params.d as nat, (a as int) % params.n1()),
            r.v2() == constant(params.d as nat, (a as int) % params.n2()),
    {
        let r = IntModCycloCRTEval {
            params: *params,
            p1: vec![a % params.crt.n1; params.d],
            p2: vec![a % params.crt.n2; params.d],
        };
        proof {
            assert(r.v1() =~= constant(params.d as nat, (a as int) % params.n1()));
            assert(r.v2() =~= constant(params.d as nat, (a as int) % params.n2()));
        }
        r
    }

    pub fn zero(params: &CycloParams) -> (r: IntModCycloCRTEval)
        requires
            params.wf(),
        ensures
            r.wf(),
            r.params == *params,
            r.v1() == ring_zero(params.d as nat),
            r.v2() == ring_zero(params.d as nat),
    {
        let r = IntModCycloCRTEval { params: *params, p1: vec![0; params.d], p2: vec![0; params.d] };
        proof {
            assert(r.v1() =~= ring_zero(params.d as nat));
            assert(r.v2() =~= ring_zero(params.d as nat));
        }
        r
    }

    /// The unit, whose every evaluation is `1`.
    pub fn one(params: &CycloParams) -> (r: IntModCycloCRTEval)
        requires
            params.wf(),
        ensures
            r.wf(),
            r.params == *params,
            r.v1() == constant(params.d as nat, 1),
            r.v2() == constant(params.d as nat, 1),
    {
        let r = IntModCycloCRTEval { params: *params, p1: vec![1; params.d], p2: vec![1; params.d] };
        proof {
            assert(r.v1() =~= constant(params.d as nat, 1));
            assert(r.v2() =~= constant(params.d as nat, 1));
        }
        r
    }

    /// Two elements over the same parameters.
    pub open spec fn compatible(&self, o: &IntModCycloCRTEval) -> bool {
        self.wf() && o.wf() && self.params == o.params
    }

    pub fn add(&self, other: &IntModCycloCRTEval) -> (r: IntModCycloCRTEval)
        requires
            self.compatible(other),
        ensures
            r.wf(),
            r.params == self.params,
            r.v1() == ring_add(self.v1(), other.v1(), self.params.n1()),
            r.v2() == ring_add(self.v2(), other.v2(), self.params.n2()),
            r.coeffs1() == ring_add(self.coeffs1(), other.coeffs1(), self.params.n1()),
            r.coeffs2() == ring_add(self.coeffs2(), other.coeffs2(), self.params.n2()),
    {
        let p1 = comp_add(&self.p1, &other.p1, self.params.crt.n1);
        let p2 = comp_add(&self.p2, &other.p2, self.params.crt.n2);
        let r = IntModCycloCRTEval::from_points(self.params, p1, p2);
        proof {
            lemma_elem_represents(*self, other.v1(), other.v2(), r, 0);
        }
        r
    }

    pub fn sub(&self, other: &IntModCycloCRTEval) -> (r: IntModCycloCRTEval)
        requires
            self.compatible(other),
        ensures
            r.wf(),
            r.params == self.params,
            r.v1() == ring_sub(self.v1(), other.v1(), self.params.n1()),
            r.v2() == ring_sub(self.v2(), other.v2(), self.params.n2()),
            r.coeffs1() == ring_sub(self.coeffs1(), other.coeffs1(), self.params.n1()),
            r.coeffs2() == ring_sub(self.coeffs2(), other.coeffs2(), self.params.n2()),
    {
        let p1 = comp_sub(&self.p1, &other.p1, self.params.crt.n1);
        let p2 = comp_sub(&self.p2, &other.p2, self.params.crt.n2);
        let r = IntModCycloCRTEval::from_points(self.params, p1, p2);
        proof {
            lemma_elem_represents(*self, other.v1(), other.v2(), r, 1);
        }
        r
    }

    /// The product: point by point in each component.
    pub fn mul(&self, other: &IntModCycloCRTEval) -> (r: IntModCycloCRTEval)
        requires
            self.compatible(other),
        ensures
            r.wf(),
            r.params == self.params,
            r.v1() == pt_mul(self.v1(), other.v1(), self.params.n1()),
            r.v2() == pt_mul(self.v2(), other.v2(), self.params.n2()),
            r.coeffs1() == ring_mul(self.coeffs1(), other.coeffs1(), self.params.n1()),
            r.coeffs2() == ring_mul(self.coeffs2(), other.coeffs2(), self.params.n2()),
    {
        let p1 = comp_mul(&self.p1, &other.p1, self.params.crt.n1);
        let p2 = comp_mul(&self.p2, &other.p2, self.params.crt.n2);
        let r = IntModCycloCRTEval::from_points(self.params, p1, p2);
        proof {
            lemma_elem_represents(*self, other.v1(), other.v2(), r, 3);
        }
        r
    }

    pub fn neg(&self) -> (r: IntModCycloCRTEval)
        requires
            self.wf(),
        ensures
            r.wf(),
            r.params == self.params,
            r.v1() == ring_neg(self.v1(), self.params.n1()),
            r.v2() == ring_neg(self.v2(), self.params.n2()),
            r.coeffs1() == ring_neg(self.coeffs1(), self.params.n1()),
            r.coeffs2() == ring_neg(self.coeffs2(), self.params.n2()),
    {
        let p1 = comp_neg(&self.p1, self.params.crt.n1);
        let p2 = comp_neg(&self.p2, self.params.crt.n2);
        let r = IntModCycloCRTEval::from_points(self.params, p1, p2);
        proof {
            lemma_elem_represents(*self, self.v1(), self.v2(), r, 2);
        }
        r
    }

    /// `self += a·b`.
    pub fn add_eq_mul(&mut self, a: &IntModCycloCRTEval, b: &IntModCycloCRTEval)
        requires
            old(self).compatible(a),
            a.compatible(b),
        ensures
            final(self).wf(),
            final(self).params == old(self).params,
            final(self).v1() == ring_add(old(self).v1(), pt_mul(a.v1(), b.v1(), a.params.n1()), a.params.n1()),
            final(self).v2() == ring_add(old(self).v2(), pt_mul(a.v2(), b.v2(), a.params.n2()), a.params.n2()),
            final(self).coeffs1() == ring_add(old(self).coeffs1(), ring_mul(a.coeffs1(), b.coeffs1(), a.params.n1()), a.params.n1()),
            final(self).coeffs2() == ring_add(old(self).coeffs2(), ring_mul(a.coeffs2(), b.coeffs2(), a.params.n2()), a.params.n2()),
    {
        let ghost s0 = *self;
        comp_add_eq_mul(&mut self.p1, &a.p1, &b.p1, a.params.crt.n1);
        comp_add_eq_mul(&mut self.p2, &a.p2, &b.p2, a.params.crt.n2);
        proof {
            let p = a.params;
            let y1 = pt_mul(a.v1(), b.v1(), p.n1());
            let y2 = pt_mul(a.v2(), b.v2(), p.n2());
            assert forall|k: int| 0 <= k < y1.len() implies 0 <= #[trigger] y1[k] < p.n1() by {
                lemma_mod_bound(a.v1()[k] * b.v1()[k], p.n1());
            }
            assert forall|k: int| 0 <= k < y2.len() implies 0 <= #[trigger] y2[k] < p.n2() by {
                lemma_mod_bound(a.v2()[k] * b.v2()[k], p.n2());
            }
            lemma_represents(p, a.v1(), b.v1(), true, 3);
            lemma_represents(p, a.v2(), b.v2(), false, 3);
            lemma_elem_represents(s0, y1, y2, *self, 0);
        }
    }

    pub fn add_assign(&mut self, rhs: &IntModCycloCRTEval)
        requires
            old(self).compatible(rhs),
        ensures
            final(self).wf(),
            final(self).params == old(self).params,
            final(self).v1() == ring_add(old(self).v1(), rhs.v1(), rhs.params.n1()),
            final(self).v2() == ring_add(old(self).v2(), rhs.v2(), rhs.params.n2()),
            final(self).coeffs1() == ring_add(old(self).coeffs1(), rhs.coeffs1(), rhs.params.n1()),
            final(self).coeffs2() == ring_add(old(self).coeffs2(), rhs.coeffs2(), rhs.params.n2()),
    {
        let ghost s0 = *self;
        self.p1 = comp_add(&self.p1, &rhs.p1, rhs.params.crt.n1);
        self.p2 = comp_add(&self.p2, &rhs.p2, rhs.params.crt.n2);
        proof {
            lemma_elem_represents(s0, rhs.v1(), rhs.v2(), *self, 0);
        }
    }

    pub fn sub_assign(&mut self, rhs: &IntModCycloCRTEval)
        requires
            old(self).compatible(rhs),
        ensures
            final(self).wf(),
            final(self).params == old(self).params,
            final(self).v1() == ring_sub(old(self).v1(), rhs.v1(), rhs.params.n1()),
            final(self).v2() == ring_sub(old(self).v2(), rhs.v2(), rhs.params.n2()),
            final(self).coeffs1() == ring_sub(old(self).coeffs1(), rhs.coeffs1(), rhs.params.n1()),
            final(self).coeffs2() == ring_sub(old(self).coeffs2(), rhs.coeffs2(), rhs.params.n2()),
    {
        let ghost s0 = *self;
        self.p1 = comp_sub(&self.p1, &rhs.p1, rhs.params.crt.n1);
        self.p2 = comp_sub(&self.p2, &rhs.p2, rhs.params.crt.n2);
        proof {
            lemma_elem_represents(s0, rhs.v1(), rhs.v2(), *self, 1);
        }
    }

    pub fn mul_assign(&mut self, rhs: &IntModCycloCRTEval)
        requires
            old(self).compatible(rhs),
        ensures
            final(self).wf(),
            final(self).params == old(self).params,
            final(self).v1() == pt_mul(old(self).v1(), rhs.v1(), rhs.params.n1()),
            final(self).v2() == pt_mul(old(self).v2(), rhs.v2(), rhs.params.n2()),
            final(self).coeffs1() == ring_mul(old(self).coeffs1(), rhs.coeffs1(), rhs.params.n1()),
            final(self).coeffs2() == ring_mul(old(self).coeffs2(), rhs.coeffs2(), rhs.params.n2()),
    {
        let ghost s0 = *self;
        self.p1 = comp_mul(&self.p1, &rhs.p1, rhs.params.crt.n1);
        self.p2 = comp_mul(&self.p2, &rhs.p2, rhs.params.crt.n2);
        proof {
            lemma_elem_represents(s0, rhs.v1(), rhs.v2(), *self, 3);
        }
    }
    /// The element with coefficients `c1` modulo `n1` and `c2` modulo `n2`,
    /// moved to evaluation form.
    pub fn from_coeffs(params: &CycloParams, c1: &Vec<u64>, c2: &Vec<u64>) -> (r: IntModCycloCRTEval)
        requires
            params.wf(),
            comp_ok(c1@, params.n1(), params.d as int),
            comp_ok(c2@, params.n2(), params.d as int),
        ensures
            r.wf(),
            r.params == *params,
            r.v1() == ntt_spec(ints(c1@), params.w1 as int, params.n1()),
            r.v2() == ntt_spec(ints(c2@), params.w2 as int, params.n2()),
            r.coeffs1() == ints(c1@),
            r.coeffs2() == ints(c2@),
    {
        let p1 = ntt_forward(c1, params.w1, params.crt.n1);
        let p2 = ntt_forward(c2, params.w2, params.crt.n2);
        let r = IntModCycloCRTEval::from_points(*params, p1, p2);
        proof {
            assert(reduced(ints(c1@), params.n1()));
            assert(reduced(ints(c2@), params.n2()));
            lemma_eval_round_trip(*params, ints(c1@), ints(c2@));
        }
        r
    }

    /// The element whose coefficients modulo `Q` are `c` (each taken modulo
    /// both factors).
    pub fn from_q_coeffs(params: &CycloParams, c: &Vec<u64>) -> (r: IntModCycloCRTEval)
        requires
            params.wf(),
            c.len() == params.d,
        ensures
            r.wf(),
            r.params == *params,
            r.v1() == ntt_spec(mod_all(ints(c@), params.n1()), params.w1 as int, params.n1()),
            r.v2() == ntt_spec(mod_all(ints(c@), params.n2()), params.w2 as int, params.n2()),
            (forall|i: int| 0 <= i < c.len() ==> #[trigger] c@[i] < params.crt.q()) ==> r.q_coeffs() == ints(c@),
    {
        let c1 = residues(c, params.crt.n1);
        let c2 = residues(c, params.crt.n2);
        proof {
            assert(ints(c1@) =~= mod_all(ints(c@), params.n1()));
            assert(ints(c2@) =~= mod_all(ints(c@), params.n2()));
        }
        let r = IntModCycloCRTEval::from_coeffs(params, &c1, &c2);
        proof {
            if forall|i: int| 0 <= i < c.len() ==> #[trigger] c@[i] < params.crt.q() {
                assert forall|i: int| 0 <= i < c.len() implies #[trigger] r.q_coeffs()[i] == ints(c@)[i] by {
                    lemma_crt_round_trip(c@[i] as int, params.crt);
                    assert(r.coeffs1()[i] == c1@[i]);
                    assert(r.coeffs2()[i] == c2@[i]);
                }
                assert(r.q_coeffs() =~= ints(c@));
            }
        }
        r
    }

    /// The element whose coefficients are the signed integers `c`.
    pub fn from_signed(params: &CycloParams, c: &Vec<i64>) -> (r: IntModCycloCRTEval)
        requires
            params.wf(),
            c.len() == params.d,
        ensures
            r.wf(),
            r.params == *params,
            r.v1() == ntt_spec(mod_all(Seq::new(c.len() as nat, |i: int| c@[i] as int), params.n1()), params.w1 as int, params.n1()),
            r.v2() == ntt_spec(mod_all(Seq::new(c.len() as nat, |i: int| c@[i] as int), params.n2()), params.w2 as int, params.n2()),
    {
        let c1 = signed_residues(c, params.crt.n1);
        let c2 = signed_residues(c, params.crt.n2);
        proof {
            assert(ints(c1@) =~= mod_all(Seq::new(c.len() as nat, |i: int| c@[i] as int), params.n1()));
            assert(ints(c2@) =~= mod_all(Seq::new(c.len() as nat, |i: int| c@[i] as int), params.n2()));
        }
        IntModCycloCRTEval::from_coeffs(params, &c1, &c2)
    }

    /// The coefficients of each component, by the inverse transform.
    pub fn to_coeffs(&self) -> (r: (Vec<u64>, Vec<u64>))
        requires
            self.wf(),
        ensures
            ints(r.0@) == self.coeffs1(),
            ints(r.1@) == self.coeffs2(),
            comp_ok(r.0@, self.params.n1(), self.params.d as int),
            comp_ok(r.1@, self.params.n2(), self.params.d as int),
    {
        let c1 = ntt_inverse(&self.p1, self.params.w1_inv, self.params.d1_inv, self.params.crt.n1);
        let c2 = ntt_inverse(&self.p2, self.params.w2_inv, self.params.d2_inv, self.params.crt.n2);
        (c1, c2)
    }

    /// The coefficients modulo `Q`, each reconstructed from its two residues.
    pub fn to_q_coeffs(&self) -> (r: Vec<u64>)
        requires
            self.wf(),
        ensures
            r.len() == self.params.d,
            ints(r@) == self.q_coeffs(),
            forall|i: int| 0 <= i < r.len() ==> #[trigger] r@[i] < self.params.crt.q(),
    {
        let (c1, c2) = self.to_coeffs();
        let d = self.params.d;
        let mut out: Vec<u64> = Vec::with_capacity(d);
        let mut i: usize = 0;
        while i < d
            invariant
                self.wf(),
                d == self.params.d,
                ints(c1@) == self.coeffs1(),
                ints(c2@) == self.coeffs2(),
                comp_ok(c1@, self.params.n1(), d as int),
                comp_ok(c2@, self.params.n2(), d as int),
                i <= d,
                out.len() == i,
                forall|k: int| 0 <= k < i ==> #[trigger] out@[k] == self.q_coeffs()[k],
                forall|k: int| 0 <= k < i ==> #[trigger] out@[k] < self.params.crt.q(),
            decreases d - i,
        {
            proof {
                assert(ints(c1@)[i as int] == c1@[i as int]);
                assert(ints(c2@)[i as int] == c2@[i as int]);
            }
            out.push(crt_reconstruct(c1[i], c2[i], &self.params.crt));
            i += 1;
        }
        proof {
            assert(ints(out@) =~= self.q_coeffs());
        }
        out
    }

    /// The largest absolute value of a coefficient, each taken in `(-Q/2, Q/2]`.
    pub fn norm(&self) -> (r: u64)
        requires
            self.wf(),
        ensures
            r == max_centered(self.q_coeffs(), self.params.crt.q()),
    {
        let c = self.to_q_coeffs();
        proof {
            assert(self.params.crt.n1 * self.params.crt.n2 <= u64::MAX) by (nonlinear_arith)
                requires
                    self.params.crt.n1 <= u32::MAX,
                    self.params.crt.n2 <= u32::MAX,
            ;
        }
        let q = self.params.crt.n1 * self.params.crt.n2;
        let ghost s = ints(c@);
        let mut best: u64 = 0;
        let mut i: usize = 0;
        proof {
            assert(s.take(0) =~= Seq::<int>::empty());
        }
        while i < c.len()
            invariant
                s == ints(c@),
                q == self.params.crt.q(),
                forall|k: int| 0 <= k < c.len() ==> #[trigger] c@[k] < q,
                i <= c.len(),
                best == max_centered(s.take(i as int), q as int),
            decreases c.len() - i,
        {
            let v = c[i];
            let a = if v <= q / 2 {
                v
            } else {
                q - v
            };
            proof {
                assert(s.take(i as int + 1).drop_last() =~= s.take(i as int));
                assert(s[i as int] == v);
            }
            if a > best {
                best = a;
            }
            i += 1;
        }
        proof {
            assert(s.take(c.len() as int) =~= s);
        }
        best
    }
    /// The automorphism `x ↦ x^k` (`k` odd): in evaluation form, a permutation
    /// of the slots.
    pub fn auto(&self, k: usize) -> (r: IntModCycloCRTEval)
        requires
            self.wf(),
            k % 2 == 1,
        ensures
            r.wf(),
            r.params == self.params,
            forall|j: int| 0 <= j < self.params.d ==> #[trigger] r.p1@[j] == self.p1@[auto_index(j, k as int, self.params.d as int)],
            forall|j: int| 0 <= j < self.params.d ==> #[trigger] r.p2@[j] == self.p2@[auto_index(j, k as int, self.params.d as int)],
            r.coeffs1() == auto_coeffs(self.coeffs1(), k as int, self.params.n1()),
            r.coeffs2() == auto_coeffs(self.coeffs2(), k as int, self.params.n2()),
    {
        let p1 = comp_auto(&self.p1, k, self.params.d);
        let p2 = comp_auto(&self.p2, k, self.params.d);
        let r = IntModCycloCRTEval::from_points(self.params, p1, p2);
        proof {
            let p = self.params;
            let c1 = self.coeffs1();
            let c2 = self.coeffs2();
            // the points are the transform of the coefficients
            lemma_ntt_inverse_round_trip(self.v1(), p.w1 as int, p.w1_inv as int, p.d1_inv as int, p.n1());
            lemma_ntt_inverse_round_trip(self.v2(), p.w2 as int, p.w2_inv as int, p.d2_inv as int, p.n2());
            lemma_auto_commutes(c1, p.w1 as int, p.n1(), k as nat);
            lemma_auto_commutes(c2, p.w2 as int, p.n2(), k as nat);
            assert(r.v1() =~= ntt_spec(auto_coeffs(c1, k as int, p.n1()), p.w1 as int, p.n1()));
            assert(r.v2() =~= ntt_spec(auto_coeffs(c2, k as int, p.n2()), p.w2 as int, p.n2()));
            let a1 = auto_coeffs(c1, k as int, p.n1());
            let a2 = auto_coeffs(c2, k as int, p.n2());
            assert forall|m: int| 0 <= m < a1.len() implies 0 <= #[trigger] a1[m] < p.n1() by {
                lemma_mod_bound(crate::ntt_laws::sum(|i: int| crate::ntt_laws::mono_contrib(c1[i], i * k, c1.len() as int, m), c1.len() as int), p.n1());
            }
            assert forall|m: int| 0 <= m < a2.len() implies 0 <= #[trigger] a2[m] < p.n2() by {
                lemma_mod_bound(crate::ntt_laws::sum(|i: int| crate::ntt_laws::mono_contrib(c2[i], i * k, c2.len() as int, m), c2.len() as int), p.n2());
            }
            lemma_ntt_round_trip(a1, p.w1 as int, p.w1_inv as int, p.d1_inv as int, p.n1());
            lemma_ntt_round_trip(a2, p.w2 as int, p.w2_inv as int, p.d2_inv as int, p.n2());
        }
        r
    }

    /// The product `x^k · self`: slot `j` is scaled by `w^((2j+1)k)`.
    pub fn mul_x_pow(&self, k: usize) -> (r: IntModCycloCRTEval)
        requires
            self.wf(),
        ensures
            r.wf(),
            r.params == self.params,
            forall|j: int| 0 <= j < self.params.d ==> #[trigger] r.p1@[j] == (self.p1@[j] * (pow(self.params.w1 as int, shift_exp(j, k as int, self.params.d as int)) % self.params.n1())) % self.params.n1(),
            forall|j: int| 0 <= j < self.params.d ==> #[trigger] r.p2@[j] == (self.p2@[j] * (pow(self.params.w2 as int, shift_exp(j, k as int, self.params.d as int)) % self.params.n2())) % self.params.n2(),
            r.coeffs1() == shift_coeffs(self.coeffs1(), k as int, self.params.n1()),
            r.coeffs2() == shift_coeffs(self.coeffs2(), k as int, self.params.n2()),
    {
        let p1 = comp_mul_x_pow(&self.p1, k, self.params.w1, self.params.crt.n1, self.params.d);
        let p2 = comp_mul_x_pow(&self.p2, k, self.params.w2, self.params.crt.n2, self.params.d);
        let r = IntModCycloCRTEval::from_points(self.params, p1, p2);
        proof {
            let p = self.params;
            let c1 = self.coeffs1();
            let c2 = self.coeffs2();
            lemma_ntt_inverse_round_trip(self.v1(), p.w1 as int, p.w1_inv as int, p.d1_inv as int, p.n1());
            lemma_ntt_inverse_round_trip(self.v2(), p.w2 as int, p.w2_inv as int, p.d2_inv as int, p.n2());
            lemma_shift_commutes(c1, p.w1 as int, p.n1(), k as nat);
            lemma_shift_commutes(c2, p.w2 as int, p.n2(), k as nat);
            assert(r.v1() =~= ntt_spec(shift_coeffs(c1, k as int, p.n1()), p.w1 as int, p.n1()));
            assert(r.v2() =~= ntt_spec(shift_coeffs(c2, k as int, p.n2()), p.w2 as int, p.n2()));
            let a1 = shift_coeffs(c1, k as int, p.n1());
            let a2 = shift_coeffs(c2, k as int, p.n2());
            assert forall|m: int| 0 <= m < a1.len() implies 0 <= #[trigger] a1[m] < p.n1() by {
                lemma_mod_bound(crate::ntt_laws::sum(|i: int| crate::ntt_laws::mono_contrib(c1[i], i + k, c1.len() as int, m), c1.len() as int), p.n1());
            }
            assert forall|m: int| 0 <= m < a2.len() implies 0 <= #[trigger] a2[m] < p.n2() by {
                lemma_mod_bound(crate::ntt_laws::sum(|i: int| crate::ntt_laws::mono_contrib(c2[i], i + k, c2.len() as int, m), c2.len() as int), p.n2());
            }
            lemma_ntt_round_trip(a1, p.w1 as int, p.w1_inv as int, p.d1_inv as int, p.n1());
            lemma_ntt_round_trip(a2, p.w2 as int, p.w2_inv as int, p.d2_inv as int, p.n2());
        }
        r
    }

    /// Gadget decomposition: element `k` of the result has as coefficients
    /// digit `k`, in base `base`, of each coefficient of `self` modulo `Q`.
    pub fn decompose(&self, base: u64, len: usize) -> (r: Vec<IntModCycloCRTEval>)
        requires
            self.wf(),
            base >= 2,
        ensures
            r.len() == len,
            forall|k: int| 0 <= k < len ==> (#[trigger] r@[k]).wf() && r@[k].params == self.params,
            forall|k: int| 0 <= k < len ==> (#[trigger] r@[k]).v1() == ntt_spec(
                mod_all(digit_poly(self.q_coeffs(), base as int, k as nat), self.params.n1()),
                self.params.w1 as int,
                self.params.n1(),
            ),
            forall|k: int| 0 <= k < len ==> (#[trigger] r@[k]).v2() == ntt_spec(
                mod_all(digit_poly(self.q_coeffs(), base as int, k as nat), self.params.n2()),
                self.params.w2 as int,
                self.params.n2(),
            ),
    {
        let c = self.to_q_coeffs();
        let d = self.params.d;
        let mut decs: Vec<Vec<u64>> = Vec::with_capacity(d);
        let mut i: usize = 0;
        while i < d
            invariant
                self.wf(),
                base >= 2,
                d == self.params.d,
                c.len() == d,
                i <= d,
                decs.len() == i,
                forall|t: int| 0 <= t < i ==> (#[trigger] decs@[t]).len() == len,
                forall|t: int, k: int| 0 <= t < i && 0 <= k < len ==> #[trigger] decs@[t]@[k] == digit(c@[t] as int, base as int, k as nat),
            decreases d - i,
        {
            decs.push(decompose(c[i], base, len));
            i += 1;
        }
        let mut out: Vec<IntModCycloCRTEval> = Vec::with_capacity(len);
        let mut k: usize = 0;
        while k < len
            invariant
                self.wf(),
                base >= 2,
                d == self.params.d,
                c.len() == d,
                ints(c@) == self.q_coeffs(),
                decs.len() == d,
                forall|t: int| 0 <= t < d ==> (#[trigger] decs@[t]).len() == len,
                forall|t: int, k: int| 0 <= t < d && 0 <= k < len ==> #[trigger] decs@[t]@[k] == digit(c@[t] as int, base as int, k as nat),
                k <= len,
                out.len() == k,
                forall|t: int| 0 <= t < k ==> (#[trigger] out@[t]).wf() && out@[t].params == self.params,
                forall|t: int| 0 <= t < k ==> (#[trigger] out@[t]).v1() == ntt_spec(
                    mod_all(digit_poly(self.q_coeffs(), base as int, t as nat), self.params.n1()),
                    self.params.w1 as int,
                    self.params.n1(),
                ),
                forall|t: int| 0 <= t < k ==> (#[trigger] out@[t]).v2() == ntt_spec(
                    mod_all(digit_poly(self.q_coeffs(), base as int, t as nat), self.params.n2()),
                    self.params.w2 as int,
                    self.params.n2(),
                ),
            decreases len - k,
        {
            let mut col: Vec<u64> = Vec::with_capacity(d);
            let mut t: usize = 0;
            while t < d
                invariant
                    d == self.params.d,
                    k < len,
                    decs.len() == d,
                    forall|s: int| 0 <= s < d ==> (#[trigger] decs@[s]).len() == len,
                    t <= d,
                    col.len() == t,
                    forall|s: int| 0 <= s < t ==> #[trigger] col@[s] == decs@[s]@[k as int],
                decreases d - t,
            {
                col.push(decs[t][k]);
                t += 1;
            }
            proof {
                assert(ints(col@) =~= digit_poly(self.q_coeffs(), base as int, k as nat)) by {
                    assert forall|s: int| 0 <= s < d implies #[trigger] ints(col@)[s] == digit_poly(self.q_coeffs(), base as int, k as nat)[s] by {
                        assert(decs@[s]@[k as int] == digit(c@[s] as int, base as int, k as nat));
                        assert(ints(c@)[s] == c@[s]);
                    }
                }
            }
            let e = IntModCycloCRTEval::from_q_coeffs(&self.params, &col);
            out.push(e);
            k += 1;
        }
        out
    }

    /// `self += a·b` with no reduction: each slot accumulates the raw product.
    /// The caller bounds the number of terms so that nothing overflows, and
    /// reduces with `reduce_mod` at the end.
    pub fn add_eq_mul_lazy(&mut self, a: &IntModCycloCRTEval, b: &IntModCycloCRTEval)
        requires
            a.compatible(b),
            old(self).p1.len() == a.params.d,
            old(self).p2.len() == a.params.d,
            forall|i: int| 0 <= i < a.params.d ==> old(self).p1@[i] + a.p1@[i] * b.p1@[i] <= u64::MAX,
            forall|i: int| 0 <= i < a.params.d ==> old(self).p2@[i] + a.p2@[i] * b.p2@[i] <= u64::MAX,
        ensures
            final(self).params == old(self).params,
            final(self).p1.len() == a.params.d,
            final(self).p2.len() == a.params.d,
            forall|i: int| 0 <= i < a.params.d ==> #[trigger] final(self).p1@[i] == old(self).p1@[i] + a.p1@[i] * b.p1@[i],
            forall|i: int| 0 <= i < a.params.d ==> #[trigger] final(self).p2@[i] == old(self).p2@[i] + a.p2@[i] * b.p2@[i],
    {
        let d = a.params.d;
        let ghost s1 = self.p1@;
        let ghost s2 = self.p2@;
        let mut i: usize = 0;
        while i < d
            invariant
                a.compatible(b),
                d == a.params.d,
                self.p1.len() == d,
                self.p2.len() == d,
                s1.len() == d,
                s2.len() == d,
                forall|t: int| 0 <= t < d ==> s1[t] + a.p1@[t] * b.p1@[t] <= u64::MAX,
                forall|t: int| 0 <= t < d ==> s2[t] + a.p2@[t] * b.p2@[t] <= u64::MAX,
                self.params == old(self).params,
                s1 == old(self).p1@,
                s2 == old(self).p2@,
                i <= d,
                forall|t: int| 0 <= t < i ==> #[trigger] self.p1@[t] == s1[t] + a.p1@[t] * b.p1@[t],
                forall|t: int| 0 <= t < i ==> #[trigger] self.p2@[t] == s2[t] + a.p2@[t] * b.p2@[t],
                forall|t: int| i <= t < d ==> #[trigger] self.p1@[t] == s1[t],
                forall|t: int| i <= t < d ==> #[trigger] self.p2@[t] == s2[t],
            decreases d - i,
        {
            let v1 = self.p1[i] + a.p1[i] * b.p1[i];
            let v2 = self.p2[i] + a.p2[i] * b.p2[i];
            self.p1.set(i, v1);
            self.p2.set(i, v2);
            i += 1;
        }
    }

    /// Brings a lazily accumulated element back to reduced form.
    pub fn reduce_mod(a: &mut IntModCycloCRTEval)
        requires
            old(a).params.wf(),
            old(a).p1.len() == old(a).params.d,
            old(a).p2.len() == old(a).params.d,
        ensures
            final(a).wf(),
            final(a).params == old(a).params,
            forall|i: int| 0 <= i < old(a).params.d ==> #[trigger] final(a).p1@[i] == (old(a).p1@[i] as int) % old(a).params.n1(),
            forall|i: int| 0 <= i < old(a).params.d ==> #[trigger] final(a).p2@[i] == (old(a).p2@[i] as int) % old(a).params.n2(),
    {
        let p1 = residues(&a.p1, a.params.crt.n1);
        let p2 = residues(&a.p2, a.params.crt.n2);
        a.p1 = p1;
        a.p2 = p2;
    }

    /// An element with uniformly random evaluation points (equivalently,
    /// uniformly random coefficients).
    pub fn rand_uniform(params: &CycloParams, rng: &mut ChaCha20Rng) -> (r: IntModCycloCRTEval)
        requires
            params.wf(),
        ensures
            r.wf(),
            r.params == *params,
    {
        let p1 = uniform_vec(rng, params.crt.n1, params.d);
        let p2 = uniform_vec(rng, params.crt.n2, params.d);
        IntModCycloCRTEval::from_points(*params, p1, p2)
    }

    /// An element whose coefficients are drawn from `{0, 1}`.
    pub fn rand_zero_one(params: &CycloParams, rng: &mut ChaCha20Rng) -> (r: IntModCycloCRTEval)
        requires
            params.wf(),
        ensures
            r.wf(),
            r.params == *params,
            exists|c: Seq<int>|
                c.len() == params.d && (forall|i: int| 0 <= i < c.len() ==> 0 <= #[trigger] c[i] <= 1)
                    && r.v1() == ntt_spec(mod_all(c, params.n1()), params.w1 as int, params.n1())
                    && r.v2() == ntt_spec(mod_all(c, params.n2()), params.w2 as int, params.n2()),
    {
        let c = zero_one_vec(rng, params.d);
        let r = IntModCycloCRTEval::from_signed(params, &c);
        proof {
            let s = Seq::new(c.len() as nat, |i: int| c@[i] as int);
            assert(forall|i: int| 0 <= i < s.len() ==> 0 <= #[trigger] s[i] <= 1);
        }
        r
    }

    /// An element whose coefficients are independent draws of `g`.
    pub fn rand_discrete_gaussian(params: &CycloParams, rng: &mut ChaCha20Rng, g: &DiscreteGaussian) -> (r: IntModCycloCRTEval)
        requires
            params.wf(),
            g.wf(),
        ensures
            r.wf(),
            r.params == *params,
            exists|c: Seq<int>|
                c.len() == params.d && (forall|i: int| 0 <= i < c.len() ==> -(g.bound as int) <= #[trigger] c[i] <= g.bound)
                    && r.v1() == ntt_spec(mod_all(c, params.n1()), params.w1 as int, params.n1())
                    && r.v2() == ntt_spec(mod_all(c, params.n2()), params.w2 as int, params.n2()),
    {
        let c = g.sample_vec(rng, params.d);
        let r = IntModCycloCRTEval::from_signed(params, &c);
        proof {
            let s = Seq::new(c.len() as nat, |i: int| c@[i] as int);
            assert(forall|i: int| 0 <= i < s.len() ==> -(g.bound as int) <= #[trigger] s[i] <= g.bound);
        }
        r
    }
}

} // verus!
