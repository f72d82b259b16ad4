//! Laws of the negacyclic transform: the inverse undoes the forward
//! transform, and the slot permutation realizes the automorphism `x ↦ x^k`.
use crate::crt_eval::{auto_index, constant, pt_mul, shift_exp};
use crate::cyclo::{nega_coeff, nega_hi, nega_lo, reduced, ring_add, ring_mul, ring_neg, ring_sub};
use crate::modular::has_inverse;
use crate::ntt::{eval_point, eval_poly, intt_spec, ntt_spec};
use vstd::arithmetic::div_mod::*;
use vstd::arithmetic::mul::*;
use vstd::arithmetic::power::*;
use vstd::prelude::*;

verus! {

/// `Σ_{j < m} f(j)`.
pub open spec fn sum(f: spec_fn(int) -> int, m: int) -> int
    decreases m,
{
    if m <= 0 {
        0
    } else {
        sum(f, m - 1) + f(m - 1)
    }
}

pub(crate) proof fn lemma_sum_congr(f: spec_fn(int) -> int, g: spec_fn(int) -> int, m: int, n: int)
    requires
        n > 0,
        forall|j: int| 0 <= j < m ==> #[trigger] f(j) % n == g(j) % n,
    ensures
        sum(f, m) % n == sum(g, m) % n,
    decreases m,
{
    if m > 0 {
        lemma_sum_congr(f, g, m - 1, n);
        lemma_add_mod_noop(sum(f, m - 1), f(m - 1), n);
        lemma_add_mod_noop(sum(g, m - 1), g(m - 1), n);
    }
}

pub(crate) proof fn lemma_sum_ext(f: spec_fn(int) -> int, g: spec_fn(int) -> int, m: int)
    requires
        forall|j: int| 0 <= j < m ==> #[trigger] f(j) == g(j),
    ensures
        sum(f, m) == sum(g, m),
    decreases m,
{
    if m > 0 {
        lemma_sum_ext(f, g, m - 1);
    }
}

pub(crate) proof fn lemma_sum_scale(f: spec_fn(int) -> int, g: spec_fn(int) -> int, c: int, m: int)
    requires
        forall|j: int| 0 <= j < m ==> #[trigger] g(j) == c * f(j),
    ensures
        sum(g, m) == c * sum(f, m),
    decreases m,
{
    if m > 0 {
        lemma_sum_scale(f, g, c, m - 1);
        lemma_mul_is_distributive_add(c, sum(f, m - 1), f(m - 1));
    }
}

/// `Σ_{j<a} Σ_{k<b} F(j,k) = Σ_{k<b} Σ_{j<a} F(j,k)`.
pub(crate) proof fn lemma_sum_swap(f: spec_fn(int, int) -> int, a: int, b: int)
    requires
        a >= 0,
        b >= 0,
    ensures
        sum(|j: int| sum(|k: int| f(j, k), b), a) == sum(|k: int| sum(|j: int| f(j, k), a), b),
    decreases a,
{
    if a > 0 {
        lemma_sum_swap(f, a - 1, b);
        lemma_sum_split_add(f, a - 1, b);
        assert(sum(|j: int| sum(|k: int| f(j, k), b), a) == sum(|j: int| sum(|k: int| f(j, k), b), a - 1) + sum(|k: int| f(a - 1, k), b));
    } else {
        lemma_sum_zero(b);
        assert(sum(|k: int| sum(|j: int| f(j, k), 0), b) == sum(|k: int| 0int, b)) by {
            lemma_sum_ext(|k: int| sum(|j: int| f(j, k), 0), |k: int| 0int, b);
        }
    }
}

proof fn lemma_sum_zero(b: int)
    ensures
        sum(|k: int| 0int, b) == 0,
    decreases b,
{
    if b > 0 {
        lemma_sum_zero(b - 1);
    }
}

/// `Σ_k Σ_{j<a} F(j,k) + Σ_k F(a,k) = Σ_k Σ_{j<a+1} F(j,k)`.
proof fn lemma_sum_split_add(f: spec_fn(int, int) -> int, a: int, b: int)
    requires
        a >= 0,
        b >= 0,
    ensures
        sum(|k: int| sum(|j: int| f(j, k), a), b) + sum(|k: int| f(a, k), b) == sum(|k: int| sum(|j: int| f(j, k), a + 1), b),
    decreases b,
{
    if b > 0 {
        lemma_sum_split_add(f, a, b - 1);
    }
}

proof fn lemma_eval_as_sum(s: Seq<int>, x: int)
    ensures
        eval_poly(s, x) == sum(|j: int| s[j] * pow(x, j as nat), s.len() as int),
    decreases s.len(),
{
    if s.len() > 0 {
        let t = s.drop_last();
        lemma_eval_as_sum(t, x);
        lemma_sum_ext(|j: int| t[j] * pow(x, j as nat), |j: int| s[j] * pow(x, j as nat), t.len() as int);
    }
}

/// `w^(2D) = 1` and exponents of `w` work modulo `2D`, when `w^D = -1`.
proof fn lemma_pow_period(w: int, d: nat, n: int, a: nat)
    requires
        n > 1,
        d > 0,
        pow(w, d) % n == n - 1,
    ensures
        pow(w, 2 * d) % n == 1,
        pow(w, a) % n == pow(w, a % (2 * d)) % n,
{
    lemma_pow_adds(w, d, d);
    assert(d + d == 2 * d);
    lemma_mul_mod_noop(pow(w, d), pow(w, d), n);
    assert((n - 1) * (n - 1) == n * (n - 2) + 1) by (nonlinear_arith);
    lemma_mod_multiples_vanish(n - 2, 1, n);
    let q = a / (2 * d);
    let r = a % (2 * d);
    lemma_fundamental_div_mod(a as int, (2 * d) as int);
    lemma_pow_multiplies(w, 2 * d, q as nat);
    lemma_pow_adds(w, (2 * d * q) as nat, r as nat);
    assert(a == (2 * d * q) as nat + r as nat) by {
        lemma_mul_is_commutative(2 * d as int, q as int);
    }
    lemma_pow_mod_noop(pow(w, 2 * d), q as nat, n);
    lemma1_pow(q as nat);
    lemma_small_mod(1, n as nat);
    lemma_pow_mod_noop(1, q as nat, n);
    lemma_mul_mod_noop_left(pow(pow(w, 2 * d), q as nat), pow(w, r as nat), n);
    assert(pow(w, (2 * d * q) as nat) == pow(pow(w, 2 * d), q as nat));
}

/// `(r - 1)·Σ_{j<m} r^j = r^m - 1`.
proof fn lemma_geometric(r: int, m: nat)
    ensures
        (r - 1) * sum(|j: int| pow(r, j as nat), m as int) == pow(r, m) - 1,
    decreases m,
{
    if m == 0 {
        lemma_pow0(r);
    } else {
        lemma_geometric(r, (m - 1) as nat);
        let s0 = sum(|j: int| pow(r, j as nat), m - 1);
        lemma_pow_adds(r, (m - 1) as nat, 1);
        lemma_pow1(r);
        assert((r - 1) * (s0 + pow(r, (m - 1) as nat)) == (r - 1) * s0 + r * pow(r, (m - 1) as nat) - pow(r, (m - 1) as nat)) by (nonlinear_arith);
        lemma_mul_is_commutative(r, pow(r, (m - 1) as nat));
    }
}

/// `Σ_{j<m} r^j = 0 (mod n)` when `r^m = 1` and `r - 1` is a unit.
proof fn lemma_geometric_vanishes(r: int, m: nat, n: int)
    requires
        n > 1,
        pow(r, m) % n == 1,
        has_inverse((r - 1) % n, n),
    ensures
        sum(|j: int| pow(r, j as nat), m as int) % n == 0,
{
    let s = sum(|j: int| pow(r, j as nat), m as int);
    lemma_geometric(r, m);
    let u = choose|u: int| 0 <= u < n && #[trigger] (((r - 1) % n * u) % n) == 1;
    // (r-1)·s = r^m - 1 = 0 (mod n)
    lemma_sub_mod_noop(pow(r, m), 1, n);
    lemma_small_mod(1, n as nat);
    lemma_small_mod(0, n as nat);
    assert(((r - 1) * s) % n == 0);
    // s = u·(r-1)·s = 0
    lemma_mul_mod_noop_left(r - 1, u, n);
    assert((u * (r - 1)) % n == 1) by {
        lemma_mul_is_commutative(u, r - 1);
    }
    lemma_mul_mod_noop_left(u * (r - 1), s, n);
    lemma_mul_mod_noop_right(u, (r - 1) * s, n);
    assert(u * (r - 1) * s == u * ((r - 1) * s)) by {
        lemma_mul_is_associative(u, r - 1, s);
    }
    lemma_mul_basics(u);
    assert((1 * s) % n == s % n);
}

/// `w` is a primitive `2D`-th root of unity modulo `n`: `w^D = -1`, and
/// `w^m - 1` is a unit for `0 < m < 2D` (as it is for a prime `n`).
pub open spec fn primitive_root(w: int, d: int, n: int) -> bool {
    &&& pow(w, d as nat) % n == n - 1
    &&& forall|m: int| 0 < m < 2 * d ==> has_inverse(#[trigger] (pow(w, m as nat) - 1) % n, n)
}

proof fn lemma_sum_ones(m: int, n: int)
    requires
        m >= 0,
    ensures
        sum(|j: int| 1int, m) == m,
    decreases m,
{
    if m > 0 {
        lemma_sum_ones(m - 1, n);
    }
}

/// `Σ_{j<D} w^((2j+1)e)` is `D` for `e = 0 (mod 2D)` and `0` otherwise,
/// excluding `e = D (mod 2D)`.
proof fn lemma_orthogonality(w: int, d: nat, n: int, e: nat)
    requires
        n > 1,
        d > 0,
        primitive_root(w, d as int, n),
        e % (2 * d) != d,
    ensures
        sum(|j: int| pow(w, ((2 * j + 1) * e) as nat), d as int) % n == (if e % (2 * d) == 0 { d as int % n } else { 0 }),
{
    let f = |j: int| pow(w, ((2 * j + 1) * e) as nat);
    let t = e % (2 * d);
    lemma_fundamental_div_mod(e as int, (2 * d) as int);
    lemma_mod_bound(e as int, (2 * d) as int);
    let q = e / (2 * d);
    if t == 0 {
        assert forall|j: int| 0 <= j < d implies #[trigger] f(j) % n == 1int % n by {
            let x = ((2 * j + 1) * e) as nat;
            lemma_pow_period(w, d, n, x);
            assert(x == (2 * d) * ((2 * j + 1) * q)) by (nonlinear_arith)
                requires
                    e == (2 * d) * q,
                    x == (2 * j + 1) * e,
            ;
            lemma_mod_multiples_basic((2 * j + 1) * q, (2 * d) as int);
            lemma_mul_is_commutative((2 * j + 1) * q, (2 * d) as int);
            lemma_pow0(w);
        }
        lemma_sum_congr(f, |j: int| 1int, d as int, n);
        lemma_sum_ones(d as int, n);
    } else {
        // the terms are w^e · (w^(2e))^j
        let r0 = pow(w, 2 * e);
        let g = |j: int| pow(r0, j as nat);
        assert forall|j: int| 0 <= j < d implies #[trigger] f(j) == pow(w, e) * g(j) by {
            lemma_pow_multiplies(w, 2 * e, j as nat);
            lemma_pow_adds(w, e, ((2 * e) * j) as nat);
            assert((2 * j + 1) * e == e + (2 * e) * j) by (nonlinear_arith);
        }
        lemma_sum_scale(g, f, pow(w, e), d as int);
        // reduce the ratio's exponent below 2D
        let m: nat = ((2 * e) % (2 * d)) as nat;
        let half: int = if t < d { t as int } else { t - d };
        assert(2 * e == (2 * d) * (2 * q) + 2 * t) by (nonlinear_arith)
            requires
                e == (2 * d) * q + t,
        ;
        if t < d {
            lemma_mod_multiples_vanish(2 * q as int, 2 * t as int, (2 * d) as int);
            lemma_small_mod((2 * t) as nat, (2 * d) as nat);
        } else {
            assert(2 * e == (2 * d) * (2 * q + 1) + (2 * t - 2 * d)) by (nonlinear_arith)
                requires
                    2 * e == (2 * d) * (2 * q) + 2 * t,
            ;
            lemma_mod_multiples_vanish((2 * q + 1) as int, 2 * t - 2 * d, (2 * d) as int);
            lemma_small_mod((2 * t - 2 * d) as nat, (2 * d) as nat);
        }
        assert(m == 2 * half && 0 < m < 2 * d);
        let r = pow(w, m);
        lemma_pow_period(w, d, n, 2 * e);
        assert forall|j: int| 0 <= j < d implies #[trigger] g(j) % n == pow(r, j as nat) % n by {
            lemma_pow_mod_noop(r0, j as nat, n);
            lemma_pow_mod_noop(r, j as nat, n);
        }
        lemma_sum_congr(g, |j: int| pow(r, j as nat), d as int, n);
        // r^D = w^(2·half·D) = 1
        lemma_pow_multiplies(w, m, d);
        lemma_pow_period(w, d, n, m * d);
        assert(m * d == (2 * d) * half) by (nonlinear_arith)
            requires
                m == 2 * half,
        ;
        lemma_mod_multiples_basic(half, (2 * d) as int);
        lemma_mul_is_commutative(half, (2 * d) as int);
        lemma_pow0(w);
        lemma_small_mod(1, n as nat);
        assert(has_inverse((pow(w, m) - 1) % n, n));
        lemma_geometric_vanishes(r, d, n);
        lemma_mul_mod_noop_right(pow(w, e), sum(g, d as int), n);
        lemma_mul_mod_noop_right(pow(w, e), sum(|j: int| pow(r, j as nat), d as int), n);
        lemma_mul_basics(pow(w, e));
        lemma_small_mod(0, n as nat);
    }
}

/// `w^-1 = w^(2D-1)` modulo `n`.
proof fn lemma_inverse_power(w: int, w_inv: int, d: nat, n: int, a: nat)
    requires
        n > 1,
        d > 0,
        pow(w, d) % n == n - 1,
        (w * w_inv) % n == 1,
    ensures
        pow(w_inv, a) % n == pow(w, ((2 * d - 1) * a) as nat) % n,
{
    let x = pow(w, (2 * d - 1) as nat);
    lemma_pow_period(w, d, n, 0);
    lemma_pow_adds(w, 1, (2 * d - 1) as nat);
    lemma_pow1(w);
    assert((1 + (2 * d - 1)) as nat == 2 * d);
    assert(w * x == pow(w, 2 * d));
    assert((w * x) % n == 1);
    // w_inv = w_inv·(w·x) = (w_inv·w)·x = x
    lemma_mul_mod_noop_right(w_inv, w * x, n);
    lemma_mul_basics(w_inv);
    assert((w_inv * (w * x)) % n == w_inv % n);
    lemma_mul_is_associative(w_inv, w, x);
    lemma_mul_is_commutative(w_inv, w);
    assert((w_inv * w) % n == 1);
    lemma_mul_mod_noop_left(w_inv * w, x, n);
    lemma_mul_basics(x);
    assert(((w_inv * w) * x) % n == x % n);
    assert(w_inv % n == x % n);
    lemma_pow_mod_noop(w_inv, a, n);
    lemma_pow_mod_noop(x, a, n);
    lemma_pow_multiplies(w, (2 * d - 1) as nat, a);
}

proof fn lemma_mul4_congr(a: int, b: int, c: int, e: int, a2: int, b2: int, c2: int, e2: int, n: int)
    requires
        n > 0,
        a % n == a2 % n,
        b % n == b2 % n,
        c % n == c2 % n,
        e % n == e2 % n,
    ensures
        (a * b * c * e) % n == (a2 * b2 * c2 * e2) % n,
{
    lemma_mul_mod_noop(a, b, n);
    lemma_mul_mod_noop(a2, b2, n);
    lemma_mul_mod_noop(a * b, c, n);
    lemma_mul_mod_noop(a2 * b2, c2, n);
    lemma_mul_mod_noop(a * b * c, e, n);
    lemma_mul_mod_noop(a2 * b2 * c2, e2, n);
}

/// A product of powers of `w^-1`, `w^(-2i)` and `w^(2x+1)`, as one power of `w`.
proof fn lemma_term_gen(ck: int, w: int, w_inv: int, d: nat, n: int, i: nat, jy: nat, jx: nat, k: nat)
    requires
        n > 1,
        d > 0,
        pow(w, d) % n == n - 1,
        (w * w_inv) % n == 1,
    ensures
        ((pow(w_inv, i) % n) * pow(pow(w_inv, 2 * i) % n, jy) * ck * pow(pow(w, 2 * jx + 1) % n, k)) % n
            == (ck * pow(w, ((2 * d - 1) * i + (2 * d - 1) * (2 * i * jy) + (2 * jx + 1) * k) as nat)) % n,
{
    let a = (2 * d - 1) * i;
    let b = (2 * d - 1) * (2 * i * jy);
    lemma_inverse_power(w, w_inv, d, n, i);
    lemma_mod_twice(pow(w_inv, i), n);
    lemma_pow_mod_noop(pow(w_inv, 2 * i), jy, n);
    lemma_pow_multiplies(w_inv, 2 * i, jy);
    lemma_inverse_power(w, w_inv, d, n, 2 * i * jy);
    lemma_pow_mod_noop(pow(w, 2 * jx + 1), k, n);
    lemma_pow_multiplies(w, 2 * jx + 1, k);
    lemma_mul4_congr(
        pow(w_inv, i) % n,
        pow(pow(w_inv, 2 * i) % n, jy),
        ck,
        pow(pow(w, 2 * jx + 1) % n, k),
        pow(w, a as nat),
        pow(w, b as nat),
        ck,
        pow(w, ((2 * jx + 1) * k) as nat),
        n,
    );
    lemma_pow_adds(w, a as nat, b as nat);
    lemma_pow_adds(w, (a + b) as nat, ((2 * jx + 1) * k) as nat);
    assert(pow(w, a as nat) * pow(w, b as nat) * ck * pow(w, ((2 * jx + 1) * k) as nat) == ck * (pow(w, a as nat) * pow(w, b as nat) * pow(w, ((2 * jx + 1) * k) as nat))) by (nonlinear_arith);
}

/// One term of the round trip: `T·Y^j·c_k·X_j^k = c_k·w^((2j+1)(k + (2D-1)i))`.
proof fn lemma_term(ck: int, w: int, w_inv: int, d: nat, n: int, i: nat, j: nat, k: nat)
    requires
        n > 1,
        d > 0,
        pow(w, d) % n == n - 1,
        (w * w_inv) % n == 1,
    ensures
        ((pow(w_inv, i) % n) * pow(pow(w_inv, 2 * i) % n, j) * ck * pow(pow(w, 2 * j + 1) % n, k)) % n
            == (ck * pow(w, ((2 * j + 1) * (k + (2 * d - 1) * i)) as nat)) % n,
{
    lemma_term_gen(ck, w, w_inv, d, n, i, j, j, k);
    assert((2 * d - 1) * i + (2 * d - 1) * (2 * i * j) + (2 * j + 1) * k == (2 * j + 1) * (k + (2 * d - 1) * i)) by (nonlinear_arith);
}

/// `k + (2D-1)i` is `0 (mod 2D)` exactly for `k = i`, and never `D (mod 2D)`.
proof fn lemma_shift_exponent(d: nat, i: nat, k: nat)
    requires
        i < d,
        k < d,
    ensures
        ((k + (2 * d - 1) * i) as nat) % (2 * d) != d,
        (((k + (2 * d - 1) * i) as nat) % (2 * d) == 0) == (k == i),
{
    let e = k + (2 * d - 1) * i;
    assert(e == (k - i) + (2 * d) * i) by (nonlinear_arith)
        requires
            e == k + (2 * d - 1) * i,
    ;
    if k >= i {
        lemma_mod_multiples_vanish(i as int, (k - i) as int, (2 * d) as int);
        lemma_small_mod((k - i) as nat, (2 * d) as nat);
    } else {
        assert(e == (k - i + 2 * d) + (2 * d) * (i - 1)) by (nonlinear_arith)
            requires
                e == (k - i) + (2 * d) * i,
        ;
        lemma_mod_multiples_vanish(i - 1, (k - i + 2 * d) as int, (2 * d) as int);
        lemma_small_mod((k - i + 2 * d) as nat, (2 * d) as nat);
    }
}

proof fn lemma_sum_single(f: spec_fn(int) -> int, i: int, m: int, n: int)
    requires
        n > 0,
        0 <= i < m,
        forall|k: int| 0 <= k < m && k != i ==> #[trigger] f(k) % n == 0,
    ensures
        sum(f, m) % n == f(i) % n,
    decreases m,
{
    if m - 1 == i {
        lemma_sum_zero_mod(f, i, n);
        lemma_add_mod_noop(sum(f, i), f(i), n);
        lemma_small_mod(0, n as nat);
        lemma_mod_twice(f(i), n);
    } else {
        lemma_sum_single(f, i, m - 1, n);
        lemma_add_mod_noop(sum(f, m - 1), f(m - 1), n);
        lemma_mod_twice(f(i), n);
    }
}

proof fn lemma_sum_zero_mod(f: spec_fn(int) -> int, m: int, n: int)
    requires
        n > 0,
        forall|k: int| 0 <= k < m ==> #[trigger] f(k) % n == 0,
    ensures
        sum(f, m) % n == 0,
    decreases m,
{
    if m > 0 {
        lemma_sum_zero_mod(f, m - 1, n);
        lemma_add_mod_noop(sum(f, m - 1), f(m - 1), n);
        lemma_small_mod(0, n as nat);
    } else {
        lemma_small_mod(0, n as nat);
    }
}

#[verifier::rlimit(60)]
proof fn lemma_round_trip_at(c: Seq<int>, w: int, w_inv: int, d_inv: int, n: int, i: int)
    requires
        n > 1,
        c.len() > 0,
        reduced(c, n),
        primitive_root(w, c.len() as int, n),
        (w * w_inv) % n == 1,
        (c.len() * d_inv) % n == 1,
        0 <= i < c.len(),
    ensures
        intt_spec(ntt_spec(c, w, n), w_inv, d_inv, n)[i] == c[i],
{
    let d = c.len();
    let p = ntt_spec(c, w, n);
    let t = pow(w_inv, i as nat) % n;
    let y = pow(w_inv, (2 * i) as nat) % n;
    let fp = |j: int| p[j] * pow(y, j as nat);
    let gp = |j: int| t * fp(j);
    let f2 = |j: int, k: int| c[k] * pow(w, ((2 * j + 1) * (k + (2 * d - 1) * i)) as nat);
    let inner = |j: int| sum(|k: int| f2(j, k), d as int);
    lemma_eval_as_sum(p, y);
    assert(eval_poly(p, y) == sum(fp, d as int));
    lemma_sum_scale(fp, gp, t, d as int);
    // each row of the double sum
    assert forall|j: int| 0 <= j < d implies #[trigger] gp(j) % n == inner(j) % n by {
        let x = eval_point(w, j, n);
        let fc = |k: int| c[k] * pow(x, k as nat);
        let ec = eval_poly(c, x);
        lemma_eval_as_sum(c, x);
        let ty = t * pow(y, j as nat);
        let hc = |k: int| ty * fc(k);
        lemma_sum_scale(fc, hc, ty, d as int);
        assert(p[j] == ec % n);
        lemma_mul_mod_noop_left(ec, pow(y, j as nat), n);
        lemma_mul_mod_noop_right(t, (ec % n) * pow(y, j as nat), n);
        lemma_mul_mod_noop_right(t, ec * pow(y, j as nat), n);
        assert(t * (ec * pow(y, j as nat)) == ty * ec) by (nonlinear_arith)
            requires
                ty == t * pow(y, j as nat),
        ;
        assert forall|k: int| 0 <= k < d implies #[trigger] hc(k) % n == f2(j, k) % n by {
            lemma_term(c[k], w, w_inv, d, n, i as nat, j as nat, k as nat);
            assert(hc(k) == t * pow(y, j as nat) * c[k] * pow(x, k as nat)) by (nonlinear_arith)
                requires
                    hc(k) == ty * (c[k] * pow(x, k as nat)),
                    ty == t * pow(y, j as nat),
            ;
        }
        lemma_sum_congr(hc, |k: int| f2(j, k), d as int, n);
    }
    lemma_sum_congr(gp, inner, d as int, n);
    lemma_sum_swap(f2, d as int, d as int);
    // each column collapses by orthogonality
    let h = |k: int| c[k] * sum(|j: int| pow(w, ((2 * j + 1) * (k + (2 * d - 1) * i)) as nat), d as int);
    let col = |k: int| sum(|j: int| f2(j, k), d as int);
    assert forall|k: int| 0 <= k < d implies #[trigger] col(k) == h(k) by {
        let g = |j: int| pow(w, ((2 * j + 1) * (k + (2 * d - 1) * i)) as nat);
        lemma_sum_scale(g, |j: int| f2(j, k), c[k], d as int);
    }
    lemma_sum_ext(col, h, d as int);
    assert forall|k: int| 0 <= k < d && k != i implies #[trigger] h(k) % n == 0 by {
        let e = (k + (2 * d - 1) * i) as nat;
        lemma_shift_exponent(d, i as nat, k as nat);
        lemma_orthogonality(w, d, n, e);
        lemma_mul_mod_noop_right(c[k], sum(|j: int| pow(w, ((2 * j + 1) * e) as nat), d as int), n);
        lemma_sum_ext(|j: int| pow(w, ((2 * j + 1) * (k + (2 * d - 1) * i)) as nat), |j: int| pow(w, ((2 * j + 1) * e) as nat), d as int);
        lemma_mul_basics(c[k]);
        lemma_small_mod(0, n as nat);
    }
    lemma_sum_single(h, i, d as int, n);
    {
        let e = (i + (2 * d - 1) * i) as nat;
        lemma_shift_exponent(d, i as nat, i as nat);
        lemma_orthogonality(w, d, n, e);
        lemma_sum_ext(|j: int| pow(w, ((2 * j + 1) * (i + (2 * d - 1) * i)) as nat), |j: int| pow(w, ((2 * j + 1) * e) as nat), d as int);
        lemma_mul_mod_noop_right(c[i], sum(|j: int| pow(w, ((2 * j + 1) * e) as nat), d as int), n);
        lemma_mul_mod_noop_right(c[i], d as int, n);
    }
    // so t·E(p, y) = c_i·D (mod n)
    let te = t * eval_poly(p, y);
    assert(te % n == (c[i] * d) % n);
    // and the inverse transform multiplies by D^-1
    let lhs = intt_spec(p, w_inv, d_inv, n)[i];
    assert(lhs == (((d_inv * t) % n) * (eval_poly(p, y) % n)) % n);
    lemma_mul_mod_noop(d_inv * t, eval_poly(p, y), n);
    assert((d_inv * t) * eval_poly(p, y) == d_inv * te) by (nonlinear_arith)
        requires
            te == t * eval_poly(p, y),
    ;
    lemma_mul_mod_noop_right(d_inv, te, n);
    lemma_mul_mod_noop_right(d_inv, c[i] * d, n);
    assert(d_inv * (c[i] * d) == c[i] * (d * d_inv)) by (nonlinear_arith);
    lemma_mul_mod_noop_right(c[i], d * d_inv, n);
    lemma_mul_basics(c[i]);
    lemma_small_mod(c[i] as nat, n as nat);
}

/// The inverse transform undoes the forward one: for every coefficient
/// vector of length `D` reduced modulo `n`, with `w` a primitive `2D`-th root
/// of unity, `w_inv = w^-1` and `d_inv = D^-1`, `intt(ntt(c)) = c`.
pub proof fn lemma_ntt_round_trip(c: Seq<int>, w: int, w_inv: int, d_inv: int, n: int)
    requires
        n > 1,
        c.len() > 0,
        reduced(c, n),
        primitive_root(w, c.len() as int, n),
        (w * w_inv) % n == 1,
        (c.len() * d_inv) % n == 1,
    ensures
        intt_spec(ntt_spec(c, w, n), w_inv, d_inv, n) == c,
{
    assert forall|i: int| 0 <= i < c.len() implies #[trigger] intt_spec(ntt_spec(c, w, n), w_inv, d_inv, n)[i] == c[i] by {
        lemma_round_trip_at(c, w, w_inv, d_inv, n, i);
    }
    assert(intt_spec(ntt_spec(c, w, n), w_inv, d_inv, n) =~= c);
}

/// The coefficients of `c(x^k)` in `Z_n[x] / (x^D + 1)`: each `c[i]·x^(ik)`
/// reduced modulo `x^D + 1`.
pub open spec fn auto_coeffs(c: Seq<int>, k: int, n: int) -> Seq<int> {
    Seq::new(c.len(), |m: int| sum(|i: int| mono_contrib(c[i], i * k, c.len() as int, m), c.len() as int) % n)
}

/// Evaluation only depends on the point modulo `n`.
proof fn lemma_eval_mod(c: Seq<int>, x: int, n: int)
    requires
        n > 0,
    ensures
        eval_poly(c, x) % n == eval_poly(c, x % n) % n,
{
    lemma_eval_as_sum(c, x);
    lemma_eval_as_sum(c, x % n);
    assert forall|j: int| 0 <= j < c.len() implies #[trigger] (c[j] * pow(x, j as nat)) % n == (c[j] * pow(x % n, j as nat)) % n by {
        lemma_pow_mod_noop(x, j as nat, n);
        lemma_mul_mod_noop_right(c[j], pow(x, j as nat), n);
        lemma_mul_mod_noop_right(c[j], pow(x % n, j as nat), n);
    }
    lemma_sum_congr(|j: int| c[j] * pow(x, j as nat), |j: int| c[j] * pow(x % n, j as nat), c.len() as int, n);
}

/// The slot permutation of the evaluation form realizes `x ↦ x^k` (`k`
/// odd): transforming `c(x^k)` gives the transform of `c` with slot `j`
/// taken from the slot whose point is `w^((2j+1)k)`.
pub proof fn lemma_auto_commutes(c: Seq<int>, w: int, n: int, k: nat)
    requires
        n > 1,
        c.len() > 0,
        pow(w, c.len()) % n == n - 1,
        k % 2 == 1,
    ensures
        ntt_spec(auto_coeffs(c, k as int, n), w, n) == Seq::new(c.len(), |j: int| ntt_spec(c, w, n)[auto_index(j, k as int, c.len() as int)]),
{
    let d = c.len();
    assert forall|j: int| 0 <= j < d implies #[trigger] ntt_spec(auto_coeffs(c, k as int, n), w, n)[j] == ntt_spec(c, w, n)[auto_index(j, k as int, d as int)] by {
        lemma_auto_slot(c, w, n, k, j as nat);
    }
    assert(ntt_spec(auto_coeffs(c, k as int, n), w, n) =~= Seq::new(c.len(), |j: int| ntt_spec(c, w, n)[auto_index(j, k as int, c.len() as int)]));
}

#[verifier::rlimit(60)]
proof fn lemma_auto_slot(c: Seq<int>, w: int, n: int, k: nat, j: nat)
    requires
        n > 1,
        c.len() > 0,
        pow(w, c.len()) % n == n - 1,
        k % 2 == 1,
        j < c.len(),
    ensures
        ntt_spec(auto_coeffs(c, k as int, n), w, n)[j as int] == ntt_spec(c, w, n)[auto_index(j as int, k as int, c.len() as int)],
{
    let d = c.len();
    let a = auto_coeffs(c, k as int, n);
    let x = eval_point(w, j as int, n);
    let g2 = |m: int, i: int| mono_contrib(c[i], i * k, d as int, m) * pow(x, m as nat);
    // Σ_m a_m x^m = Σ_m Σ_i contrib(i, m) x^m (mod n)
    lemma_eval_as_sum(a, x);
    let fa = |m: int| a[m] * pow(x, m as nat);
    let rows = |m: int| sum(|i: int| g2(m, i), d as int);
    assert forall|m: int| 0 <= m < d implies #[trigger] fa(m) % n == rows(m) % n by {
        let sm = sum(|i: int| mono_contrib(c[i], i * k, d as int, m), d as int);
        lemma_sum_scale(|i: int| mono_contrib(c[i], i * k, d as int, m), |i: int| pow(x, m as nat) * mono_contrib(c[i], i * k, d as int, m), pow(x, m as nat), d as int);
        assert forall|i: int| 0 <= i < d implies #[trigger] (pow(x, m as nat) * mono_contrib(c[i], i * k, d as int, m)) == g2(m, i) by {
            lemma_mul_is_commutative(pow(x, m as nat), mono_contrib(c[i], i * k, d as int, m));
        }
        lemma_sum_ext(|i: int| pow(x, m as nat) * mono_contrib(c[i], i * k, d as int, m), |i: int| g2(m, i), d as int);
        lemma_mul_mod_noop_left(sm, pow(x, m as nat), n);
        lemma_mul_is_commutative(sm, pow(x, m as nat));
    }
    lemma_sum_congr(fa, rows, d as int, n);
    lemma_sum_swap(g2, d as int, d as int);
    // each column is c_i·w^((2j+1)ik)
    let cols = |i: int| sum(|m: int| g2(m, i), d as int);
    let target = |i: int| c[i] * pow(w, ((2 * j + 1) * (i * k)) as nat);
    assert forall|i: int| 0 <= i < d implies #[trigger] cols(i) % n == target(i) % n by {
        lemma_mono_row(c[i], (i * k) as nat, w, n, d, j);
        lemma_sum_ext(|m: int| g2(m, i), |m: int| mono_contrib(c[i], ((i * k) as nat) as int, d as int, m) * pow(pow(w, 2 * j + 1) % n, m as nat), d as int);
    }
    lemma_sum_congr(cols, target, d as int, n);
    // Σ_i c_i w^((2j+1)k·i) = c(w^((2j+1)k))
    let y = pow(w, ((2 * j + 1) * k) as nat);
    lemma_eval_as_sum(c, y);
    assert forall|i: int| 0 <= i < d implies #[trigger] target(i) == c[i] * pow(y, i as nat) by {
        lemma_pow_multiplies(w, ((2 * j + 1) * k) as nat, i as nat);
        assert((2 * j + 1) * (i * k) == (2 * j + 1) * k * i) by (nonlinear_arith);
    }
    lemma_sum_ext(target, |i: int| c[i] * pow(y, i as nat), d as int);
    // and w^((2j+1)k) is the point of slot e/2, e = (2j+1)k mod 2D odd
    let e = (((2 * j + 1) * k) % (2 * d)) as nat;
    lemma_pow_period(w, d, n, ((2 * j + 1) * k) as nat);
    lemma_fundamental_div_mod(((2 * j + 1) * k) as int, 2 * d as int);
    lemma_mod_bound(((2 * j + 1) * k) as int, 2 * d as int);
    assert(e % 2 == 1) by {
        let q = ((2 * j + 1) * k) / (2 * d);
        let p = (2 * j + 1) * k;
        assert(p == 2 * (j * k) + k) by (nonlinear_arith)
            requires
                p == (2 * j + 1) * k,
        ;
        lemma_mod_multiples_vanish((j * k) as int, k as int, 2);
        assert(e == 2 * (-(d * q)) + p) by (nonlinear_arith)
            requires
                p == (2 * d) * q + e,
        ;
        lemma_mod_multiples_vanish(-(d * q), p as int, 2);
    }
    let j2 = (e / 2) as int;
    assert(2 * j2 + 1 == e);
    lemma_eval_mod(c, y, n);
    assert(eval_point(w, j2, n) == pow(w, e) % n);
    lemma_mod_twice(eval_poly(c, x), n);
    lemma_mod_bound(sum(fa, d as int), n);
}

/// `Σ_{i<D} w^(iE)` is `D` for `E = 0 (mod 2D)` and `0` for any other even `E`.
proof fn lemma_orthogonality_even(w: int, d: nat, n: int, e: nat)
    requires
        n > 1,
        d > 0,
        primitive_root(w, d as int, n),
        e % 2 == 0,
    ensures
        sum(|i: int| pow(w, (i * e) as nat), d as int) % n == (if e % (2 * d) == 0 { d as int % n } else { 0 }),
{
    let f = |i: int| pow(w, (i * e) as nat);
    let m = e % (2 * d);
    lemma_mod_bound(e as int, 2 * d as int);
    assert forall|i: int| 0 <= i < d implies #[trigger] f(i) % n == pow(w, (i * m) as nat) % n by {
        lemma_pow_period(w, d, n, (i * e) as nat);
        lemma_pow_period(w, d, n, (i * m) as nat);
        lemma_mul_mod_noop_right(i, e as int, 2 * d as int);
    }
    lemma_sum_congr(f, |i: int| pow(w, (i * m) as nat), d as int, n);
    if m == 0 {
        lemma_pow0(w);
        lemma_small_mod(1, n as nat);
        assert forall|i: int| 0 <= i < d implies #[trigger] pow(w, (i * m) as nat) % n == 1int % n by {}
        lemma_sum_congr(|i: int| pow(w, (i * m) as nat), |i: int| 1int, d as int, n);
        lemma_sum_ones(d as int, n);
    } else {
        // m is even and in (0, 2D): r = w^m has r^D = 1 and r - 1 a unit
        let q = e / (2 * d);
        lemma_fundamental_div_mod(e as int, 2 * d as int);
        assert(m % 2 == 0) by {
            assert(m == 2 * (-(d * q)) + e) by (nonlinear_arith)
                requires
                    e == (2 * d) * q + m,
            ;
            lemma_mod_multiples_vanish(-(d * q), e as int, 2);
        }
        let half = m / 2;
        let r = pow(w, m as nat);
        assert forall|i: int| 0 <= i < d implies #[trigger] pow(w, (i * m) as nat) == pow(r, i as nat) by {
            lemma_pow_multiplies(w, m as nat, i as nat);
            lemma_mul_is_commutative(i, m as int);
        }
        lemma_sum_ext(|i: int| pow(w, (i * m) as nat), |i: int| pow(r, i as nat), d as int);
        lemma_pow_multiplies(w, m as nat, d);
        lemma_pow_period(w, d, n, (m * d) as nat);
        assert(m * d == (2 * d) * half) by (nonlinear_arith)
            requires
                m == 2 * half,
        ;
        lemma_mod_multiples_basic(half as int, 2 * d as int);
        lemma_mul_is_commutative(half as int, 2 * d as int);
        lemma_pow0(w);
        lemma_small_mod(1, n as nat);
        let mi: int = m as int;
        assert(0 < mi < 2 * d);
        assert(has_inverse((pow(w, mi as nat) - 1) % n, n));
        lemma_geometric_vanishes(r, d, n);
    }
}

/// `(2D-1)(2l+1) + 2j+1 = 2(j - l) (mod 2D)`: even, and `0` only for `l = j`.
proof fn lemma_exponent_parity(d: nat, j: int, l: int)
    requires
        0 <= j < d,
        0 <= l < d,
    ensures
        (((2 * d - 1) * (2 * l + 1) + 2 * j + 1) as nat) % 2 == 0,
        ((((2 * d - 1) * (2 * l + 1) + 2 * j + 1) as nat) % (2 * d) == 0) == (l == j),
{
    let e = (2 * d - 1) * (2 * l + 1) + 2 * j + 1;
    assert(e == 2 * (j - l) + (2 * d) * (2 * l + 1)) by (nonlinear_arith)
        requires
            e == (2 * d - 1) * (2 * l + 1) + 2 * j + 1,
    ;
    assert(e == 2 * ((j - l) + d * (2 * l + 1))) by (nonlinear_arith)
        requires
            e == 2 * (j - l) + (2 * d) * (2 * l + 1),
    ;
    lemma_mod_multiples_basic((j - l) + d * (2 * l + 1), 2);
    lemma_mul_is_commutative((j - l) + d * (2 * l + 1), 2);
    if j >= l {
        lemma_mod_multiples_vanish(2 * l + 1, 2 * (j - l), 2 * d as int);
        lemma_small_mod((2 * (j - l)) as nat, (2 * d) as nat);
    } else {
        assert(e == (2 * (j - l) + 2 * d) + (2 * d) * (2 * l)) by (nonlinear_arith)
            requires
                e == 2 * (j - l) + (2 * d) * (2 * l + 1),
        ;
        lemma_mod_multiples_vanish(2 * l, 2 * (j - l) + 2 * d, 2 * d as int);
        lemma_small_mod((2 * (j - l) + 2 * d) as nat, (2 * d) as nat);
    }
}

#[verifier::rlimit(60)]
proof fn lemma_inverse_round_trip_at(v: Seq<int>, w: int, w_inv: int, d_inv: int, n: int, j: int)
    requires
        n > 1,
        v.len() > 0,
        reduced(v, n),
        primitive_root(w, v.len() as int, n),
        (w * w_inv) % n == 1,
        (v.len() * d_inv) % n == 1,
        0 <= j < v.len(),
    ensures
        ntt_spec(intt_spec(v, w_inv, d_inv, n), w, n)[j] == v[j],
{
    let d = v.len();
    let c = intt_spec(v, w_inv, d_inv, n);
    let x = eval_point(w, j, n);
    let fc = |i: int| c[i] * pow(x, i as nat);
    let f2 = |i: int, l: int| v[l] * pow(w, (i * ((2 * d - 1) * (2 * l + 1) + 2 * j + 1)) as nat);
    let rows = |i: int| d_inv * sum(|l: int| f2(i, l), d as int);
    lemma_eval_as_sum(c, x);
    assert forall|i: int| 0 <= i < d implies #[trigger] fc(i) % n == rows(i) % n by {
        let t = pow(w_inv, i as nat) % n;
        let y = pow(w_inv, (2 * i) as nat) % n;
        let ev = eval_poly(v, y);
        let px = pow(x, i as nat);
        lemma_eval_as_sum(v, y);
        let fv = |l: int| v[l] * pow(y, l as nat);
        let hv = |l: int| (t * px) * fv(l);
        lemma_sum_scale(fv, hv, t * px, d as int);
        assert forall|l: int| 0 <= l < d implies #[trigger] hv(l) % n == f2(i, l) % n by {
            lemma_term_gen(v[l], w, w_inv, d, n, i as nat, l as nat, j as nat, i as nat);
            assert(hv(l) == t * pow(y, l as nat) * v[l] * px) by (nonlinear_arith)
                requires
                    hv(l) == (t * px) * (v[l] * pow(y, l as nat)),
            ;
            assert((2 * d - 1) * i + (2 * d - 1) * (2 * i * l) + (2 * j + 1) * i == i * ((2 * d - 1) * (2 * l + 1) + 2 * j + 1)) by (nonlinear_arith);
        }
        lemma_sum_congr(hv, |l: int| f2(i, l), d as int, n);
        // c_i·x^i = d_inv·t·E(v, y)·x^i (mod n)
        assert(c[i] == (((d_inv * t) % n) * (ev % n)) % n);
        lemma_mul_mod_noop(d_inv * t, ev, n);
        lemma_mul_mod_noop_left((d_inv * t) * ev, px, n);
        lemma_mul_mod_noop_left(c[i], px, n);
        assert((d_inv * t) * ev * px == d_inv * ((t * px) * ev)) by (nonlinear_arith);
        lemma_mul_mod_noop_right(d_inv, (t * px) * ev, n);
        lemma_mul_mod_noop_right(d_inv, sum(|l: int| f2(i, l), d as int), n);
    }
    lemma_sum_congr(fc, rows, d as int, n);
    // pull d_inv out and swap the sums
    let inner = |i: int| sum(|l: int| f2(i, l), d as int);
    lemma_sum_scale(inner, rows, d_inv, d as int);
    lemma_sum_swap(f2, d as int, d as int);
    let cols = |l: int| sum(|i: int| f2(i, l), d as int);
    let h = |l: int| v[l] * sum(|i: int| pow(w, (i * ((2 * d - 1) * (2 * l + 1) + 2 * j + 1)) as nat), d as int);
    assert forall|l: int| 0 <= l < d implies #[trigger] cols(l) == h(l) by {
        lemma_sum_scale(|i: int| pow(w, (i * ((2 * d - 1) * (2 * l + 1) + 2 * j + 1)) as nat), |i: int| f2(i, l), v[l], d as int);
    }
    lemma_sum_ext(cols, h, d as int);
    assert forall|l: int| 0 <= l < d && l != j implies #[trigger] h(l) % n == 0 by {
        let e = ((2 * d - 1) * (2 * l + 1) + 2 * j + 1) as nat;
        lemma_exponent_parity(d, j, l);
        lemma_orthogonality_even(w, d, n, e);
        lemma_sum_ext(|i: int| pow(w, (i * ((2 * d - 1) * (2 * l + 1) + 2 * j + 1)) as nat), |i: int| pow(w, (i * e) as nat), d as int);
        lemma_mul_mod_noop_right(v[l], sum(|i: int| pow(w, (i * e) as nat), d as int), n);
        lemma_mul_basics(v[l]);
        lemma_small_mod(0, n as nat);
    }
    lemma_sum_single(h, j, d as int, n);
    {
        let e = ((2 * d - 1) * (2 * j + 1) + 2 * j + 1) as nat;
        lemma_exponent_parity(d, j, j);
        lemma_orthogonality_even(w, d, n, e);
        lemma_sum_ext(|i: int| pow(w, (i * ((2 * d - 1) * (2 * j + 1) + 2 * j + 1)) as nat), |i: int| pow(w, (i * e) as nat), d as int);
        lemma_mul_mod_noop_right(v[j], sum(|i: int| pow(w, (i * e) as nat), d as int), n);
        lemma_mul_mod_noop_right(v[j], d as int, n);
    }
    // d_inv·v_j·D = v_j
    let total = sum(inner, d as int);
    assert(total % n == (v[j] * d) % n);
    lemma_mul_mod_noop_right(d_inv, total, n);
    lemma_mul_mod_noop_right(d_inv, v[j] * d, n);
    assert(d_inv * (v[j] * d) == v[j] * (d * d_inv)) by (nonlinear_arith);
    lemma_mul_mod_noop_right(v[j], d * d_inv, n);
    lemma_mul_basics(v[j]);
    lemma_small_mod(v[j] as nat, n as nat);
    lemma_mod_twice(eval_poly(c, x), n);
}

/// The forward transform undoes the inverse one: every vector of `D`
/// values reduced modulo `n` is the transform of its inverse transform.
pub proof fn lemma_ntt_inverse_round_trip(v: Seq<int>, w: int, w_inv: int, d_inv: int, n: int)
    requires
        n > 1,
        v.len() > 0,
        reduced(v, n),
        primitive_root(w, v.len() as int, n),
        (w * w_inv) % n == 1,
        (v.len() * d_inv) % n == 1,
    ensures
        ntt_spec(intt_spec(v, w_inv, d_inv, n), w, n) == v,
{
    assert forall|j: int| 0 <= j < v.len() implies #[trigger] ntt_spec(intt_spec(v, w_inv, d_inv, n), w, n)[j] == v[j] by {
        lemma_inverse_round_trip_at(v, w, w_inv, d_inv, n, j);
    }
    assert(ntt_spec(intt_spec(v, w_inv, d_inv, n), w, n) =~= v);
}

/// What the monomial `v·x^ex` contributes to coefficient `m` modulo
/// `x^D + 1`: `x^ex` is `x^e` for `e = ex mod 2D`, which is `-x^(e-D)` when
/// `e >= D`.
pub open spec fn mono_contrib(v: int, ex: int, d: int, m: int) -> int {
    let e = ex % (2 * d);
    if e == m {
        v
    } else if e == m + d {
        -v
    } else {
        0
    }
}

/// The coefficients of `x^k·c` in `Z_n[x] / (x^D + 1)`.
pub open spec fn shift_coeffs(c: Seq<int>, k: int, n: int) -> Seq<int> {
    Seq::new(c.len(), |m: int| sum(|i: int| mono_contrib(c[i], i + k, c.len() as int, m), c.len() as int) % n)
}

/// `Σ_m contrib(v·x^ex, m)·X^m = v·w^((2j+1)ex)` for `X = w^(2j+1)`.
proof fn lemma_mono_row(v: int, ex: nat, w: int, n: int, d: nat, j: nat)
    requires
        n > 1,
        d > 0,
        pow(w, d) % n == n - 1,
    ensures
        sum(|m: int| mono_contrib(v, ex as int, d as int, m) * pow(pow(w, 2 * j + 1) % n, m as nat), d as int) % n
            == (v * pow(w, ((2 * j + 1) * ex) as nat)) % n,
{
    let x = pow(w, 2 * j + 1) % n;
    let f = |m: int| mono_contrib(v, ex as int, d as int, m) * pow(x, m as nat);
    let e = (ex % (2 * d)) as nat;
    lemma_mod_bound(ex as int, 2 * d as int);
    assert forall|m: nat| #[trigger] pow(x, m) % n == pow(w, ((2 * j + 1) * m) as nat) % n by {
        lemma_pow_mod_noop(pow(w, 2 * j + 1), m, n);
        lemma_pow_multiplies(w, 2 * j + 1, m);
    }
    lemma_pow_period(w, d, n, ((2 * j + 1) * ex) as nat);
    lemma_pow_period(w, d, n, ((2 * j + 1) * e) as nat);
    lemma_mul_mod_noop_right((2 * j + 1) as int, ex as int, 2 * d as int);
    lemma_mul_mod_noop_right(v, pow(w, ((2 * j + 1) * ex) as nat), n);
    let m0: int = if e < d { e as int } else { e - d };
    assert forall|m: int| 0 <= m < d && m != m0 implies #[trigger] f(m) % n == 0 by {
        lemma_small_mod(0, n as nat);
    }
    lemma_sum_single(f, m0, d as int, n);
    if e < d {
        assert(f(m0) == v * pow(x, e));
        lemma_mul_mod_noop_right(v, pow(x, e), n);
        lemma_mul_mod_noop_right(v, pow(w, ((2 * j + 1) * e) as nat), n);
    } else {
        let a = ((2 * j + 1) * (e - d)) as nat;
        let b = ((2 * j + 1) * e) as nat;
        assert(b == a + (2 * j + 1) * d) by (nonlinear_arith)
            requires
                a == (2 * j + 1) * (e - d),
                b == (2 * j + 1) * e,
                e >= d,
        ;
        lemma_pow_adds(w, a, ((2 * j + 1) * d) as nat);
        lemma_pow_period(w, d, n, ((2 * j + 1) * d) as nat);
        assert((2 * j + 1) * d == (2 * d) * j + d) by (nonlinear_arith);
        lemma_mod_multiples_vanish(j as int, d as int, 2 * d as int);
        lemma_small_mod(d, 2 * d);
        lemma_mul_mod_noop_right(pow(w, a), pow(w, ((2 * j + 1) * d) as nat), n);
        assert(pow(w, a) * (n - 1) == n * pow(w, a) + -pow(w, a)) by (nonlinear_arith);
        lemma_mod_multiples_vanish(pow(w, a), -pow(w, a), n);
        assert(f(m0) == -v * pow(x, (e - d) as nat));
        lemma_mul_mod_noop_right(-v, pow(x, (e - d) as nat), n);
        lemma_mul_mod_noop_right(-v, pow(w, a), n);
        lemma_mul_mod_noop_right(v, pow(w, b), n);
        lemma_mul_mod_noop_right(v, -pow(w, a), n);
        assert(-v * pow(w, a) == v * (-pow(w, a))) by (nonlinear_arith);
    }
}

/// Multiplying by `x^k` scales slot `j` of the transform by `w^((2j+1)k)`.
pub proof fn lemma_shift_commutes(c: Seq<int>, w: int, n: int, k: nat)
    requires
        n > 1,
        c.len() > 0,
        pow(w, c.len()) % n == n - 1,
    ensures
        ntt_spec(shift_coeffs(c, k as int, n), w, n) == Seq::new(
            c.len(),
            |j: int| (ntt_spec(c, w, n)[j] * (pow(w, shift_exp(j, k as int, c.len() as int)) % n)) % n,
        ),
{
    let d = c.len();
    assert forall|j: int| 0 <= j < d implies #[trigger] ntt_spec(shift_coeffs(c, k as int, n), w, n)[j] == (ntt_spec(c, w, n)[j] * (pow(w, shift_exp(j, k as int, d as int)) % n)) % n by {
        lemma_shift_slot(c, w, n, k, j as nat);
    }
    assert(ntt_spec(shift_coeffs(c, k as int, n), w, n) =~= Seq::new(
        c.len(),
        |j: int| (ntt_spec(c, w, n)[j] * (pow(w, shift_exp(j, k as int, c.len() as int)) % n)) % n,
    ));
}

#[verifier::rlimit(60)]
proof fn lemma_shift_slot(c: Seq<int>, w: int, n: int, k: nat, j: nat)
    requires
        n > 1,
        c.len() > 0,
        pow(w, c.len()) % n == n - 1,
        j < c.len(),
    ensures
        ntt_spec(shift_coeffs(c, k as int, n), w, n)[j as int] == (ntt_spec(c, w, n)[j as int] * (pow(w, shift_exp(j as int, k as int, c.len() as int)) % n)) % n,
{
    let d = c.len();
    let a = shift_coeffs(c, k as int, n);
    let x = eval_point(w, j as int, n);
    let g2 = |m: int, i: int| mono_contrib(c[i], i + k, d as int, m) * pow(x, m as nat);
    lemma_eval_as_sum(a, x);
    let fa = |m: int| a[m] * pow(x, m as nat);
    let rows = |m: int| sum(|i: int| g2(m, i), d as int);
    assert forall|m: int| 0 <= m < d implies #[trigger] fa(m) % n == rows(m) % n by {
        let sm = sum(|i: int| mono_contrib(c[i], i + k, d as int, m), d as int);
        lemma_sum_scale(|i: int| mono_contrib(c[i], i + k, d as int, m), |i: int| pow(x, m as nat) * mono_contrib(c[i], i + k, d as int, m), pow(x, m as nat), d as int);
        assert forall|i: int| 0 <= i < d implies #[trigger] (pow(x, m as nat) * mono_contrib(c[i], i + k, d as int, m)) == g2(m, i) by {
            lemma_mul_is_commutative(pow(x, m as nat), mono_contrib(c[i], i + k, d as int, m));
        }
        lemma_sum_ext(|i: int| pow(x, m as nat) * mono_contrib(c[i], i + k, d as int, m), |i: int| g2(m, i), d as int);
        lemma_mul_mod_noop_left(sm, pow(x, m as nat), n);
        lemma_mul_is_commutative(sm, pow(x, m as nat));
    }
    lemma_sum_congr(fa, rows, d as int, n);
    lemma_sum_swap(g2, d as int, d as int);
    let cols = |i: int| sum(|m: int| g2(m, i), d as int);
    let target = |i: int| c[i] * pow(w, ((2 * j + 1) * (i + k)) as nat);
    assert forall|i: int| 0 <= i < d implies #[trigger] cols(i) % n == target(i) % n by {
        lemma_mono_row(c[i], (i + k) as nat, w, n, d, j);
        lemma_sum_ext(|m: int| g2(m, i), |m: int| mono_contrib(c[i], ((i + k) as nat) as int, d as int, m) * pow(pow(w, 2 * j + 1) % n, m as nat), d as int);
    }
    lemma_sum_congr(cols, target, d as int, n);
    // Σ_i c_i w^((2j+1)(i+k)) = w^((2j+1)k) · c(w^(2j+1))
    let y = pow(w, 2 * j + 1);
    let sk = pow(w, ((2 * j + 1) * k) as nat);
    lemma_eval_as_sum(c, y);
    let ev = |i: int| c[i] * pow(y, i as nat);
    assert forall|i: int| 0 <= i < d implies #[trigger] target(i) == sk * ev(i) by {
        lemma_pow_multiplies(w, 2 * j + 1, i as nat);
        lemma_pow_adds(w, ((2 * j + 1) * i) as nat, ((2 * j + 1) * k) as nat);
        assert((2 * j + 1) * (i + k) == (2 * j + 1) * i + (2 * j + 1) * k) by (nonlinear_arith);
        assert(c[i] * (pow(y, i as nat) * sk) == sk * (c[i] * pow(y, i as nat))) by (nonlinear_arith);
    }
    lemma_sum_scale(ev, target, sk, d as int);
    // reduce: c(y) = c(x) and w^((2j+1)k) = w^(((2j+1)k) mod 2D) modulo n
    lemma_eval_mod(c, y, n);
    lemma_pow_period(w, d, n, ((2 * j + 1) * k) as nat);
    let ey = eval_poly(c, y);
    let sk2 = pow(w, shift_exp(j as int, k as int, d as int));
    lemma_mul_mod_noop(sk, ey, n);
    lemma_mul_mod_noop(sk2, eval_poly(c, x), n);
    lemma_mod_twice(eval_poly(c, x), n);
    lemma_mod_twice(sk2, n);
    lemma_mul_mod_noop(eval_poly(c, x) % n, sk2 % n, n);
    lemma_mul_is_commutative(eval_poly(c, x) % n, sk2 % n);
    lemma_mod_twice(eval_poly(a, x), n);
}

/// `nega_lo` as a sum over all rows: rows past `k` contribute nothing.
proof fn lemma_lo_as_sum(a: Seq<int>, b: Seq<int>, k: int, m: int)
    requires
        0 <= m <= k + 1,
    ensures
        nega_lo(a, b, k, m) == sum(|i: int| if i <= k { a[i] * b[k - i] } else { 0 }, m),
    decreases m,
{
    if m > 0 {
        lemma_lo_as_sum(a, b, k, m - 1);
    }
}

proof fn lemma_lo_full(a: Seq<int>, b: Seq<int>, k: int, m: int)
    requires
        0 <= k,
        k + 1 <= m,
    ensures
        sum(|i: int| if i <= k { a[i] * b[k - i] } else { 0 }, m) == nega_lo(a, b, k, k + 1),
    decreases m,
{
    if m > k + 1 {
        lemma_lo_full(a, b, k, m - 1);
    } else {
        lemma_lo_as_sum(a, b, k, k + 1);
    }
}

/// `nega_hi` as a sum over all rows: rows up to `k` contribute nothing.
proof fn lemma_hi_as_sum(a: Seq<int>, b: Seq<int>, k: int, m: int)
    requires
        0 <= k,
        k + 1 <= m,
    ensures
        nega_hi(a, b, k, m) == sum(|i: int| if i > k { a[i] * b[k + a.len() - i] } else { 0 }, m),
    decreases m,
{
    if m > k + 1 {
        lemma_hi_as_sum(a, b, k, m - 1);
    } else {
        lemma_hi_zero_prefix(a, b, k, k + 1);
    }
}

proof fn lemma_hi_zero_prefix(a: Seq<int>, b: Seq<int>, k: int, m: int)
    requires
        0 <= m <= k + 1,
    ensures
        sum(|i: int| if i > k { a[i] * b[k + a.len() - i] } else { 0 }, m) == 0,
    decreases m,
{
    if m > 0 {
        lemma_hi_zero_prefix(a, b, k, m - 1);
    }
}

/// Row `i` of the product at coefficient `k`: `Σ_l contrib(a_i·b_l·x^(i+l), k)`
/// is `a_i·b_(k-i)` for `i <= k` and `-a_i·b_(k+D-i)` otherwise.
proof fn lemma_product_row(a: Seq<int>, b: Seq<int>, i: int, k: int, n: int)
    requires
        n > 0,
        a.len() == b.len(),
        a.len() > 0,
        0 <= i < a.len(),
        0 <= k < a.len(),
    ensures
        sum(|l: int| mono_contrib(a[i] * b[l], i + l, a.len() as int, k), a.len() as int) % n
            == (if i <= k { a[i] * b[k - i] } else { -(a[i] * b[k + a.len() - i]) }) % n,
{
    let d = a.len() as int;
    let f = |l: int| mono_contrib(a[i] * b[l], i + l, d, k);
    let l0 = if i <= k { k - i } else { k + d - i };
    assert forall|l: int| 0 <= l < d && l != l0 implies #[trigger] f(l) % n == 0 by {
        let s = i + l;
        assert(0 <= s < 2 * d);
        lemma_small_mod(s as nat, (2 * d) as nat);
        lemma_small_mod(0, n as nat);
    }
    lemma_sum_single(f, l0, d, n);
    let s0 = i + l0;
    lemma_small_mod(s0 as nat, (2 * d) as nat);
}

/// Coefficient `k` of the negacyclic product is the sum of all products
/// `a_i·b_l·x^(i+l)` reduced modulo `x^D + 1`.
proof fn lemma_product_coeff(a: Seq<int>, b: Seq<int>, k: int, n: int)
    requires
        n > 0,
        a.len() == b.len(),
        a.len() > 0,
        0 <= k < a.len(),
    ensures
        nega_coeff(a, b, k) % n == sum(|i: int| sum(|l: int| mono_contrib(a[i] * b[l], i + l, a.len() as int, k), a.len() as int), a.len() as int) % n,
{
    let d = a.len() as int;
    let rows = |i: int| sum(|l: int| mono_contrib(a[i] * b[l], i + l, d, k), d);
    let lo = |i: int| if i <= k { a[i] * b[k - i] } else { 0 };
    let hi = |i: int| if i > k { a[i] * b[k + a.len() - i] } else { 0 };
    let signed = |i: int| lo(i) - hi(i);
    assert forall|i: int| 0 <= i < d implies #[trigger] rows(i) % n == signed(i) % n by {
        lemma_product_row(a, b, i, k, n);
    }
    lemma_sum_congr(rows, signed, d, n);
    lemma_sum_sub(lo, hi, d);
    lemma_lo_full(a, b, k, d);
    lemma_hi_as_sum(a, b, k, d);
}

proof fn lemma_sum_sub(f: spec_fn(int) -> int, g: spec_fn(int) -> int, m: int)
    ensures
        sum(|i: int| f(i) - g(i), m) == sum(f, m) - sum(g, m),
    decreases m,
{
    if m > 0 {
        lemma_sum_sub(f, g, m - 1);
    }
}

proof fn lemma_sum_scale_right(f: spec_fn(int) -> int, g: spec_fn(int) -> int, c: int, m: int)
    requires
        forall|j: int| 0 <= j < m ==> #[trigger] g(j) == f(j) * c,
    ensures
        sum(g, m) == sum(f, m) * c,
{
    assert forall|j: int| 0 <= j < m implies #[trigger] g(j) == c * f(j) by {
        lemma_mul_is_commutative(f(j), c);
    }
    lemma_sum_scale(f, g, c, m);
    lemma_mul_is_commutative(c, sum(f, m));
}

#[verifier::rlimit(80)]
proof fn lemma_convolution_slot(a: Seq<int>, b: Seq<int>, w: int, n: int, j: int)
    requires
        n > 1,
        a.len() == b.len(),
        a.len() > 0,
        pow(w, a.len()) % n == n - 1,
        0 <= j < a.len(),
    ensures
        ntt_spec(ring_mul(a, b, n), w, n)[j] == (ntt_spec(a, w, n)[j] * ntt_spec(b, w, n)[j]) % n,
{
    let d = a.len();
    let r = ring_mul(a, b, n);
    let x = eval_point(w, j, n);
    let y = pow(w, (2 * j + 1) as nat);
    let f3 = |k: int, i: int, l: int| mono_contrib(a[i] * b[l], i + l, d as int, k) * pow(x, k as nat);
    let hk = |k: int, i: int| sum(|l: int| f3(k, i, l), d as int);
    // Σ_k r_k x^k = Σ_k Σ_i Σ_l contrib·x^k (mod n)
    lemma_eval_as_sum(r, x);
    let fr = |k: int| r[k] * pow(x, k as nat);
    let outer = |k: int| sum(|i: int| hk(k, i), d as int);
    assert forall|k: int| 0 <= k < d implies #[trigger] fr(k) % n == outer(k) % n by {
        lemma_product_coeff(a, b, k, n);
        let inner = |i: int| sum(|l: int| mono_contrib(a[i] * b[l], i + l, d as int, k), d as int);
        let px = pow(x, k as nat);
        assert forall|i: int| 0 <= i < d implies #[trigger] hk(k, i) == inner(i) * px by {
            lemma_sum_scale_right(|l: int| mono_contrib(a[i] * b[l], i + l, d as int, k), |l: int| f3(k, i, l), px, d as int);
        }
        lemma_sum_scale_right(inner, |i: int| hk(k, i), px, d as int);
        lemma_mul_mod_noop_left(nega_coeff(a, b, k), px, n);
        lemma_mul_mod_noop_left(sum(inner, d as int), px, n);
    }
    lemma_sum_congr(fr, outer, d as int, n);
    lemma_sum_swap(hk, d as int, d as int);
    // for each row i: Σ_k Σ_l f3 = Σ_l Σ_k f3 = Σ_l a_i b_l y^(i+l)
    let by_row = |i: int| sum(|k: int| hk(k, i), d as int);
    let eb = eval_poly(b, y);
    let target = |i: int| (a[i] * pow(y, i as nat)) * eb;
    assert forall|i: int| 0 <= i < d implies #[trigger] by_row(i) % n == target(i) % n by {
        let g = |k: int, l: int| f3(k, i, l);
        lemma_sum_swap(g, d as int, d as int);
        assert forall|k: int| 0 <= k < d implies #[trigger] hk(k, i) == sum(|l: int| g(k, l), d as int) by {
            lemma_sum_ext(|l: int| f3(k, i, l), |l: int| g(k, l), d as int);
        }
        lemma_sum_ext(|k: int| hk(k, i), |k: int| sum(|l: int| g(k, l), d as int), d as int);
        let col = |l: int| sum(|k: int| g(k, l), d as int);
        let t2 = |l: int| a[i] * pow(y, i as nat) * (b[l] * pow(y, l as nat));
        assert forall|l: int| 0 <= l < d implies #[trigger] col(l) % n == t2(l) % n by {
            lemma_mono_row(a[i] * b[l], (i + l) as nat, w, n, d, j as nat);
            lemma_sum_ext(|k: int| g(k, l), |k: int| mono_contrib(a[i] * b[l], ((i + l) as nat) as int, d as int, k) * pow(pow(w, (2 * j + 1) as nat) % n, k as nat), d as int);
            lemma_pow_adds(w, ((2 * j + 1) * i) as nat, ((2 * j + 1) * l) as nat);
            lemma_pow_multiplies(w, (2 * j + 1) as nat, i as nat);
            lemma_pow_multiplies(w, (2 * j + 1) as nat, l as nat);
            assert((2 * j + 1) * (i + l) == (2 * j + 1) * i + (2 * j + 1) * l) by (nonlinear_arith);
            assert(a[i] * b[l] * (pow(y, i as nat) * pow(y, l as nat)) == a[i] * pow(y, i as nat) * (b[l] * pow(y, l as nat))) by (nonlinear_arith);
        }
        lemma_sum_congr(col, t2, d as int, n);
        lemma_eval_as_sum(b, y);
        lemma_sum_scale(|l: int| b[l] * pow(y, l as nat), t2, a[i] * pow(y, i as nat), d as int);
        lemma_mul_is_commutative(a[i] * pow(y, i as nat), eb);
    }
    lemma_sum_congr(by_row, target, d as int, n);
    lemma_eval_as_sum(a, y);
    lemma_sum_scale_right(|i: int| a[i] * pow(y, i as nat), target, eb, d as int);
    // reduce the evaluation points
    lemma_eval_mod(a, y, n);
    lemma_eval_mod(b, y, n);
    let ea = eval_poly(a, y);
    lemma_mul_mod_noop(ea, eb, n);
    lemma_mul_mod_noop(eval_poly(a, x), eval_poly(b, x), n);
    lemma_mod_twice(eval_poly(r, x), n);
}

/// The transform turns the negacyclic product into the point-by-point
/// product: `ntt(a·b) = ntt(a) ⊙ ntt(b)` whenever `w^D = -1`.
pub proof fn lemma_convolution(a: Seq<int>, b: Seq<int>, w: int, n: int)
    requires
        n > 1,
        a.len() == b.len(),
        a.len() > 0,
        pow(w, a.len()) % n == n - 1,
    ensures
        ntt_spec(ring_mul(a, b, n), w, n) == pt_mul(ntt_spec(a, w, n), ntt_spec(b, w, n), n),
{
    assert forall|j: int| 0 <= j < a.len() implies #[trigger] ntt_spec(ring_mul(a, b, n), w, n)[j] == pt_mul(ntt_spec(a, w, n), ntt_spec(b, w, n), n)[j] by {
        lemma_convolution_slot(a, b, w, n, j);
    }
    assert(ntt_spec(ring_mul(a, b, n), w, n) =~= pt_mul(ntt_spec(a, w, n), ntt_spec(b, w, n), n));
}

pub(crate) proof fn lemma_sum_add_scaled(f: spec_fn(int) -> int, g: spec_fn(int) -> int, s: int, m: int)
    ensures
        sum(|i: int| f(i) + s * g(i), m) == sum(f, m) + s * sum(g, m),
    decreases m,
{
    if m > 0 {
        lemma_sum_add_scaled(f, g, s, m - 1);
        lemma_mul_is_distributive_add(s, sum(g, m - 1), g(m - 1));
    }
}

/// Evaluation is linear: if `c = a + s·b` entrywise modulo `n`, then
/// `c(x) = a(x) + s·b(x)` modulo `n`.
proof fn lemma_eval_linear(a: Seq<int>, b: Seq<int>, c: Seq<int>, s: int, x: int, n: int)
    requires
        n > 0,
        a.len() == b.len(),
        c.len() == a.len(),
        forall|i: int| 0 <= i < c.len() ==> #[trigger] c[i] % n == (a[i] + s * b[i]) % n,
    ensures
        eval_poly(c, x) % n == (eval_poly(a, x) + s * eval_poly(b, x)) % n,
{
    let d = c.len() as int;
    lemma_eval_as_sum(a, x);
    lemma_eval_as_sum(b, x);
    lemma_eval_as_sum(c, x);
    let fa = |i: int| a[i] * pow(x, i as nat);
    let fb = |i: int| b[i] * pow(x, i as nat);
    let fc = |i: int| c[i] * pow(x, i as nat);
    let comb = |i: int| fa(i) + s * fb(i);
    assert forall|i: int| 0 <= i < d implies #[trigger] fc(i) % n == comb(i) % n by {
        lemma_mul_mod_noop_left(c[i], pow(x, i as nat), n);
        lemma_mul_mod_noop_left(a[i] + s * b[i], pow(x, i as nat), n);
        assert((a[i] + s * b[i]) * pow(x, i as nat) == a[i] * pow(x, i as nat) + s * (b[i] * pow(x, i as nat))) by (nonlinear_arith);
    }
    lemma_sum_congr(fc, comb, d, n);
    lemma_sum_add_scaled(fa, fb, s, d);
}

/// The transform of `a + s·b` (entrywise modulo `n`) is `ntt(a) + s·ntt(b)`.
proof fn lemma_ntt_linear_slot(a: Seq<int>, b: Seq<int>, c: Seq<int>, s: int, w: int, n: int, j: int)
    requires
        n > 1,
        a.len() == b.len(),
        c.len() == a.len(),
        forall|i: int| 0 <= i < c.len() ==> #[trigger] c[i] % n == (a[i] + s * b[i]) % n,
        0 <= j < c.len(),
    ensures
        ntt_spec(c, w, n)[j] == (ntt_spec(a, w, n)[j] + s * ntt_spec(b, w, n)[j]) % n,
{
    let x = eval_point(w, j, n);
    lemma_eval_linear(a, b, c, s, x, n);
    let ea = eval_poly(a, x);
    let eb = eval_poly(b, x);
    lemma_add_mod_noop(ea, s * eb, n);
    lemma_mul_mod_noop_right(s, eb, n);
    lemma_add_mod_noop(ea % n, s * (eb % n), n);
    lemma_mod_twice(ea, n);
    lemma_mod_twice(s * (eb % n), n);
    lemma_mod_twice(s * eb, n);
}

/// The transform is additive.
pub proof fn lemma_ntt_add(a: Seq<int>, b: Seq<int>, w: int, n: int)
    requires
        n > 1,
        a.len() == b.len(),
    ensures
        ntt_spec(ring_add(a, b, n), w, n) == ring_add(ntt_spec(a, w, n), ntt_spec(b, w, n), n),
{
    let c = ring_add(a, b, n);
    assert forall|i: int| 0 <= i < c.len() implies #[trigger] c[i] % n == (a[i] + 1 * b[i]) % n by {
        lemma_mod_twice(a[i] + b[i], n);
    }
    assert forall|j: int| 0 <= j < c.len() implies #[trigger] ntt_spec(c, w, n)[j] == ring_add(ntt_spec(a, w, n), ntt_spec(b, w, n), n)[j] by {
        lemma_ntt_linear_slot(a, b, c, 1, w, n, j);
    }
    assert(ntt_spec(c, w, n) =~= ring_add(ntt_spec(a, w, n), ntt_spec(b, w, n), n));
}

/// The transform commutes with subtraction.
pub proof fn lemma_ntt_sub(a: Seq<int>, b: Seq<int>, w: int, n: int)
    requires
        n > 1,
        a.len() == b.len(),
    ensures
        ntt_spec(ring_sub(a, b, n), w, n) == ring_sub(ntt_spec(a, w, n), ntt_spec(b, w, n), n),
{
    let c = ring_sub(a, b, n);
    assert forall|i: int| 0 <= i < c.len() implies #[trigger] c[i] % n == (a[i] + (-1) * b[i]) % n by {
        lemma_mod_twice(a[i] - b[i], n);
    }
    assert forall|j: int| 0 <= j < c.len() implies #[trigger] ntt_spec(c, w, n)[j] == ring_sub(ntt_spec(a, w, n), ntt_spec(b, w, n), n)[j] by {
        lemma_ntt_linear_slot(a, b, c, -1, w, n, j);
    }
    assert(ntt_spec(c, w, n) =~= ring_sub(ntt_spec(a, w, n), ntt_spec(b, w, n), n));
}

/// The transform commutes with negation.
pub proof fn lemma_ntt_neg(a: Seq<int>, w: int, n: int)
    requires
        n > 1,
    ensures
        ntt_spec(ring_neg(a, n), w, n) == ring_neg(ntt_spec(a, w, n), n),
{
    let c = ring_neg(a, n);
    let z = Seq::new(a.len(), |i: int| 0int);
    assert forall|i: int| 0 <= i < c.len() implies #[trigger] c[i] % n == (z[i] + (-1) * a[i]) % n by {
        lemma_mod_twice(-a[i], n);
    }
    assert forall|j: int| 0 <= j < c.len() implies #[trigger] ntt_spec(c, w, n)[j] == ring_neg(ntt_spec(a, w, n), n)[j] by {
        lemma_ntt_linear_slot(z, a, c, -1, w, n, j);
        lemma_eval_as_sum(z, eval_point(w, j, n));
        lemma_sum_ext(|i: int| z[i] * pow(eval_point(w, j, n), i as nat), |i: int| 0int, a.len() as int);
        lemma_sum_zero(a.len() as int);
        lemma_small_mod(0, n as nat);
    }
    assert(ntt_spec(c, w, n) =~= ring_neg(ntt_spec(a, w, n), n));
}

/// Every entry of `c` multiplied by `k`, modulo `n`.
pub open spec fn scale(c: Seq<int>, k: int, n: int) -> Seq<int> {
    Seq::new(c.len(), |j: int| (k * c[j]) % n)
}

/// The transform of `k·c` is the transform of `c` times the constant `k`.
pub proof fn lemma_ntt_scale(c: Seq<int>, k: int, w: int, n: int)
    requires
        n > 1,
    ensures
        ntt_spec(scale(c, k, n), w, n) == pt_mul(ntt_spec(c, w, n), constant(c.len(), k), n),
{
    let sc = scale(c, k, n);
    let z = Seq::new(c.len(), |i: int| 0int);
    assert forall|i: int| 0 <= i < sc.len() implies #[trigger] sc[i] % n == (z[i] + k * c[i]) % n by {
        lemma_mod_twice(k * c[i], n);
    }
    assert forall|j: int| 0 <= j < sc.len() implies #[trigger] ntt_spec(sc, w, n)[j] == pt_mul(ntt_spec(c, w, n), constant(c.len(), k), n)[j] by {
        let x = eval_point(w, j, n);
        lemma_ntt_linear_slot(z, c, sc, k, w, n, j);
        lemma_eval_as_sum(z, x);
        lemma_sum_ext(|i: int| z[i] * pow(x, i as nat), |i: int| 0int, c.len() as int);
        lemma_sum_zero(c.len() as int);
        lemma_small_mod(0, n as nat);
        lemma_mul_mod_noop_right(k, eval_poly(c, x), n);
        lemma_mul_is_commutative(eval_poly(c, x) % n, k);
    }
    assert(ntt_spec(sc, w, n) =~= pt_mul(ntt_spec(c, w, n), constant(c.len(), k), n));
}

/// The transform of zero is zero.
pub proof fn lemma_ntt_zero(d: nat, w: int, n: int)
    requires
        n > 1,
    ensures
        ntt_spec(Seq::new(d, |i: int| 0int), w, n) == Seq::new(d, |i: int| 0int),
{
    let z = Seq::new(d, |i: int| 0int);
    assert forall|j: int| 0 <= j < d implies #[trigger] ntt_spec(z, w, n)[j] == 0 by {
        let x = eval_point(w, j, n);
        lemma_eval_as_sum(z, x);
        assert forall|i: int| 0 <= i < d implies #[trigger] (z[i] * pow(x, i as nat)) == 0int by {
            lemma_mul_basics(pow(x, i as nat));
        }
        lemma_sum_ext(|i: int| z[i] * pow(x, i as nat), |i: int| 0int, d as int);
        lemma_sum_zero(d as int);
        lemma_small_mod(0, n as nat);
    }
    assert(ntt_spec(z, w, n) =~= z);
}

} // verus!
