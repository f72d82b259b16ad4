//! Arithmetic on integers modulo a fixed modulus.
use vstd::arithmetic::div_mod::*;
use vstd::arithmetic::mul::*;
use vstd::arithmetic::power::*;
use vstd::prelude::*;

verus! {

/// Greatest common divisor by Euclid's recursion.
pub open spec fn gcd(a: nat, b: nat) -> nat
    decreases b,
{
    if b == 0 {
        a
    } else {
        gcd(b, a % b)
    }
}

/// `d` divides `x`.
pub open spec fn divides(d: int, x: int) -> bool {
    d != 0 && x % d == 0
}

/// `x` has a multiplicative inverse modulo `n`.
pub open spec fn has_inverse(x: int, n: int) -> bool {
    exists|r: int| 0 <= r < n && #[trigger] ((x * r) % n) == 1
}

pub proof fn lemma_gcd_divides(a: nat, b: nat)
    requires
        a > 0 || b > 0,
    ensures
        gcd(a, b) > 0,
        (a as int) % (gcd(a, b) as int) == 0,
        (b as int) % (gcd(a, b) as int) == 0,
    decreases b,
{
    if b == 0 {
        lemma_mod_self_0(a as int);
        lemma_small_mod(0, a);
    } else {
        lemma_mod_pos_bound(a as int, b as int);
        lemma_gcd_divides(b, a % b);
        let g = gcd(b, a % b) as int;
        // a == b * (a / b) + a % b, and g divides both terms
        lemma_fundamental_div_mod(a as int, b as int);
        lemma_mod_multiples_vanish((a / b) as int * ((b as int) / g), (a % b) as int, g);
        lemma_fundamental_div_mod(b as int, g);
        assert((b as int) == g * ((b as int) / g));
        assert((a as int) == g * ((b as int) / g) * (a / b) as int + (a % b) as int) by {
            lemma_mul_is_associative(g, (b as int) / g, (a / b) as int);
            lemma_mul_is_commutative(b as int, (a / b) as int);
        }
        assert(g * ((b as int) / g) * (a / b) as int == ((a / b) as int * ((b as int) / g)) * g) by {
            lemma_mul_is_associative(g, (b as int) / g, (a / b) as int);
            lemma_mul_is_commutative(g, (b as int) / g * (a / b) as int);
            lemma_mul_is_commutative((b as int) / g, (a / b) as int);
        }
    }
}

/// A value that shares a factor greater than one with `n` has no inverse.
pub proof fn lemma_no_inverse(x: nat, n: nat)
    requires
        n > 1,
        gcd(x, n) != 1,
    ensures
        !has_inverse(x as int, n as int),
{
    lemma_gcd_divides(x, n);
    let g = gcd(x, n) as int;
    if has_inverse(x as int, n as int) {
        let r = choose|r: int| 0 <= r < n && #[trigger] ((x * r) % (n as int)) == 1;
        let q = (x * r) / (n as int);
        lemma_fundamental_div_mod(x * r, n as int);
        // x * r == n * q + 1, so g divides 1
        lemma_fundamental_div_mod(x as int, g);
        lemma_fundamental_div_mod(n as int, g);
        let xg = (x as int) / g;
        let ng = (n as int) / g;
        assert(x * r == g * (xg * r)) by {
            lemma_mul_is_associative(g, xg, r);
        }
        assert(n * q == g * (ng * q)) by {
            lemma_mul_is_associative(g, ng, q);
        }
        assert(g * (xg * r - ng * q) == 1) by {
            lemma_mul_is_distributive_sub(g, xg * r, ng * q);
        }
        assert(g > 1);
        if xg * r - ng * q >= 1 {
            lemma_mul_inequality(1, xg * r - ng * q, g);
            lemma_mul_is_commutative(g, xg * r - ng * q);
        } else {
            lemma_mul_inequality(xg * r - ng * q, 0, g);
            lemma_mul_is_commutative(g, xg * r - ng * q);
        }
    }
}

/// `(a + b) mod n` for reduced operands.
pub fn add_mod(a: u64, b: u64, n: u64) -> (r: u64)
    requires
        0 < n,
        a < n,
        b < n,
    ensures
        r == (a + b) % (n as int),
        r < n,
{
    let s = a as u128 + b as u128;
    let r = if s >= n as u128 {
        (s - n as u128) as u64
    } else {
        s as u64
    };
    proof {
        if s >= n {
            lemma_mod_sub_multiples_vanish(a + b, n as int);
            lemma_small_mod((a + b - n) as nat, n as nat);
        } else {
            lemma_small_mod((a + b) as nat, n as nat);
        }
    }
    r
}

/// `(a - b) mod n` for reduced operands, as a value in `[0, n)`.
pub fn sub_mod(a: u64, b: u64, n: u64) -> (r: u64)
    requires
        0 < n,
        a < n,
        b < n,
    ensures
        r == (a - b) % (n as int),
        r < n,
{
    let r = if a >= b {
        a - b
    } else {
        n - (b - a)
    };
    proof {
        if a >= b {
            lemma_small_mod((a - b) as nat, n as nat);
        } else {
            lemma_mod_add_multiples_vanish(a - b, n as int);
            lemma_small_mod((a - b + n) as nat, n as nat);
        }
    }
    r
}

/// `-a mod n` for a reduced operand.
pub fn neg_mod(a: u64, n: u64) -> (r: u64)
    requires
        0 < n,
        a < n,
    ensures
        r == (-a) % (n as int),
        r < n,
{
    sub_mod(0, a, n)
}

/// `(a * b) mod n`, through a double-width product.
pub fn mul_mod(a: u64, b: u64, n: u64) -> (r: u64)
    requires
        0 < n,
    ensures
        r == (a * b) % (n as int),
        r < n,
{
    proof {
        assert(a * b <= u64::MAX as int * u64::MAX as int) by (nonlinear_arith);
    }
    let p = a as u128 * b as u128;
    proof {
        lemma_mod_bound(a * b, n as int);
    }
    (p % n as u128) as u64
}

/// `(a * b) mod n` for a modulus below `2^32`, in single-word arithmetic.
pub fn mul_mod_small(a: u64, b: u64, n: u64) -> (r: u64)
    requires
        0 < n <= u32::MAX,
        a < n,
        b < n,
    ensures
        r == (a * b) % (n as int),
        r < n,
{
    proof {
        assert(a * b <= u32::MAX as int * u32::MAX as int) by (nonlinear_arith)
            requires
                a < n <= u32::MAX,
                b < n,
        ;
        lemma_mod_bound(a * b, n as int);
    }
    (a * b) % n
}

/// `x` reduced modulo `n`.
pub fn reduce(x: u64, n: u64) -> (r: u64)
    requires
        0 < n,
    ensures
        r == x % n,
        r < n,
{
    x % n
}

/// `a^e mod n`, by square and multiply.
pub fn pow_mod(a: u64, e: u64, n: u64) -> (r: u64)
    requires
        0 < n,
    ensures
        r == pow(a as int, e as nat) % (n as int),
        r < n,
{
    let mut result: u64 = 1 % n;
    let mut base: u64 = a % n;
    let mut k: u64 = e;
    proof {
        lemma_pow_mod_noop(a as int, e as nat, n as int);
        lemma_mul_mod_noop_left(1, pow(base as int, e as nat), n as int);
        lemma_mul_mod_noop_left(1, pow(a as int, e as nat), n as int);
    }
    // result * base^k == a^e (mod n)
    while k > 0
        invariant
            0 < n,
            result < n,
            base < n,
            (result * pow(base as int, k as nat)) % (n as int) == pow(a as int, e as nat) % (n as int),
        decreases k,
    {
        let ghost old_result = result;
        let ghost old_base = base;
        let ghost old_k = k;
        if k % 2 == 1 {
            result = mul_mod(result, base, n);
        }
        base = mul_mod(base, base, n);
        k = k / 2;
        proof {
            let b = old_base as int;
            let h = k as nat;
            // b^old_k == (b*b)^h * (b if odd)
            lemma_pow_multiplies(b, 2, h);
            lemma_pow_adds(b, 2 * h, 1);
            lemma_pow1(b);
            lemma_square_is_pow2(b);
            let bb = b * b;
            lemma_pow_mod_noop(bb, h, n as int);
            assert(pow(b, 2) == bb) by {
                reveal(pow);
                lemma_pow1(b);
            }
            if old_k % 2 == 1 {
                assert(old_k as nat == 2 * h + 1);
                assert(pow(b, old_k as nat) == pow(bb, h) * b) by {
                    lemma_mul_is_commutative(pow(b, 2 * h), b);
                }
                // (r * b) * bb^h
                lemma_mul_mod_noop_left(old_result * b, pow(bb, h), n as int);
                lemma_mul_mod_noop_right(old_result * b, pow(bb, h), n as int);
                lemma_mul_mod_noop_right(result as int, pow(bb, h), n as int);
                lemma_mul_mod_noop_right(result as int, pow(base as int, h), n as int);
                assert((result * pow(base as int, h)) % (n as int) == (result * (pow(bb, h) % (n as int))) % (n as int));
                assert((result * pow(bb, h)) % (n as int) == (old_result * b * pow(bb, h)) % (n as int));
                lemma_mul_is_associative(old_result as int, b, pow(bb, h));
                lemma_mul_is_commutative(b, pow(bb, h));
            } else {
                assert(old_k as nat == 2 * h);
                lemma_mul_mod_noop_right(result as int, pow(bb, h), n as int);
                lemma_mul_mod_noop_right(result as int, pow(base as int, h), n as int);
            }
        }
    }
    proof {
        lemma_pow0(base as int);
        lemma_small_mod(result as nat, n as nat);
    }
    result
}

proof fn lemma_combine_congruent(x: int, xs: int, y: int, ys: int, q: int, a: int, n: int)
    requires
        n > 0,
        x % n == (xs * a) % n,
        y % n == (ys * a) % n,
    ensures
        (x - q * y) % n == ((xs - q * ys) * a) % n,
{
    lemma_fundamental_div_mod(x, n);
    lemma_fundamental_div_mod(xs * a, n);
    lemma_fundamental_div_mod(y, n);
    lemma_fundamental_div_mod(ys * a, n);
    let k = (x / n - (xs * a) / n) - q * (y / n - (ys * a) / n);
    let d1 = x - xs * a;
    let d2 = y - ys * a;
    assert(d1 == n * (x / n - (xs * a) / n)) by {
        lemma_mul_is_distributive_sub(n, x / n, (xs * a) / n);
    }
    assert(d2 == n * (y / n - (ys * a) / n)) by {
        lemma_mul_is_distributive_sub(n, y / n, (ys * a) / n);
    }
    assert(x - q * y - (xs - q * ys) * a == d1 - q * d2) by (nonlinear_arith)
        requires
            d1 == x - xs * a,
            d2 == y - ys * a,
    ;
    assert(d1 - q * d2 == k * n) by (nonlinear_arith)
        requires
            d1 == n * (x / n - (xs * a) / n),
            d2 == n * (y / n - (ys * a) / n),
            k == (x / n - (xs * a) / n) - q * (y / n - (ys * a) / n),
    ;
    lemma_mod_multiples_vanish(k, (xs - q * ys) * a, n);
    lemma_mul_is_commutative(k, n);
}

/// The inverse of `a` modulo `n`, by the extended Euclidean algorithm; `None`
/// exactly when `a` has none (it shares a factor with `n`).
pub fn inv_mod(a: u64, n: u64) -> (r: Option<u64>)
    requires
        1 < n,
        a < n,
    ensures
        r is Some <==> has_inverse(a as int, n as int),
        r matches Some(v) ==> v < n && (a * v) % (n as int) == 1,
{
    let mut old_r: u64 = n;
    let mut cur_r: u64 = a;
    let mut old_s: u64 = 0;
    let mut cur_s: u64 = 1;
    proof {
        lemma_small_mod(a as nat, n as nat);
        lemma_mod_self_0(n as int);
        lemma_small_mod(0, n as nat);
        assert(gcd(a as nat, n as nat) == gcd(n as nat, a as nat));
    }
    while cur_r != 0
        invariant
            1 < n,
            a < n,
            old_s < n,
            cur_s < n,
            gcd(old_r as nat, cur_r as nat) == gcd(a as nat, n as nat),
            (old_r as int) % (n as int) == (old_s * a) % (n as int),
            (cur_r as int) % (n as int) == (cur_s * a) % (n as int),
        decreases cur_r,
    {
        let q = old_r / cur_r;
        let next_r = old_r % cur_r;
        let next_s = sub_mod(old_s, mul_mod(q, cur_s, n), n);
        proof {
            lemma_fundamental_div_mod(old_r as int, cur_r as int);
            assert(next_r == old_r - q * cur_r) by (nonlinear_arith)
                requires
                    old_r as int == cur_r * (old_r as int / cur_r as int) + old_r as int % cur_r as int,
                    q == old_r as int / cur_r as int,
                    next_r == old_r as int % cur_r as int,
            ;
            lemma_combine_congruent(old_r as int, old_s as int, cur_r as int, cur_s as int, q as int, a as int, n as int);
            // next_s == (old_s - (q * cur_s) % n) % n
            lemma_sub_mod_noop_right(old_s as int, q * cur_s, n as int);
            lemma_mul_mod_noop_left(old_s - q * cur_s, a as int, n as int);
            lemma_mul_mod_noop_left(next_s as int, a as int, n as int);
            lemma_mod_twice(old_s - q * cur_s, n as int);
            lemma_mod_pos_bound(old_r as int, cur_r as int);
        }
        old_r = cur_r;
        cur_r = next_r;
        old_s = cur_s;
        cur_s = next_s;
    }
    if old_r == 1 {
        proof {
            lemma_small_mod(1, n as nat);
            assert(has_inverse(a as int, n as int)) by {
                lemma_mul_is_commutative(a as int, old_s as int);
                assert((a * old_s) % (n as int) == 1);
            }
        }
        proof {
            lemma_mul_is_commutative(a as int, old_s as int);
        }
        Some(old_s)
    } else {
        proof {
            lemma_no_inverse(a as nat, n as nat);
        }
        None
    }
}

} // verus!
