//! The negacyclic number-theoretic transform: a ring element of degree `D`
//! held as its values at the odd powers `w^(2j+1)` of a primitive `2D`-th
//! root of unity `w`.
use crate::cyclo::ints;
use crate::modular::{add_mod, mul_mod_small};
use vstd::arithmetic::div_mod::*;
use vstd::arithmetic::mul::*;
use vstd::arithmetic::power::*;
use vstd::prelude::*;

verus! {

/// `Σ c[i]·x^i` over the integers.
pub open spec fn eval_poly(c: Seq<int>, x: int) -> int
    decreases c.len(),
{
    if c.len() == 0 {
        0
    } else {
        eval_poly(c.drop_last(), x) + c.last() * pow(x, (c.len() - 1) as nat)
    }
}

/// The evaluation point for slot `j`: `w^(2j+1) mod n`.
pub open spec fn eval_point(w: int, j: int, n: int) -> int {
    pow(w, (2 * j + 1) as nat) % n
}

/// The forward transform: slot `j` holds `c(w^(2j+1)) mod n`.
pub open spec fn ntt_spec(c: Seq<int>, w: int, n: int) -> Seq<int> {
    Seq::new(c.len(), |j: int| eval_poly(c, eval_point(w, j, n)) % n)
}

/// The inverse transform: coefficient `i` is
/// `D^-1 · w^-i · Σ_j p[j]·w^(-2ij) mod n`, with `w_inv = w^-1` and `d_inv = D^-1`.
pub open spec fn intt_spec(p: Seq<int>, w_inv: int, d_inv: int, n: int) -> Seq<int> {
    Seq::new(
        p.len(),
        |i: int|
            (((d_inv * (pow(w_inv, i as nat) % n)) % n) * (eval_poly(p, pow(w_inv, (2 * i) as nat) % n) % n)) % n,
    )
}

proof fn lemma_pow_step(w: int, e: nat, f: nat, n: int, x: int, y: int)
    requires
        n > 0,
        x == pow(w, e) % n,
        y == pow(w, f) % n,
    ensures
        (x * y) % n == pow(w, e + f) % n,
{
    lemma_pow_adds(w, e, f);
    lemma_mul_mod_noop(pow(w, e), pow(w, f), n);
}

/// `c(x) mod n` for a coefficient vector, by running powers of `x`.
pub fn eval_at(c: &Vec<u64>, x: u64, n: u64) -> (r: u64)
    requires
        1 < n <= u32::MAX,
        x < n,
    ensures
        r == eval_poly(ints(c@), x as int) % (n as int),
        r < n,
{
    let ghost s = ints(c@);
    let len = c.len();
    let mut result: u64 = 0;
    let mut cur: u64 = 1;
    let mut i: usize = 0;
    proof {
        lemma_pow0(x as int);
        lemma_small_mod(0, n as nat);
        lemma_small_mod(1, n as nat);
        assert(s.take(0) =~= Seq::<int>::empty());
    }
    while i < len
        invariant
            1 < n <= u32::MAX,
            x < n,
            s == ints(c@),
            len == c.len(),
            i <= len,
            result < n,
            cur < n,
            result == eval_poly(s.take(i as int), x as int) % (n as int),
            cur == pow(x as int, i as nat) % (n as int),
        decreases len - i,
    {
        let ci = c[i] % n;
        let term = mul_mod_small(cur, ci, n);
        proof {
            let t = s.take(i as int + 1);
            assert(t.drop_last() =~= s.take(i as int));
            let p = pow(x as int, i as nat);
            assert(s[i as int] == c@[i as int]);
            lemma_mul_mod_noop_left(p, c@[i as int] as int, n as int);
            lemma_mul_mod_noop_right(cur as int, c@[i as int] as int, n as int);
            lemma_mul_is_commutative(p, c@[i as int] as int);
            lemma_add_mod_noop(eval_poly(s.take(i as int), x as int), c@[i as int] * p, n as int);
            lemma_mod_twice(eval_poly(s.take(i as int), x as int), n as int);
            lemma_mod_twice(c@[i as int] * p, n as int);
            lemma_pow1(x as int);
            lemma_small_mod(x as nat, n as nat);
            lemma_pow_step(x as int, i as nat, 1, n as int, cur as int, x as int);
        }
        result = add_mod(result, term, n);
        cur = mul_mod_small(cur, x, n);
        i += 1;
    }
    proof {
        assert(s.take(len as int) =~= s);
    }
    result
}

/// The forward transform of `c` with root `w` modulo `n`.
pub fn ntt_forward(c: &Vec<u64>, w: u64, n: u64) -> (r: Vec<u64>)
    requires
        1 < n <= u32::MAX,
        w < n,
    ensures
        r.len() == c.len(),
        ints(r@) == ntt_spec(ints(c@), w as int, n as int),
        forall|j: int| 0 <= j < r.len() ==> #[trigger] r@[j] < n,
{
    let d = c.len();
    let w2 = mul_mod_small(w, w, n);
    let mut x: u64 = w;
    let mut out: Vec<u64> = Vec::with_capacity(d);
    let mut j: usize = 0;
    proof {
        lemma_pow1(w as int);
        lemma_small_mod(w as nat, n as nat);
        assert(w2 == pow(w as int, 2) % (n as int)) by {
            lemma_square_is_pow2(w as int);
        }
    }
    while j < d
        invariant
            1 < n <= u32::MAX,
            w < n,
            d == c.len(),
            j <= d,
            out.len() == j,
            w2 == pow(w as int, 2) % (n as int),
            x < n,
            x == eval_point(w as int, j as int, n as int),
            forall|k: int| 0 <= k < j ==> #[trigger] out@[k] == eval_poly(ints(c@), eval_point(w as int, k, n as int)) % (n as int),
            forall|k: int| 0 <= k < j ==> #[trigger] out@[k] < n,
        decreases d - j,
    {
        out.push(eval_at(c, x, n));
        proof {
            lemma_pow_step(w as int, (2 * j + 1) as nat, 2, n as int, x as int, w2 as int);
        }
        x = mul_mod_small(x, w2, n);
        j += 1;
    }
    proof {
        assert(ints(out@) =~= ntt_spec(ints(c@), w as int, n as int));
    }
    out
}

/// The inverse transform of the points `p`, given `w^-1` and `D^-1` modulo `n`.
pub fn ntt_inverse(p: &Vec<u64>, w_inv: u64, d_inv: u64, n: u64) -> (r: Vec<u64>)
    requires
        1 < n <= u32::MAX,
        w_inv < n,
        d_inv < n,
    ensures
        r.len() == p.len(),
        ints(r@) == intt_spec(ints(p@), w_inv as int, d_inv as int, n as int),
        forall|j: int| 0 <= j < r.len() ==> #[trigger] r@[j] < n,
{
    let d = p.len();
    let wi2 = mul_mod_small(w_inv, w_inv, n);
    let mut t: u64 = 1;
    let mut y: u64 = 1;
    let mut out: Vec<u64> = Vec::with_capacity(d);
    let mut i: usize = 0;
    proof {
        lemma_pow0(w_inv as int);
        lemma_small_mod(1, n as nat);
        lemma_pow1(w_inv as int);
        lemma_small_mod(w_inv as nat, n as nat);
        assert(wi2 == pow(w_inv as int, 2) % (n as int)) by {
            lemma_square_is_pow2(w_inv as int);
        }
    }
    while i < d
        invariant
            1 < n <= u32::MAX,
            w_inv < n,
            d_inv < n,
            d == p.len(),
            i <= d,
            out.len() == i,
            wi2 == pow(w_inv as int, 2) % (n as int),
            w_inv == pow(w_inv as int, 1) % (n as int),
            t < n,
            y < n,
            t == pow(w_inv as int, i as nat) % (n as int),
            y == pow(w_inv as int, (2 * i) as nat) % (n as int),
            forall|k: int| 0 <= k < i ==> #[trigger] out@[k] == intt_spec(ints(p@), w_inv as int, d_inv as int, n as int)[k],
            forall|k: int| 0 <= k < i ==> #[trigger] out@[k] < n,
        decreases d - i,
    {
        let e = eval_at(p, y, n);
        let v = mul_mod_small(mul_mod_small(d_inv, t, n), e, n);
        out.push(v);
        proof {
            lemma_pow_step(w_inv as int, i as nat, 1, n as int, t as int, w_inv as int);
            lemma_pow_step(w_inv as int, (2 * i) as nat, 2, n as int, y as int, wi2 as int);
        }
        t = mul_mod_small(t, w_inv, n);
        y = mul_mod_small(y, wi2, n);
        i += 1;
    }
    proof {
        assert(ints(out@) =~= intt_spec(ints(p@), w_inv as int, d_inv as int, n as int));
    }
    out
}

} // verus!
