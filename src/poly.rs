//! Dense polynomials with `u32` coefficients, evaluated and multiplied
//! modulo a constant `N`.
use vstd::arithmetic::div_mod::*;
use vstd::arithmetic::mul::*;
use vstd::arithmetic::power::*;
use crate::ntt_laws::{lemma_sum_ext, lemma_sum_swap, sum};
use vstd::prelude::*;

verus! {

/// A polynomial `Σ coeff[i]·x^i` whose arithmetic is taken modulo `N`.
#[derive(Debug)]
pub struct PolyU32<const N: u32> {
    coeff: Vec<u32>,
}

impl<const N: u32> View for PolyU32<N> {
    type V = Seq<u32>;

    closed spec fn view(&self) -> Seq<u32> {
        self.coeff@
    }
}

/// `s` without its trailing zero coefficients.
pub open spec fn strip_zeros(s: Seq<u32>) -> Seq<u32>
    decreases s.len(),
{
    if s.len() > 0 && s.last() == 0 {
        strip_zeros(s.drop_last())
    } else {
        s
    }
}

/// `Σ s[i]·x^i` over the integers.
pub open spec fn eval_seq(s: Seq<u32>, x: int) -> int
    decreases s.len(),
{
    if s.len() == 0 {
        0
    } else {
        eval_seq(s.drop_last(), x) + s.last() * pow(x, (s.len() - 1) as nat)
    }
}

/// The product term `a[i]·b[k-i]`, or zero where `b` has no index `k - i`.
pub open spec fn conv_term(a: Seq<u32>, b: Seq<u32>, i: int, k: int) -> int {
    if 0 <= k - i < b.len() {
        a[i] * b[k - i]
    } else {
        0
    }
}

/// `Σ_{i < m} a[i]·b[k-i]`: the first `m` rows of coefficient `k` of `a·b`.
pub open spec fn conv_partial(a: Seq<u32>, b: Seq<u32>, m: int, k: int) -> int
    decreases m,
{
    if m <= 0 {
        0
    } else {
        conv_partial(a, b, m - 1, k) + conv_term(a, b, m - 1, k)
    }
}

/// The coefficients of `a·b` modulo `n`, `a.len() + b.len()` of them (the last
/// one is always zero).
pub open spec fn conv_mod(a: Seq<u32>, b: Seq<u32>, n: int) -> Seq<u32> {
    Seq::new((a.len() + b.len()) as nat, |k: int| (conv_partial(a, b, a.len() as int, k) % n) as u32)
}

impl<const N: u32> PartialEq for PolyU32<N> {
    fn eq(&self, other: &PolyU32<N>) -> (r: bool)
        ensures
            r == (self@ == other@),
    {
        let n = self.coeff.len();
        if n != other.coeff.len() {
            return false;
        }
        let mut i: usize = 0;
        while i < n
            invariant
                n == self.coeff.len(),
                n == other.coeff.len(),
                i <= n,
                forall|k: int| 0 <= k < i ==> self.coeff@[k] == other.coeff@[k],
            decreases n - i,
        {
            if self.coeff[i] != other.coeff[i] {
                return false;
            }
            i += 1;
        }
        proof {
            assert(self.coeff@ =~= other.coeff@);
        }
        true
    }
}

impl<const N: u32> vstd::std_specs::cmp::PartialEqSpecImpl for PolyU32<N> {
    open spec fn obeys_eq_spec() -> bool {
        true
    }

    open spec fn eq_spec(&self, other: &PolyU32<N>) -> bool {
        self@ == other@
    }
}

proof fn lemma_strip_prefix(s: Seq<u32>, i: int)
    requires
        0 <= i <= s.len(),
        forall|k: int| i <= k < s.len() ==> s[k] == 0,
        i == 0 || s[i - 1] != 0,
    ensures
        strip_zeros(s) == s.take(i),
    decreases s.len(),
{
    if s.len() > i {
        assert(s.drop_last().take(i) =~= s.take(i));
        lemma_strip_prefix(s.drop_last(), i);
    } else {
        assert(s.take(i) =~= s);
        if i > 0 {
            assert(s.last() != 0);
        }
    }
}

proof fn lemma_conv_partial_other(a: Seq<u32>, b: Seq<u32>, m: int, k: int)
    requires
        0 <= m,
    ensures
        conv_partial(a, b, m + 1, k) == conv_partial(a, b, m, k) + conv_term(a, b, m, k),
{
}

proof fn lemma_conv_one(a: Seq<u32>, m: int, k: int)
    requires
        0 <= m,
        0 <= k,
    ensures
        conv_partial(a, seq![1u32], m, k) == if k < m { a[k] as int } else { 0 },
    decreases m,
{
    if m > 0 {
        lemma_conv_one(a, m - 1, k);
    }
}

/// The unit is neutral: `p·1 = p` for every polynomial without trailing
/// zeros whose coefficients are below `n`.
pub proof fn lemma_poly_mul_one(a: Seq<u32>, n: int)
    requires
        n > 0,
        strip_zeros(a) == a,
        forall|i: int| 0 <= i < a.len() ==> (#[trigger] a[i]) < n,
    ensures
        strip_zeros(conv_mod(a, seq![1u32], n)) == a,
{
    let c = conv_mod(a, seq![1u32], n);
    assert forall|k: int| 0 <= k < c.len() implies #[trigger] c[k] == a.push(0u32)[k] by {
        lemma_conv_one(a, a.len() as int, k);
        if k < a.len() {
            lemma_small_mod(a[k] as nat, n as nat);
        } else {
            lemma_small_mod(0, n as nat);
        }
    }
    assert(c =~= a.push(0u32));
    assert(a.push(0u32).drop_last() =~= a);
}

proof fn lemma_sum_only(f: spec_fn(int) -> int, j0: int, m: int)
    requires
        0 <= m,
        forall|j: int| 0 <= j < m && j != j0 ==> #[trigger] f(j) == 0,
    ensures
        sum(f, m) == if 0 <= j0 < m { f(j0) } else { 0 },
    decreases m,
{
    if m > 0 {
        lemma_sum_only(f, j0, m - 1);
    }
}

/// `conv_partial` as a double sum over all pairs `(i, j)` with `i + j = k`.
proof fn lemma_conv_double(a: Seq<u32>, b: Seq<u32>, m: int, k: int)
    requires
        0 <= m,
    ensures
        conv_partial(a, b, m, k) == sum(|i: int| sum(|j: int| if i + j == k { a[i] * b[j] } else { 0 }, b.len() as int), m),
    decreases m,
{
    if m > 0 {
        lemma_conv_double(a, b, m - 1, k);
        let i = m - 1;
        lemma_sum_only(|j: int| if i + j == k { a[i] * b[j] } else { 0 }, k - i, b.len() as int);
    }
}

/// Multiplication of polynomials is commutative.
pub proof fn lemma_poly_mul_comm(a: Seq<u32>, b: Seq<u32>, n: int)
    ensures
        conv_mod(a, b, n) == conv_mod(b, a, n),
{
    assert forall|k: int| 0 <= k < a.len() + b.len() implies #[trigger] conv_mod(a, b, n)[k] == conv_mod(b, a, n)[k] by {
        let f = |i: int, j: int| if i + j == k { a[i] * b[j] } else { 0 };
        lemma_conv_double(a, b, a.len() as int, k);
        lemma_conv_double(b, a, b.len() as int, k);
        lemma_sum_swap(f, a.len() as int, b.len() as int);
        let col_a = |j: int| sum(|i: int| f(i, j), a.len() as int);
        let col_b = |j: int| sum(|i: int| if j + i == k { b[j] * a[i] } else { 0 }, a.len() as int);
        assert forall|j: int| 0 <= j < b.len() implies #[trigger] col_a(j) == col_b(j) by {
            assert forall|i: int| 0 <= i < a.len() implies #[trigger] f(i, j) == (if j + i == k { b[j] * a[i] } else { 0 }) by {
                lemma_mul_is_commutative(a[i] as int, b[j] as int);
            }
            lemma_sum_ext(|i: int| f(i, j), |i: int| if j + i == k { b[j] * a[i] } else { 0 }, a.len() as int);
        }
        lemma_sum_ext(col_a, col_b, b.len() as int);
        let row_a = |i: int| sum(|j: int| f(i, j), b.len() as int);
        let row_b = |i: int| sum(|j: int| if i + j == k { a[i] * b[j] } else { 0 }, b.len() as int);
        assert forall|i: int| 0 <= i < a.len() implies #[trigger] row_a(i) == row_b(i) by {
            lemma_sum_ext(|j: int| f(i, j), |j: int| if i + j == k { a[i] * b[j] } else { 0 }, b.len() as int);
        }
        lemma_sum_ext(row_a, row_b, a.len() as int);
    }
    assert(conv_mod(a, b, n) =~= conv_mod(b, a, n));
}

impl<const N: u32> PolyU32<N> {
    /// The constant modulo which this family's tests work, `2^32 - 5`.
    pub const P: u32 = u32::MAX - 5 + 1;

    /// A polynomial with the given coefficients, trailing zeros dropped.
    pub fn new(coeff: Vec<u32>) -> (r: PolyU32<N>)
        ensures
            r@ == strip_zeros(coeff@),
    {
        let mut coeff = coeff;
        let mut idx = coeff.len();
        loop
            invariant
                idx <= coeff.len(),
                forall|k: int| idx <= k < coeff.len() ==> coeff@[k] == 0,
            ensures
                idx <= coeff.len(),
                forall|k: int| idx <= k < coeff.len() ==> coeff@[k] == 0,
                idx == 0 || coeff@[idx - 1] != 0,
            decreases idx,
        {
            if idx == 0 || coeff[idx - 1] != 0 {
                break;
            }
            idx -= 1;
        }
        let ghost orig = coeff@;
        coeff.truncate(idx);
        proof {
            lemma_strip_prefix(orig, idx as int);
            assert(coeff@ =~= orig.take(idx as int));
        }
        PolyU32 { coeff }
    }

    /// The zero polynomial, held as the single coefficient `0`.
    pub fn zero() -> (r: PolyU32<N>)
        ensures
            r@ == seq![0u32],
    {
        PolyU32 { coeff: vec![0] }
    }

    /// The constant polynomial `1`.
    pub fn one() -> (r: PolyU32<N>)
        ensures
            r@ == seq![1u32],
    {
        PolyU32 { coeff: vec![1] }
    }

    /// The value of the polynomial at `x`, modulo `N`.
    pub fn eval(&self, x: u32) -> (r: u32)
        requires
            N > 0,
        ensures
            r == eval_seq(self@, x as int) % (N as int),
    {
        let n = N as u64;
        let mut result: u64 = 0;
        let mut current_pow: u64 = 1 % n;
        let len = self.coeff.len();
        let mut i: usize = 0;
        proof {
            lemma_pow0(x as int);
            lemma_small_mod(0, n as nat);
            assert(self.coeff@.take(0) =~= Seq::<u32>::empty());
            assert(eval_seq(self.coeff@.take(0), x as int) == 0);
        }
        while i < len
            invariant
                n == N as u64,
                n > 0,
                len == self.coeff.len(),
                i <= len,
                result < n,
                current_pow < n,
                result == eval_seq(self.coeff@.take(i as int), x as int) % (n as int),
                current_pow == pow(x as int, i as nat) % (n as int),
            decreases len - i,
        {
            let a = self.coeff[i];
            proof {
                assert(current_pow * a <= u32::MAX as int * u32::MAX as int) by (nonlinear_arith)
                    requires
                        current_pow < n,
                        n <= u32::MAX,
                        a <= u32::MAX,
                ;
            }
            let ghost old_result = result;
            let term = current_pow * (a as u64) % n;
            result += term;
            result %= n;
            let ghost old_pow = current_pow;
            proof {
                assert(current_pow * x <= u32::MAX as int * u32::MAX as int) by (nonlinear_arith)
                    requires
                        current_pow < n,
                        n <= u32::MAX,
                        x <= u32::MAX,
                ;
            }
            current_pow *= x as u64;
            current_pow %= n;
            proof {
                let s = self.coeff@.take(i as int + 1);
                assert(s.drop_last() =~= self.coeff@.take(i as int));
                let p = pow(x as int, i as nat);
                // the new term, reduced
                lemma_mul_mod_noop_left(p, a as int, n as int);
                lemma_mul_is_commutative(p, a as int);
                lemma_mul_is_commutative(old_pow as int, a as int);
                lemma_add_mod_noop(eval_seq(self.coeff@.take(i as int), x as int), a * p, n as int);
                lemma_mod_twice(a * p, n as int);
                lemma_mod_twice(eval_seq(self.coeff@.take(i as int), x as int), n as int);
                // the next power
                lemma_pow_adds(x as int, i as nat, 1);
                lemma_pow1(x as int);
                lemma_mul_mod_noop_left(p, x as int, n as int);
            }
            i += 1;
        }
        proof {
            assert(self.coeff@.take(len as int) =~= self.coeff@);
        }
        result as u32
    }

    /// The product `self·other` modulo `N`, trailing zeros dropped.
    pub fn mul(&self, other: &PolyU32<N>) -> (r: PolyU32<N>)
        requires
            N > 0,
            self@.len() + other@.len() <= usize::MAX,
        ensures
            r@ == strip_zeros(conv_mod(self@, other@, N as int)),
    {
        let n = N as u64;
        let la = self.coeff.len();
        let lb = other.coeff.len();
        let ghost a = self.coeff@;
        let ghost b = other.coeff@;
        let mut result_coeff: Vec<u32> = vec![0; la + lb];
        let mut i: usize = 0;
        proof {
            lemma_small_mod(0, n as nat);
            assert forall|k: int| 0 <= k < la + lb implies #[trigger] result_coeff@[k] == conv_partial(a, b, 0, k) % (n as int) by {
                assert(result_coeff@[k] == 0);
            }
        }
        while i < la
            invariant
                n == N as u64,
                n > 0,
                la == a.len(),
                lb == b.len(),
                a == self.coeff@,
                b == other.coeff@,
                i <= la,
                result_coeff.len() == la + lb,
                forall|k: int|
                    0 <= k < la + lb ==> #[trigger] result_coeff@[k] == conv_partial(a, b, i as int, k) % (n as int),
            decreases la - i,
        {
            let ai = self.coeff[i];
            let mut j: usize = 0;
            while j < lb
                invariant
                    n == N as u64,
                    n > 0,
                    la == a.len(),
                    lb == b.len(),
                    a == self.coeff@,
                    b == other.coeff@,
                    i < la,
                    ai == a[i as int],
                    j <= lb,
                    result_coeff.len() == la + lb,
                    forall|k: int|
                        0 <= k < la + lb ==> #[trigger] result_coeff@[k] == (if i <= k < i + j {
                            conv_partial(a, b, i + 1, k)
                        } else {
                            conv_partial(a, b, i as int, k)
                        }) % (n as int),
                decreases lb - j,
            {
                let bj = other.coeff[j];
                let cur = result_coeff[i + j];
                proof {
                    assert((ai as int) * (bj as int) <= u32::MAX as int * u32::MAX as int) by (nonlinear_arith)
                        requires
                            ai <= u32::MAX,
                            bj <= u32::MAX,
                    ;
                    lemma_mod_bound(conv_partial(a, b, i as int, i + j), n as int);
                }
                let v = ((cur as u64) + (ai as u64) * (bj as u64)) % n;
                proof {
                    let k = i + j;
                    lemma_conv_partial_other(a, b, i as int, k);
                    assert(conv_term(a, b, i as int, k) == ai * bj);
                    lemma_add_mod_noop(conv_partial(a, b, i as int, k), ai * bj, n as int);
                    lemma_mod_twice(conv_partial(a, b, i as int, k), n as int);
                    lemma_small_mod((ai * bj) as nat, 0x1_0000_0000_0000_0000);
                    lemma_add_mod_noop(cur as int, ai * bj, n as int);
                    lemma_mod_twice(ai * bj, n as int);
                }
                result_coeff.set(i + j, v as u32);
                j += 1;
            }
            proof {
                assert forall|k: int| 0 <= k < la + lb implies #[trigger] result_coeff@[k] == conv_partial(a, b, i + 1, k) % (n as int) by {
                    lemma_conv_partial_other(a, b, i as int, k);
                }
            }
            i += 1;
        }
        proof {
            assert(result_coeff@ =~= conv_mod(a, b, n as int));
        }
        PolyU32::new(result_coeff)
    }
}

} // verus!
