//! The negacyclic ring `Z_n[x] / (x^D + 1)` in coefficient form.
use crate::modular::{add_mod, mul_mod, neg_mod, reduce, sub_mod};
use vstd::arithmetic::div_mod::*;
use vstd::arithmetic::mul::*;
use vstd::prelude::*;

verus! {

/// A ring element `Σ coeff[i]·x^i`, `D = coeff.len()`, coefficients modulo `n`.
#[derive(Debug, Clone)]
pub struct IntModCyclo {
    pub n: u64,
    pub coeff: Vec<u64>,
}

/// The coefficients of a vector as integers.
pub open spec fn ints(v: Seq<u64>) -> Seq<int> {
    Seq::new(v.len(), |i: int| v[i] as int)
}

/// Every entry lies in `[0, n)`.
pub open spec fn reduced(a: Seq<int>, n: int) -> bool {
    forall|i: int| 0 <= i < a.len() ==> 0 <= #[trigger] a[i] < n
}

pub open spec fn ring_zero(d: nat) -> Seq<int> {
    Seq::new(d, |i: int| 0)
}

pub open spec fn ring_one(d: nat) -> Seq<int> {
    Seq::new(d, |i: int| if i == 0 { 1 } else { 0 })
}

pub open spec fn ring_add(a: Seq<int>, b: Seq<int>, n: int) -> Seq<int> {
    Seq::new(a.len(), |i: int| (a[i] + b[i]) % n)
}

pub open spec fn ring_sub(a: Seq<int>, b: Seq<int>, n: int) -> Seq<int> {
    Seq::new(a.len(), |i: int| (a[i] - b[i]) % n)
}

pub open spec fn ring_neg(a: Seq<int>, n: int) -> Seq<int> {
    Seq::new(a.len(), |i: int| (-a[i]) % n)
}

/// `Σ_{i < m} a[i]·b[k-i]`: the products that land on `x^k` without wrapping.
pub open spec fn nega_lo(a: Seq<int>, b: Seq<int>, k: int, m: int) -> int
    decreases m,
{
    if m <= 0 {
        0
    } else {
        nega_lo(a, b, k, m - 1) + a[m - 1] * b[k - (m - 1)]
    }
}

/// `Σ_{k < i < m} a[i]·b[k+D-i]`: the products that wrap past `x^D = -1` onto `x^k`.
pub open spec fn nega_hi(a: Seq<int>, b: Seq<int>, k: int, m: int) -> int
    decreases m - k,
{
    if m <= k + 1 {
        0
    } else {
        nega_hi(a, b, k, m - 1) + a[m - 1] * b[k + a.len() - (m - 1)]
    }
}

/// Coefficient `k` of the negacyclic product, before reduction.
pub open spec fn nega_coeff(a: Seq<int>, b: Seq<int>, k: int) -> int {
    nega_lo(a, b, k, k + 1) - nega_hi(a, b, k, a.len() as int)
}

/// The product `a·b` in `Z_n[x] / (x^D + 1)`.
pub open spec fn ring_mul(a: Seq<int>, b: Seq<int>, n: int) -> Seq<int> {
    Seq::new(a.len(), |k: int| nega_coeff(a, b, k) % n)
}

/// `Σ_{m <= i <= k} a[i]·b[k-i]`.
spec fn lo_tail(a: Seq<int>, b: Seq<int>, k: int, m: int) -> int
    decreases k + 1 - m,
{
    if m > k {
        0
    } else {
        a[m] * b[k - m] + lo_tail(a, b, k, m + 1)
    }
}

/// `Σ_{m <= i < D} a[i]·b[k+D-i]`.
spec fn hi_tail(a: Seq<int>, b: Seq<int>, k: int, m: int) -> int
    decreases a.len() - m,
{
    if m >= a.len() {
        0
    } else {
        a[m] * b[k + a.len() - m] + hi_tail(a, b, k, m + 1)
    }
}

proof fn lemma_lo_split(a: Seq<int>, b: Seq<int>, k: int, m: int)
    requires
        0 <= m <= k + 1,
    ensures
        nega_lo(a, b, k, m) + lo_tail(a, b, k, m) == nega_lo(a, b, k, k + 1),
    decreases k + 1 - m,
{
    if m <= k {
        lemma_lo_split(a, b, k, m + 1);
    }
}

proof fn lemma_lo_reverse(a: Seq<int>, b: Seq<int>, k: int, m: int)
    requires
        0 <= m <= k + 1,
    ensures
        lo_tail(a, b, k, m) == nega_lo(b, a, k, k + 1 - m),
    decreases k + 1 - m,
{
    if m <= k {
        lemma_lo_reverse(a, b, k, m + 1);
        lemma_mul_is_commutative(a[m], b[k - m]);
    }
}

proof fn lemma_hi_split(a: Seq<int>, b: Seq<int>, k: int, m: int)
    requires
        k + 1 <= m <= a.len(),
    ensures
        nega_hi(a, b, k, m) + hi_tail(a, b, k, m) == nega_hi(a, b, k, a.len() as int),
    decreases a.len() - m,
{
    if m < a.len() {
        lemma_hi_split(a, b, k, m + 1);
    }
}

proof fn lemma_hi_reverse(a: Seq<int>, b: Seq<int>, k: int, m: int)
    requires
        a.len() == b.len(),
        k + 1 <= m <= a.len(),
    ensures
        hi_tail(a, b, k, m) == nega_hi(b, a, k, k + a.len() + 1 - m),
    decreases a.len() - m,
{
    if m < a.len() {
        lemma_hi_reverse(a, b, k, m + 1);
        lemma_mul_is_commutative(a[m], b[k + a.len() - m]);
    }
}

proof fn lemma_nega_coeff_comm(a: Seq<int>, b: Seq<int>, k: int)
    requires
        a.len() == b.len(),
        0 <= k < a.len(),
    ensures
        nega_coeff(a, b, k) == nega_coeff(b, a, k),
{
    lemma_lo_split(a, b, k, 0);
    lemma_lo_reverse(a, b, k, 0);
    lemma_hi_split(a, b, k, k + 1);
    lemma_hi_reverse(a, b, k, k + 1);
}

proof fn lemma_one_lo(a: Seq<int>, k: int, m: int)
    requires
        0 <= m <= k + 1,
        0 <= k < a.len(),
    ensures
        nega_lo(a, ring_one(a.len()), k, m) == if m == k + 1 { a[k] } else { 0 },
    decreases m,
{
    if m > 0 {
        lemma_one_lo(a, k, m - 1);
        let j = k - (m - 1);
        assert(ring_one(a.len())[j] == if j == 0 { 1int } else { 0int });
    }
}

proof fn lemma_one_hi(a: Seq<int>, k: int, m: int)
    requires
        0 <= k,
        k + 1 <= m <= a.len(),
    ensures
        nega_hi(a, ring_one(a.len()), k, m) == 0,
    decreases m - k,
{
    if m > k + 1 {
        lemma_one_hi(a, k, m - 1);
        let j = k + a.len() - (m - 1);
        assert(ring_one(a.len())[j] == 0int);
    }
}

/// Addition in `Z_n[x] / (x^D + 1)` is associative.
pub proof fn lemma_add_assoc(a: Seq<int>, b: Seq<int>, c: Seq<int>, n: int)
    requires
        n > 0,
        a.len() == b.len() == c.len(),
    ensures
        ring_add(ring_add(a, b, n), c, n) == ring_add(a, ring_add(b, c, n), n),
{
    assert forall|i: int| 0 <= i < a.len() implies #[trigger] ring_add(ring_add(a, b, n), c, n)[i] == ring_add(a, ring_add(b, c, n), n)[i] by {
        lemma_add_mod_noop_right(c[i], a[i] + b[i], n);
        lemma_add_mod_noop_right(a[i], b[i] + c[i], n);
        assert(ring_add(a, b, n)[i] == (a[i] + b[i]) % n);
        assert(ring_add(b, c, n)[i] == (b[i] + c[i]) % n);
    }
    assert(ring_add(ring_add(a, b, n), c, n) =~= ring_add(a, ring_add(b, c, n), n));
}

/// Every element plus its negation is zero.
pub proof fn lemma_add_neg(a: Seq<int>, n: int)
    requires
        n > 0,
    ensures
        ring_add(a, ring_neg(a, n), n) == ring_zero(a.len()),
{
    assert forall|i: int| 0 <= i < a.len() implies #[trigger] ring_add(a, ring_neg(a, n), n)[i] == 0 by {
        lemma_add_mod_noop_right(a[i], -a[i], n);
        lemma_small_mod(0, n as nat);
        assert(ring_neg(a, n)[i] == (-a[i]) % n);
    }
    assert(ring_add(a, ring_neg(a, n), n) =~= ring_zero(a.len()));
}

/// The unit is neutral for multiplication, on reduced elements.
pub proof fn lemma_mul_one(a: Seq<int>, n: int)
    requires
        n > 0,
        reduced(a, n),
    ensures
        ring_mul(a, ring_one(a.len()), n) == a,
{
    assert forall|k: int| 0 <= k < a.len() implies #[trigger] ring_mul(a, ring_one(a.len()), n)[k] == a[k] by {
        lemma_one_lo(a, k, k + 1);
        lemma_one_hi(a, k, a.len() as int);
        lemma_small_mod(a[k] as nat, n as nat);
    }
    assert(ring_mul(a, ring_one(a.len()), n) =~= a);
}

/// Multiplication in `Z_n[x] / (x^D + 1)` is commutative.
pub proof fn lemma_mul_comm(a: Seq<int>, b: Seq<int>, n: int)
    requires
        a.len() == b.len(),
    ensures
        ring_mul(a, b, n) == ring_mul(b, a, n),
{
    assert forall|k: int| 0 <= k < a.len() implies #[trigger] ring_mul(a, b, n)[k] == ring_mul(b, a, n)[k] by {
        lemma_nega_coeff_comm(a, b, k);
    }
    assert(ring_mul(a, b, n) =~= ring_mul(b, a, n));
}

impl PartialEq for IntModCyclo {
    fn eq(&self, other: &IntModCyclo) -> (r: bool)
        ensures
            r == (self.n == other.n && self.coeff@ == other.coeff@),
    {
        if self.n != other.n || self.coeff.len() != other.coeff.len() {
            return false;
        }
        let mut i: usize = 0;
        while i < self.coeff.len()
            invariant
                self.coeff.len() == other.coeff.len(),
                i <= self.coeff.len(),
                forall|k: int| 0 <= k < i ==> self.coeff@[k] == other.coeff@[k],
            decreases self.coeff.len() - i,
        {
            if self.coeff[i] != other.coeff[i] {
                return false;
            }
            i += 1;
        }
        proof {
            assert(self.coeff@ =~= other.coeff@);
        }
        true
    }
}

impl vstd::std_specs::cmp::PartialEqSpecImpl for IntModCyclo {
    open spec fn obeys_eq_spec() -> bool {
        true
    }

    open spec fn eq_spec(&self, other: &IntModCyclo) -> bool {
        self.n == other.n && self.coeff@ == other.coeff@
    }
}

impl IntModCyclo {
    pub open spec fn view(&self) -> Seq<int> {
        ints(self.coeff@)
    }

    /// Modulus in `(1, 2^32)`, at least one coefficient, all reduced.
    pub open spec fn wf(&self) -> bool {
        &&& 1 < self.n <= u32::MAX
        &&& self.coeff.len() > 0
        &&& reduced(self.view(), self.n as int)
    }

    /// Two elements of one ring: same modulus, same degree.
    pub open spec fn same_ring(&self, o: &IntModCyclo) -> bool {
        self.n == o.n && self.coeff.len() == o.coeff.len()
    }

    /// The element whose coefficients are `coeff` reduced modulo `n`.
    pub fn from_coeffs(n: u64, coeff: &Vec<u64>) -> (r: IntModCyclo)
        requires
            1 < n <= u32::MAX,
            coeff.len() > 0,
        ensures
            r.wf(),
            r.n == n,
            r.view() == Seq::new(coeff.len() as nat, |i: int| (coeff@[i] as int) % (n as int)),
    {
        let mut out: Vec<u64> = Vec::new();
        let mut i: usize = 0;
        while i < coeff.len()
            invariant
                0 < n,
                i <= coeff.len(),
                out.len() == i,
                forall|k: int| 0 <= k < i ==> #[trigger] out@[k] == (coeff@[k] as int) % (n as int),
            decreases coeff.len() - i,
        {
            out.push(reduce(coeff[i], n));
            i += 1;
        }
        let r = IntModCyclo { n, coeff: out };
        proof {
            assert(r.view() =~= Seq::new(coeff.len() as nat, |i: int| (coeff@[i] as int) % (n as int)));
        }
        r
    }

    /// The zero element of degree `d`.
    pub fn zero(n: u64, d: usize) -> (r: IntModCyclo)
        requires
            1 < n <= u32::MAX,
            d > 0,
        ensures
            r.wf(),
            r.n == n,
            r.view() == ring_zero(d as nat),
    {
        let r = IntModCyclo { n, coeff: vec![0; d] };
        proof {
            assert(r.view() =~= ring_zero(d as nat));
        }
        r
    }

    /// The unit element of degree `d`.
    pub fn one(n: u64, d: usize) -> (r: IntModCyclo)
        requires
            1 < n <= u32::MAX,
            d > 0,
        ensures
            r.wf(),
            r.n == n,
            r.view() == ring_one(d as nat),
    {
        let mut coeff = vec![0; d];
        coeff.set(0, 1);
        let r = IntModCyclo { n, coeff };
        proof {
            assert(r.view() =~= ring_one(d as nat));
        }
        r
    }

    pub fn add(&self, other: &IntModCyclo) -> (r: IntModCyclo)
        requires
            self.wf(),
            other.wf(),
            self.same_ring(other),
        ensures
            r.wf(),
            r.same_ring(self),
            r.view() == ring_add(self.view(), other.view(), self.n as int),
    {
        let d = self.coeff.len();
        let mut out: Vec<u64> = Vec::with_capacity(d);
        let mut i: usize = 0;
        while i < d
            invariant
                self.wf(),
                other.wf(),
                self.same_ring(other),
                d == self.coeff.len(),
                i <= d,
                out.len() == i,
                forall|k: int| 0 <= k < i ==> #[trigger] out@[k] == (self.coeff@[k] + other.coeff@[k]) % (self.n as int),
            decreases d - i,
        {
            proof {
                assert(self.view()[i as int] == self.coeff@[i as int]);
                assert(other.view()[i as int] == other.coeff@[i as int]);
            }
            out.push(add_mod(self.coeff[i], other.coeff[i], self.n));
            i += 1;
        }
        let r = IntModCyclo { n: self.n, coeff: out };
        proof {
            assert(r.view() =~= ring_add(self.view(), other.view(), self.n as int));
        }
        r
    }

    pub fn sub(&self, other: &IntModCyclo) -> (r: IntModCyclo)
        requires
            self.wf(),
            other.wf(),
            self.same_ring(other),
        ensures
            r.wf(),
            r.same_ring(self),
            r.view() == ring_sub(self.view(), other.view(), self.n as int),
    {
        let d = self.coeff.len();
        let mut out: Vec<u64> = Vec::with_capacity(d);
        let mut i: usize = 0;
        while i < d
            invariant
                self.wf(),
                other.wf(),
                self.same_ring(other),
                d == self.coeff.len(),
                i <= d,
                out.len() == i,
                forall|k: int| 0 <= k < i ==> #[trigger] out@[k] == (self.coeff@[k] - other.coeff@[k]) % (self.n as int),
            decreases d - i,
        {
            proof {
                assert(self.view()[i as int] == self.coeff@[i as int]);
                assert(other.view()[i as int] == other.coeff@[i as int]);
            }
            out.push(sub_mod(self.coeff[i], other.coeff[i], self.n));
            i += 1;
        }
        let r = IntModCyclo { n: self.n, coeff: out };
        proof {
            assert(r.view() =~= ring_sub(self.view(), other.view(), self.n as int));
        }
        r
    }

    pub fn neg(&self) -> (r: IntModCyclo)
        requires
            self.wf(),
        ensures
            r.wf(),
            r.same_ring(self),
            r.view() == ring_neg(self.view(), self.n as int),
    {
        let d = self.coeff.len();
        let mut out: Vec<u64> = Vec::with_capacity(d);
        let mut i: usize = 0;
        while i < d
            invariant
                self.wf(),
                d == self.coeff.len(),
                i <= d,
                out.len() == i,
                forall|k: int| 0 <= k < i ==> #[trigger] out@[k] == (-self.coeff@[k]) % (self.n as int),
            decreases d - i,
        {
            proof {
                assert(self.view()[i as int] == self.coeff@[i as int]);
            }
            out.push(neg_mod(self.coeff[i], self.n));
            i += 1;
        }
        let r = IntModCyclo { n: self.n, coeff: out };
        proof {
            assert(r.view() =~= ring_neg(self.view(), self.n as int));
        }
        r
    }

    /// The negacyclic product `self·other`, by schoolbook convolution.
    pub fn mul(&self, other: &IntModCyclo) -> (r: IntModCyclo)
        requires
            self.wf(),
            other.wf(),
            self.same_ring(other),
        ensures
            r.wf(),
            r.same_ring(self),
            r.view() == ring_mul(self.view(), other.view(), self.n as int),
    {
        let d = self.coeff.len();
        let n = self.n;
        let ghost a = self.view();
        let ghost b = other.view();
        let mut out: Vec<u64> = Vec::with_capacity(d);
        let mut k: usize = 0;
        while k < d
            invariant
                self.wf(),
                other.wf(),
                self.same_ring(other),
                a == self.view(),
                b == other.view(),
                n == self.n,
                d == self.coeff.len(),
                k <= d,
                out.len() == k,
                forall|t: int| 0 <= t < k ==> #[trigger] out@[t] == nega_coeff(a, b, t) % (n as int),
            decreases d - k,
        {
            let mut acc: u64 = 0;
            let mut i: usize = 0;
            proof {
                lemma_small_mod(0, n as nat);
            }
            while i <= k
                invariant
                    self.wf(),
                    other.wf(),
                    self.same_ring(other),
                    a == self.view(),
                    b == other.view(),
                    n == self.n,
                    d == self.coeff.len(),
                    k < d,
                    i <= k + 1,
                    acc < n,
                    acc == nega_lo(a, b, k as int, i as int) % (n as int),
                decreases k + 1 - i,
            {
                let p = mul_mod(self.coeff[i], other.coeff[k - i], n);
                proof {
                    assert(a[i as int] == self.coeff@[i as int]);
                    assert(b[k - i] == other.coeff@[k - i]);
                    lemma_add_mod_noop(nega_lo(a, b, k as int, i as int), a[i as int] * b[k - i], n as int);
                    lemma_mod_twice(nega_lo(a, b, k as int, i as int), n as int);
                    lemma_mod_twice(a[i as int] * b[k - i], n as int);
                }
                acc = add_mod(acc, p, n);
                i += 1;
            }
            let mut j: usize = k + 1;
            proof {
                lemma_mod_twice(nega_lo(a, b, k as int, k + 1), n as int);
            }
            while j < d
                invariant
                    self.wf(),
                    other.wf(),
                    self.same_ring(other),
                    a == self.view(),
                    b == other.view(),
                    n == self.n,
                    d == self.coeff.len(),
                    k < d,
                    k + 1 <= j <= d,
                    acc < n,
                    acc == (nega_lo(a, b, k as int, k + 1) - nega_hi(a, b, k as int, j as int)) % (n as int),
                decreases d - j,
            {
                let p = mul_mod(self.coeff[j], other.coeff[k + (d - j)], n);
                proof {
                    assert(a[j as int] == self.coeff@[j as int]);
                    assert(b[k + d - j] == other.coeff@[k + d - j]);
                    let lo = nega_lo(a, b, k as int, k + 1);
                    let hi = nega_hi(a, b, k as int, j as int);
                    let t = a[j as int] * b[k + d - j];
                    assert(nega_hi(a, b, k as int, j + 1) == hi + t);
                    lemma_sub_mod_noop(lo - hi, t, n as int);
                    lemma_mod_twice(lo - hi, n as int);
                    lemma_mod_twice(t, n as int);
                }
                acc = sub_mod(acc, p, n);
                j += 1;
            }
            out.push(acc);
            k += 1;
        }
        let r = IntModCyclo { n, coeff: out };
        proof {
            assert(r.view() =~= ring_mul(a, b, n as int));
        }
        r
    }
}

} // verus!
