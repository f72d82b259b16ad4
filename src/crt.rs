//! Residues modulo two coprime moduli and reconstruction of the value modulo
//! their product.
use crate::modular::{has_inverse, inv_mod};
use vstd::arithmetic::div_mod::*;
use vstd::arithmetic::mul::*;
use vstd::prelude::*;

verus! {

/// Why a set of parameters cannot be used.
#[derive(Debug, Clone, Copy, PartialEq, Eq, Structural)]
pub enum ConfigError {
    /// A modulus is not in `(1, 2^32)`.
    ModulusOutOfRange,
    /// The two moduli share a factor.
    NotCoprime,
    /// The degree is not a power of two.
    DegreeNotPowerOfTwo,
    /// The root of unity does not satisfy `w^D = -1` or has no inverse.
    BadRootOfUnity,
    /// The gadget length does not cover the modulus.
    GadgetTooShort,
    /// The plaintext modulus exceeds the ciphertext modulus.
    PlaintextTooLarge,
    /// A matrix dimension does not accommodate the gadget.
    DimensionMismatch,
}

/// Two coprime moduli with each one's inverse modulo the other.
#[derive(Debug, Clone, Copy, PartialEq, Eq, Structural)]
pub struct CrtParams {
    pub n1: u64,
    pub n2: u64,
    /// `n1^-1 mod n2`.
    pub n1_inv: u64,
    /// `n2^-1 mod n1`.
    pub n2_inv: u64,
}

impl CrtParams {
    pub open spec fn wf(&self) -> bool {
        &&& 1 < self.n1 <= u32::MAX
        &&& 1 < self.n2 <= u32::MAX
        &&& self.n1_inv < self.n2
        &&& self.n2_inv < self.n1
        &&& (self.n1 * self.n1_inv) % (self.n2 as int) == 1
        &&& (self.n2 * self.n2_inv) % (self.n1 as int) == 1
    }

    /// The product modulus `Q = n1·n2`.
    pub open spec fn q(&self) -> int {
        self.n1 * self.n2
    }

    /// The parameters for `n1`, `n2`, or why there are none.
    pub fn new(n1: u64, n2: u64) -> (r: Result<CrtParams, ConfigError>)
        ensures
            r matches Ok(p) ==> p.wf() && p.n1 == n1 && p.n2 == n2,
            r is Err <==> !(1 < n1 <= u32::MAX && 1 < n2 <= u32::MAX) || !has_inverse((n1 as int) % (n2 as int), n2 as int)
                || !has_inverse((n2 as int) % (n1 as int), n1 as int),
            r == Err::<CrtParams, ConfigError>(ConfigError::ModulusOutOfRange) <==> !(1 < n1 <= u32::MAX && 1 < n2 <= u32::MAX),
    {
        if !(1 < n1 && n1 <= 0xffff_ffff && 1 < n2 && n2 <= 0xffff_ffff) {
            return Err(ConfigError::ModulusOutOfRange);
        }
        let a = inv_mod(n1 % n2, n2);
        let b = inv_mod(n2 % n1, n1);
        match (a, b) {
            (Some(n1_inv), Some(n2_inv)) => {
                proof {
                    lemma_mul_mod_noop_left(n1 as int, n1_inv as int, n2 as int);
                    lemma_mul_mod_noop_left(n2 as int, n2_inv as int, n1 as int);
                }
                Ok(CrtParams { n1, n2, n1_inv, n2_inv })
            },
            _ => Err(ConfigError::NotCoprime),
        }
    }
}

/// The value modulo `n1·n2` with residues `x1` and `x2`, by the explicit formula.
pub open spec fn crt_value(x1: int, x2: int, p: CrtParams) -> int {
    (x1 * p.n2 * p.n2_inv + x2 * p.n1 * p.n1_inv) % p.q()
}

proof fn lemma_crt_residue(x1: int, x2: int, m1: int, m2: int, m2_inv: int, m1_inv: int)
    requires
        m1 > 0,
        m2 > 0,
        (m2 * m2_inv) % m1 == 1,
    ensures
        ((x1 * m2 * m2_inv + x2 * m1 * m1_inv) % (m1 * m2)) % m1 == x1 % m1,
{
    let v = x1 * m2 * m2_inv + x2 * m1 * m1_inv;
    lemma_mul_strictly_positive(m1, m2);
    lemma_mod_mod(v, m1, m2);
    assert(v == m1 * (x2 * m1_inv) + x1 * (m2 * m2_inv)) by (nonlinear_arith)
        requires
            v == x1 * m2 * m2_inv + x2 * m1 * m1_inv,
    ;
    lemma_mod_multiples_vanish(x2 * m1_inv, x1 * (m2 * m2_inv), m1);
    lemma_mul_mod_noop_right(x1, m2 * m2_inv, m1);
}

/// The reconstructed value has residues `x1` and `x2` again (modulo each factor).
pub proof fn lemma_crt_residues(x1: int, x2: int, p: CrtParams)
    requires
        p.wf(),
    ensures
        crt_value(x1, x2, p) % (p.n1 as int) == x1 % (p.n1 as int),
        crt_value(x1, x2, p) % (p.n2 as int) == x2 % (p.n2 as int),
{
    let n1 = p.n1 as int;
    let n2 = p.n2 as int;
    lemma_crt_residue(x1, x2, n1, n2, p.n2_inv as int, p.n1_inv as int);
    assert(crt_value(x1, x2, p) == (x2 * n1 * p.n1_inv + x1 * n2 * p.n2_inv) % (n2 * n1)) by {
        lemma_mul_is_commutative(n1, n2);
    }
    lemma_crt_residue(x2, x1, n2, n1, p.n1_inv as int, p.n2_inv as int);
}

/// Reconstruction inverts reduction: for coprime `n1`, `n2` and every
/// `x` in `[0, n1·n2)`, the value with residues `x mod n1`, `x mod n2` is `x`.
pub proof fn lemma_crt_round_trip(x: int, p: CrtParams)
    requires
        p.wf(),
        0 <= x < p.q(),
    ensures
        crt_value(x % (p.n1 as int), x % (p.n2 as int), p) == x,
{
    let n1 = p.n1 as int;
    let n2 = p.n2 as int;
    let x1 = x % n1;
    let x2 = x % n2;
    let r = crt_value(x1, x2, p);
    lemma_mul_strictly_positive(n1, n2);
    lemma_crt_residue(x1, x2, n1, n2, p.n2_inv as int, p.n1_inv as int);
    lemma_mod_twice(x, n1);
    assert(r % n1 == x % n1);
    assert(r == (x2 * n1 * p.n1_inv + x1 * n2 * p.n2_inv) % (n2 * n1)) by {
        lemma_mul_is_commutative(n1, n2);
    }
    lemma_crt_residue(x2, x1, n2, n1, p.n1_inv as int, p.n2_inv as int);
    lemma_mod_twice(x, n2);
    assert(r % n2 == x % n2);
    lemma_mod_bound(x1 * n2 * p.n2_inv + x2 * n1 * p.n1_inv, n1 * n2);
    // r - x is a multiple of n1 and of n2, hence of n1·n2
    let t = (r - x) / n1;
    lemma_fundamental_div_mod(r - x, n1);
    lemma_sub_mod_noop(r, x, n1);
    lemma_small_mod(0, n1 as nat);
    assert((r - x) % n1 == 0) by {
        lemma_mod_self_0(n1);
        lemma_sub_mod_noop(r, x, n1);
        assert((r % n1 - x % n1) % n1 == 0);
    }
    assert(r - x == n1 * t);
    assert((r - x) % n2 == 0) by {
        lemma_sub_mod_noop(r, x, n2);
        lemma_small_mod(0, n2 as nat);
    }
    assert((n1 * t) % n2 == 0);
    // t ≡ t·n1·n1_inv ≡ 0 (mod n2)
    lemma_mul_mod_noop_left(n1 * t, p.n1_inv as int, n2);
    lemma_mul_mod_noop_right(t, n1 * p.n1_inv, n2);
    assert((n1 * t) * p.n1_inv == t * (n1 * p.n1_inv)) by (nonlinear_arith);
    assert(t % n2 == 0) by {
        lemma_mul_basics(p.n1_inv as int);
        lemma_small_mod(0, n2 as nat);
        assert(((n1 * t) % n2) * p.n1_inv == 0);
        assert((t * ((n1 * p.n1_inv) % n2)) % n2 == t % n2);
    }
    lemma_fundamental_div_mod(t, n2);
    let u = t / n2;
    assert(r - x == (n1 * n2) * u) by (nonlinear_arith)
        requires
            r - x == n1 * t,
            t == n2 * u + t % n2,
            t % n2 == 0,
    ;
    let q = n1 * n2;
    assert(0 <= r < q);
    assert(-q < r - x < q);
    if u > 0 {
        lemma_mul_inequality(1, u, q);
        lemma_mul_is_commutative(q, u);
        assert(q * u >= q);
    } else if u < 0 {
        lemma_mul_inequality(u, -1, q);
        lemma_mul_is_commutative(q, u);
        assert(q * u <= -q);
    }
    assert(u == 0);
    lemma_mul_basics(q);
    assert(r - x == 0);
}

/// The value modulo `n1·n2` whose residues are `x1` and `x2`.
pub fn crt_reconstruct(x1: u64, x2: u64, p: &CrtParams) -> (r: u64)
    requires
        p.wf(),
        x1 < p.n1,
        x2 < p.n2,
    ensures
        r == crt_value(x1 as int, x2 as int, *p),
        r < p.q(),
{
    proof {
        assert(x1 * p.n2 <= 0xffff_ffff_ffff_ffff) by (nonlinear_arith)
            requires
                x1 < p.n1 <= u32::MAX,
                p.n2 <= u32::MAX,
        ;
        assert(x2 * p.n1 <= 0xffff_ffff_ffff_ffff) by (nonlinear_arith)
            requires
                x2 < p.n2 <= u32::MAX,
                p.n1 <= u32::MAX,
        ;
        assert(x1 * p.n2 * p.n2_inv <= 0xffff_ffff_ffff_ffff_ffff_ffff) by (nonlinear_arith)
            requires
                x1 < p.n1 <= u32::MAX,
                p.n2 <= u32::MAX,
                p.n2_inv < p.n1,
        ;
        assert(x2 * p.n1 * p.n1_inv <= 0xffff_ffff_ffff_ffff_ffff_ffff) by (nonlinear_arith)
            requires
                x2 < p.n2 <= u32::MAX,
                p.n1 <= u32::MAX,
                p.n1_inv < p.n2,
        ;
        assert(p.n1 * p.n2 <= 0xffff_ffff_ffff_ffff) by (nonlinear_arith)
            requires
                p.n1 <= u32::MAX,
                p.n2 <= u32::MAX,
        ;
        lemma_mul_strictly_positive(p.n1 as int, p.n2 as int);
    }
    let q = p.n1 as u128 * p.n2 as u128;
    let v = x1 as u128 * p.n2 as u128 * p.n2_inv as u128 + x2 as u128 * p.n1 as u128 * p.n1_inv as u128;
    proof {
        lemma_mod_bound(v as int, q as int);
    }
    (v % q) as u64
}

} // verus!
