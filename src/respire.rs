//! The Regev and GSW homomorphic primitives over `Z_Q[x] / (x^D + 1)`:
//! encryption and decryption, gadget products, automorphisms with key
//! switching, and conversion of Regev ciphertexts into a GSW ciphertext.
use crate::crt::ConfigError;
use crate::crt::lemma_crt_round_trip;
use crate::crt_eval::{
    auto_index, coeffs_of, constant, digit_poly, evals_ok, lemma_represents, mod_all, pt_mul, q_coeffs_of, CycloParams, IntModCycloCRTEval,
};
use crate::ntt_laws::lemma_ntt_round_trip;
use crate::cyclo::{ints, ring_add, ring_zero, IntModCyclo};
use crate::modular::pow_mod;
use crate::ntt::ntt_spec;
use crate::params::{find_root, first_root, found_root, RespireParamsExpanded};
use crate::sample::DiscreteGaussian;
use rand_chacha::ChaCha20Rng;
use vstd::arithmetic::div_mod::*;
use vstd::arithmetic::mul::*;
use vstd::arithmetic::power::*;
use vstd::prelude::*;

verus! {

/// A Regev ciphertext `(a, b)`; under the secret `s` it decrypts to `a·s + b`.
#[derive(Debug, Clone)]
pub struct RegevCiphertext {
    pub a: IntModCycloCRTEval,
    pub b: IntModCycloCRTEval,
}

impl RegevCiphertext {
    pub open spec fn wf_for(&self, p: CycloParams) -> bool {
        &&& self.a.wf()
        &&& self.b.wf()
        &&& self.a.params == p
        &&& self.b.params == p
    }
}

/// `a·s + b`, first component.
pub open spec fn phase1(ct: RegevCiphertext, s: IntModCycloCRTEval) -> Seq<int> {
    ring_add(pt_mul(ct.a.v1(), s.v1(), s.params.n1()), ct.b.v1(), s.params.n1())
}

/// `a·s + b`, second component.
pub open spec fn phase2(ct: RegevCiphertext, s: IntModCycloCRTEval) -> Seq<int> {
    ring_add(pt_mul(ct.a.v2(), s.v2(), s.params.n2()), ct.b.v2(), s.params.n2())
}

/// `c` is a vector of `d` integers in `[-bound, bound]`.
pub open spec fn small(c: Seq<int>, d: int, bound: int) -> bool {
    c.len() == d && forall|i: int| 0 <= i < c.len() ==> -bound <= #[trigger] c[i] <= bound
}

/// The evaluation vectors of the element with integer coefficients `c`.
pub open spec fn evals1(c: Seq<int>, p: CycloParams) -> Seq<int> {
    ntt_spec(mod_all(c, p.n1()), p.w1 as int, p.n1())
}

pub open spec fn evals2(c: Seq<int>, p: CycloParams) -> Seq<int> {
    ntt_spec(mod_all(c, p.n2()), p.w2 as int, p.n2())
}

/// `s` is a key whose coefficients lie in `[-bound, bound]`.
pub open spec fn small_key(s: IntModCycloCRTEval, p: CycloParams, bound: int) -> bool {
    exists|c: Seq<int>| small(c, p.d as int, bound) && s.v1() == evals1(c, p) && s.v2() == evals2(c, p)
}

/// Decrypting `ct` under `s` gives `m` plus a noise term whose coefficients
/// lie in `[-bound, bound]`.
pub open spec fn encrypts(ct: RegevCiphertext, s: IntModCycloCRTEval, m1: Seq<int>, m2: Seq<int>, bound: int) -> bool {
    exists|c: Seq<int>|
        small(c, s.params.d as int, bound) && phase1(ct, s) == ring_add(m1, evals1(c, s.params), s.params.n1())
            && phase2(ct, s) == ring_add(m2, evals2(c, s.params), s.params.n2())
}

/// Every coefficient multiplied by `delta`.
pub open spec fn scaled(m: Seq<int>, delta: int) -> Seq<int> {
    Seq::new(m.len(), |i: int| m[i] * delta)
}

/// `Σ_{i < m} xs[i]·ys[i]` point by point modulo `n`.
pub open spec fn lin_comb(xs: Seq<Seq<int>>, ys: Seq<Seq<int>>, n: int, d: nat, m: int) -> Seq<int>
    decreases m,
{
    if m <= 0 {
        ring_zero(d)
    } else {
        ring_add(lin_comb(xs, ys, n, d, m - 1), pt_mul(xs[m - 1], ys[m - 1], n), n)
    }
}

/// The first-component evaluation vectors of `ds`.
pub open spec fn evals_of1(ds: Seq<IntModCycloCRTEval>) -> Seq<Seq<int>> {
    Seq::new(ds.len(), |i: int| ds[i].v1())
}

pub open spec fn evals_of2(ds: Seq<IntModCycloCRTEval>) -> Seq<Seq<int>> {
    Seq::new(ds.len(), |i: int| ds[i].v2())
}

/// The masks of `m` ciphertexts from `off` on, in component `first` or the second.
pub open spec fn masks(cts: Seq<RegevCiphertext>, off: int, m: int, first: bool) -> Seq<Seq<int>> {
    Seq::new(m as nat, |i: int| if first { cts[off + i].a.v1() } else { cts[off + i].a.v2() })
}

/// The bodies of `m` ciphertexts from `off` on.
pub open spec fn bodies(cts: Seq<RegevCiphertext>, off: int, m: int, first: bool) -> Seq<Seq<int>> {
    Seq::new(m as nat, |i: int| if first { cts[off + i].b.v1() } else { cts[off + i].b.v2() })
}

/// The evaluation vectors (component `first` or the second) of the first
/// `t` base-`z` digits of the element with evaluation vectors `v1`, `v2`.
pub open spec fn gadget_seq(v1: Seq<int>, v2: Seq<int>, p: CycloParams, z: int, t: int, first: bool) -> Seq<Seq<int>> {
    Seq::new(
        t as nat,
        |k: int|
            if first {
                ntt_spec(mod_all(digit_poly(crate::crt_eval::q_coeffs_of(v1, v2, p), z, k as nat), p.n1()), p.w1 as int, p.n1())
            } else {
                ntt_spec(mod_all(digit_poly(crate::crt_eval::q_coeffs_of(v1, v2, p), z, k as nat), p.n2()), p.w2 as int, p.n2())
            },
    )
}

/// Modulus of component `first` or the second.
pub open spec fn modulus(p: CycloParams, first: bool) -> int {
    if first {
        p.n1()
    } else {
        p.n2()
    }
}

/// The slots of `v` permuted by the automorphism `x ↦ x^k`.
pub open spec fn auto_view(v: Seq<int>, k: int, d: int) -> Seq<int> {
    Seq::new(d as nat, |j: int| v[auto_index(j, k, d)])
}

/// The evaluation vector of the constant `z^i mod Q`, modulo the factor `n`.
pub open spec fn gadget_const(z: int, i: int, q: int, n: int, d: nat) -> Seq<int> {
    constant(d, (pow(z, i as nat) % q) % n)
}

proof fn lemma_mod_add_left(x: int, y: int, n: int)
    requires
        n > 0,
    ensures
        (x % n + y) % n == (x + y) % n,
{
    lemma_add_mod_noop_right(y, x, n);
}

/// Adding `m` to the mask of an encryption of zero with noise `e` gives an
/// encryption of `m·s` with the same noise.
proof fn lemma_shift_mask(a0: int, m: int, s: int, b0: int, e: int, n: int)
    requires
        n > 0,
        0 <= e < n,
        ((a0 * s) % n + b0) % n == (0 + e) % n,
    ensures
        (((a0 + m) % n * s) % n + b0) % n == ((m * s) % n + e) % n,
{
    lemma_small_mod(e as nat, n as nat);
    lemma_mul_mod_noop_left(a0 + m, s, n);
    lemma_mod_add_left((a0 + m) % n * s, b0, n);
    lemma_mod_add_left((a0 + m) * s, b0, n);
    assert((a0 + m) * s == a0 * s + m * s) by (nonlinear_arith);
    lemma_mod_add_left(a0 * s, b0, n);
    lemma_mod_add_left(a0 * s + b0, m * s, n);
    assert((a0 * s + m * s + b0) % n == ((a0 * s + b0) % n + m * s) % n);
    lemma_mod_add_left(m * s, e, n);
    assert(((a0 * s) % n + b0) % n == (a0 * s + b0) % n);
}

/// The mask (`mask`) or body of `C·G^-1(0, scale)`: the digits of `scale`
/// against the last `t` columns of `c`.
pub open spec fn select(c: Seq<RegevCiphertext>, scale: IntModCycloCRTEval, z: int, t: int, mask: bool, first: bool) -> Seq<int> {
    let p = scale.params;
    lin_comb(
        gadget_seq(scale.v1(), scale.v2(), p, z, t, first),
        if mask { masks(c, t, t, first) } else { bodies(c, t, t, first) },
        modulus(p, first),
        p.d as nat,
        t,
    )
}

/// Key switching of the mask `v1`, `v2` against `keys`: mask part (`mask`)
/// or body part.
pub open spec fn switched(v1: Seq<int>, v2: Seq<int>, keys: Seq<RegevCiphertext>, p: CycloParams, z: int, mask: bool, first: bool) -> Seq<int> {
    let t = keys.len() as int;
    lin_comb(
        gadget_seq(v1, v2, p, z, t, first),
        if mask { masks(keys, 0, t, first) } else { bodies(keys, 0, t, first) },
        modulus(p, first),
        p.d as nat,
        t,
    )
}

/// `b` hides `m` under the mask `a` and the secret `s`: `a·s + b` is `m`
/// plus noise with coefficients in `[-bound, bound]`.
pub open spec fn hides(a: IntModCycloCRTEval, b: IntModCycloCRTEval, s: IntModCycloCRTEval, m1: Seq<int>, m2: Seq<int>, bound: int) -> bool {
    exists|c: Seq<int>|
        small(c, s.params.d as int, bound) && ring_add(pt_mul(a.v1(), s.v1(), s.params.n1()), b.v1(), s.params.n1()) == ring_add(
            m1,
            evals1(c, s.params),
            s.params.n1(),
        ) && ring_add(pt_mul(a.v2(), s.v2(), s.params.n2()), b.v2(), s.params.n2()) == ring_add(m2, evals2(c, s.params), s.params.n2())
}

/// The message that key entry `k` of scalar-to-vector packing carries in
/// slot `l`: `s_scal·z^(k mod t)` in slot `k / t`, zero elsewhere.
pub open spec fn pack_msg(s_scal: Seq<int>, k: int, l: int, t: int, z: int, q: int, n: int, d: nat) -> Seq<int> {
    if l == k / t {
        pt_mul(s_scal, gadget_const(z, k % t, q, n, d), n)
    } else {
        ring_zero(d)
    }
}

/// Rounding recovers the plaintext: a coefficient `m·floor(Q/P) + e`
/// (taken modulo `Q`) rounds to `m` whenever `2(|e|·P + P²) < Q`, the
/// noise margin under which decryption is correct.
pub proof fn lemma_round_recovers(m: int, e: int, q: int, p: int)
    requires
        p >= 2,
        0 <= m < p,
        2 * ((if e >= 0 { e } else { -e }) * p + p * p) < q,
    ensures
        ((((m * (q / p) + e) % q) * p + q / 2) / q) % p == m,
{
    let delta = q / p;
    let r = q % p;
    lemma_fundamental_div_mod(q, p);
    let x = m * delta + e;
    let k = x / q;
    let c = x % q;
    lemma_fundamental_div_mod(x, q);
    let ae = if e >= 0 { e } else { -e };
    let t = e * p - m * r + q / 2;
    // |e·p - m·r| <= |e|·p + p² < q/2, so 0 <= t < q
    assert(0 <= m * r <= p * p) by (nonlinear_arith)
        requires
            0 <= m < p,
            0 <= r < p,
    ;
    assert(-(ae * p) <= e * p <= ae * p) by (nonlinear_arith)
        requires
            ae == if e >= 0 { e } else { -e },
            p >= 2,
    ;
    assert(0 <= t < q);
    assert(c * p + q / 2 == (m - k * p) * q + t) by (nonlinear_arith)
        requires
            x == q * k + c,
            x == m * delta + e,
            q == p * delta + r,
            t == e * p - m * r + q / 2,
    ;
    lemma_fundamental_div_mod_converse_div(c * p + q / 2, q, m - k * p, t);
    lemma_mod_multiples_vanish(-k, m, p);
    assert(m - k * p == p * (-k) + m) by (nonlinear_arith);
    lemma_small_mod(m as nat, p as nat);
}

/// The coefficients of the element with integer coefficients `v`, moved to
/// evaluation form, are `v` reduced.
proof fn lemma_coeffs_of_evals(p: CycloParams, v: Seq<int>, first: bool)
    requires
        p.wf(),
        v.len() == p.d,
    ensures
        coeffs_of(p, if first { evals1(v, p) } else { evals2(v, p) }, first) == mod_all(v, if first { p.n1() } else { p.n2() }),
        evals_ok(p, if first { evals1(v, p) } else { evals2(v, p) }, first),
{
    let n = if first { p.n1() } else { p.n2() };
    let w = if first { p.w1 as int } else { p.w2 as int };
    let wi = if first { p.w1_inv as int } else { p.w2_inv as int };
    let di = if first { p.d1_inv as int } else { p.d2_inv as int };
    let m = mod_all(v, n);
    assert forall|k: int| 0 <= k < m.len() implies 0 <= #[trigger] m[k] < n by {
        lemma_mod_bound(v[k], n);
    }
    lemma_ntt_round_trip(m, w, wi, di, n);
    let ev = ntt_spec(m, w, n);
    assert forall|k: int| 0 <= k < ev.len() implies 0 <= #[trigger] ev[k] < n by {
        lemma_mod_bound(crate::ntt::eval_poly(m, crate::ntt::eval_point(w, k, n)), n);
    }
}

/// Decryption is correct under the noise margin: if the phase of a
/// ciphertext is `floor(Q/P)·μ + e` with `μ` in `[0, P)` and `e` small enough
/// that `2(bound·P + P²) < Q`, rounding the phase returns `μ` exactly.
pub proof fn lemma_decode_correct(p: CycloParams, ph1: Seq<int>, ph2: Seq<int>, mu: Seq<int>, c: Seq<int>, pm: int, bound: int)
    requires
        p.wf(),
        pm >= 2,
        mu.len() == p.d,
        forall|i: int| 0 <= i < mu.len() ==> 0 <= #[trigger] mu[i] < pm,
        small(c, p.d as int, bound),
        2 * (bound * pm + pm * pm) < p.crt.q(),
        ph1 == ring_add(evals1(scaled(mu, p.crt.q() / pm), p), evals1(c, p), p.n1()),
        ph2 == ring_add(evals2(scaled(mu, p.crt.q() / pm), p), evals2(c, p), p.n2()),
    ensures
        Seq::new(p.d as nat, |i: int| ((q_coeffs_of(ph1, ph2, p)[i] * pm + p.crt.q() / 2) / p.crt.q()) % pm) == mu,
{
    let q = p.crt.q();
    let sc = scaled(mu, q / pm);
    lemma_coeffs_of_evals(p, sc, true);
    lemma_coeffs_of_evals(p, sc, false);
    lemma_coeffs_of_evals(p, c, true);
    lemma_coeffs_of_evals(p, c, false);
    lemma_represents(p, evals1(sc, p), evals1(c, p), true, 0);
    lemma_represents(p, evals2(sc, p), evals2(c, p), false, 0);
    vstd::arithmetic::mul::lemma_mul_strictly_positive(p.n1(), p.n2());
    assert forall|i: int| 0 <= i < p.d implies #[trigger] ((q_coeffs_of(ph1, ph2, p)[i] * pm + q / 2) / q) % pm == mu[i] by {
        let x = sc[i] + c[i];
        let xq = x % q;
        lemma_mod_bound(x, q);
        lemma_add_mod_noop(sc[i], c[i], p.n1());
        lemma_add_mod_noop(sc[i], c[i], p.n2());
        lemma_mod_mod(x, p.n1(), p.n2());
        lemma_mod_mod(x, p.n2(), p.n1());
        vstd::arithmetic::mul::lemma_mul_is_commutative(p.n1(), p.n2());
        lemma_crt_round_trip(xq, p.crt);
        assert(q_coeffs_of(ph1, ph2, p)[i] == xq);
        let ae = if c[i] >= 0 { c[i] } else { -c[i] };
        assert(ae * pm <= bound * pm) by (nonlinear_arith)
            requires
                ae <= bound,
                pm >= 2,
        ;
        lemma_round_recovers(mu[i], c[i], q, pm);
    }
    assert(Seq::new(p.d as nat, |i: int| ((q_coeffs_of(ph1, ph2, p)[i] * pm + q / 2) / q) % pm) =~= mu);
}

proof fn lemma_add_sub_cancel(x: int, y: int, n: int)
    requires
        n > 0,
        0 <= y < n,
    ensures
        (x % n + (y - x % n) % n) % n == y,
{
    lemma_add_mod_noop_right(x % n, y - x % n, n);
    lemma_small_mod(y as nat, n as nat);
}

/// A GSW ciphertext: `2T` Regev columns, the first `T` encrypting `μ·z^i·s`,
/// the last `T` encrypting `μ·z^i`.
#[derive(Debug, Clone)]
pub struct GswCiphertext {
    pub cols: Vec<RegevCiphertext>,
}

/// Key-switching material for the automorphism `x ↦ x^k`: encryptions of
/// `τ_k(s)·z^i` for `i < t`.
#[derive(Debug, Clone)]
pub struct AutoKey {
    pub k: usize,
    pub z: u64,
    pub keys: Vec<RegevCiphertext>,
}

/// Every column of `cols` is well formed over `p`.
pub open spec fn cols_wf(cols: Seq<RegevCiphertext>, p: CycloParams) -> bool {
    forall|i: int| 0 <= i < cols.len() ==> (#[trigger] cols[i]).wf_for(p)
}

/// `Σ_i ds[i]·cts[off+i]`: the gadget product of the digits `ds` with `ds.len()`
/// consecutive ciphertexts.
pub fn combine(ds: &Vec<IntModCycloCRTEval>, cts: &Vec<RegevCiphertext>, off: usize, p: &CycloParams) -> (r: RegevCiphertext)
    requires
        p.wf(),
        off + ds.len() <= cts.len(),
        forall|i: int| 0 <= i < ds.len() ==> (#[trigger] ds@[i]).wf() && ds@[i].params == *p,
        cols_wf(cts@, *p),
    ensures
        r.wf_for(*p),
        r.a.v1() == lin_comb(evals_of1(ds@), masks(cts@, off as int, ds.len() as int, true), p.n1(), p.d as nat, ds.len() as int),
        r.a.v2() == lin_comb(evals_of2(ds@), masks(cts@, off as int, ds.len() as int, false), p.n2(), p.d as nat, ds.len() as int),
        r.b.v1() == lin_comb(evals_of1(ds@), bodies(cts@, off as int, ds.len() as int, true), p.n1(), p.d as nat, ds.len() as int),
        r.b.v2() == lin_comb(evals_of2(ds@), bodies(cts@, off as int, ds.len() as int, false), p.n2(), p.d as nat, ds.len() as int),
{
    let mut a = IntModCycloCRTEval::zero(p);
    let mut b = IntModCycloCRTEval::zero(p);
    let mut i: usize = 0;
    while i < ds.len()
        invariant
            p.wf(),
            off + ds.len() <= cts.len(),
            forall|t: int| 0 <= t < ds.len() ==> (#[trigger] ds@[t]).wf() && ds@[t].params == *p,
            cols_wf(cts@, *p),
            i <= ds.len(),
            a.wf(),
            b.wf(),
            a.params == *p,
            b.params == *p,
            a.v1() == lin_comb(evals_of1(ds@), masks(cts@, off as int, ds.len() as int, true), p.n1(), p.d as nat, i as int),
            a.v2() == lin_comb(evals_of2(ds@), masks(cts@, off as int, ds.len() as int, false), p.n2(), p.d as nat, i as int),
            b.v1() == lin_comb(evals_of1(ds@), bodies(cts@, off as int, ds.len() as int, true), p.n1(), p.d as nat, i as int),
            b.v2() == lin_comb(evals_of2(ds@), bodies(cts@, off as int, ds.len() as int, false), p.n2(), p.d as nat, i as int),
        decreases ds.len() - i,
    {
        proof {
            assert(cts@[off + i as int].wf_for(*p));
        }
        a.add_eq_mul(&ds[i], &cts[off + i].a);
        b.add_eq_mul(&ds[i], &cts[off + i].b);
        i += 1;
    }
    RegevCiphertext { a, b }
}

/// A vector Regev ciphertext: one mask `a` and one body per slot; under the
/// secret vector `s`, slot `l` decrypts to `a·s[l] + b[l]`.
#[derive(Debug, Clone)]
pub struct VecRegevCiphertext {
    pub a: IntModCycloCRTEval,
    pub b: Vec<IntModCycloCRTEval>,
}

/// Every element of `v` is well formed over `p`.
pub open spec fn elems_wf(v: Seq<IntModCycloCRTEval>, p: CycloParams) -> bool {
    forall|i: int| 0 <= i < v.len() ==> (#[trigger] v[i]).wf() && v[i].params == p
}

impl VecRegevCiphertext {
    pub open spec fn wf_for(&self, p: CycloParams, slots: int) -> bool {
        &&& self.a.wf()
        &&& self.a.params == p
        &&& self.b.len() == slots
        &&& elems_wf(self.b@, p)
    }
}

/// `a·s[l] + b[l]` in component `first` or the second.
pub open spec fn vphase(ct: VecRegevCiphertext, s: Seq<IntModCycloCRTEval>, l: int, first: bool) -> Seq<int> {
    let p = ct.a.params;
    if first {
        ring_add(pt_mul(ct.a.v1(), s[l].v1(), p.n1()), ct.b@[l].v1(), p.n1())
    } else {
        ring_add(pt_mul(ct.a.v2(), s[l].v2(), p.n2()), ct.b@[l].v2(), p.n2())
    }
}

/// The masks of `m` vector ciphertexts from `off` on.
pub open spec fn vmasks(cts: Seq<VecRegevCiphertext>, off: int, m: int, first: bool) -> Seq<Seq<int>> {
    Seq::new(m as nat, |i: int| if first { cts[off + i].a.v1() } else { cts[off + i].a.v2() })
}

/// Slot `l` of the bodies of `m` vector ciphertexts from `off` on.
pub open spec fn vbodies(cts: Seq<VecRegevCiphertext>, off: int, m: int, l: int, first: bool) -> Seq<Seq<int>> {
    Seq::new(m as nat, |i: int| if first { cts[off + i].b@[l].v1() } else { cts[off + i].b@[l].v2() })
}

/// The packing of the first `m` scalar ciphertexts `cs` with `key`: mask
/// part, `Σ_{i<m} Σ_j digit_j(a_i)·key[i·t + j].a`.
pub open spec fn packed_mask(cs: Seq<RegevCiphertext>, key: Seq<VecRegevCiphertext>, p: CycloParams, z: int, t: int, m: int, first: bool) -> Seq<int>
    decreases m,
{
    if m <= 0 {
        ring_zero(p.d as nat)
    } else {
        ring_add(
            packed_mask(cs, key, p, z, t, m - 1, first),
            lin_comb(gadget_seq(cs[m - 1].a.v1(), cs[m - 1].a.v2(), p, z, t, first), vmasks(key, (m - 1) * t, t, first), modulus(p, first), p.d as nat, t),
            modulus(p, first),
        )
    }
}

/// Slot `l` of the bodies of that packing, before `b_l` is added.
pub open spec fn packed_body(cs: Seq<RegevCiphertext>, key: Seq<VecRegevCiphertext>, p: CycloParams, z: int, t: int, m: int, l: int, first: bool) -> Seq<int>
    decreases m,
{
    if m <= 0 {
        ring_zero(p.d as nat)
    } else {
        ring_add(
            packed_body(cs, key, p, z, t, m - 1, l, first),
            lin_comb(gadget_seq(cs[m - 1].a.v1(), cs[m - 1].a.v2(), p, z, t, first), vbodies(key, (m - 1) * t, t, l, first), modulus(p, first), p.d as nat, t),
            modulus(p, first),
        )
    }
}

/// `Σ_i ds[i]·keys[off+i]` for vector ciphertexts with `slots` bodies.
pub fn vcombine(ds: &Vec<IntModCycloCRTEval>, keys: &Vec<VecRegevCiphertext>, off: usize, slots: usize, p: &CycloParams) -> (r: VecRegevCiphertext)
    requires
        p.wf(),
        off + ds.len() <= keys.len(),
        elems_wf(ds@, *p),
        forall|i: int| 0 <= i < keys.len() ==> (#[trigger] keys@[i]).wf_for(*p, slots as int),
    ensures
        r.wf_for(*p, slots as int),
        r.a.v1() == lin_comb(evals_of1(ds@), vmasks(keys@, off as int, ds.len() as int, true), p.n1(), p.d as nat, ds.len() as int),
        r.a.v2() == lin_comb(evals_of2(ds@), vmasks(keys@, off as int, ds.len() as int, false), p.n2(), p.d as nat, ds.len() as int),
        forall|l: int| 0 <= l < slots ==> (#[trigger] r.b@[l]).v1() == lin_comb(evals_of1(ds@), vbodies(keys@, off as int, ds.len() as int, l, true), p.n1(), p.d as nat, ds.len() as int),
        forall|l: int| 0 <= l < slots ==> (#[trigger] r.b@[l]).v2() == lin_comb(evals_of2(ds@), vbodies(keys@, off as int, ds.len() as int, l, false), p.n2(), p.d as nat, ds.len() as int),
{
    let mut a = IntModCycloCRTEval::zero(p);
    let mut i: usize = 0;
    while i < ds.len()
        invariant
            p.wf(),
            off + ds.len() <= keys.len(),
            elems_wf(ds@, *p),
            forall|t: int| 0 <= t < keys.len() ==> (#[trigger] keys@[t]).wf_for(*p, slots as int),
            i <= ds.len(),
            a.wf(),
            a.params == *p,
            a.v1() == lin_comb(evals_of1(ds@), vmasks(keys@, off as int, ds.len() as int, true), p.n1(), p.d as nat, i as int),
            a.v2() == lin_comb(evals_of2(ds@), vmasks(keys@, off as int, ds.len() as int, false), p.n2(), p.d as nat, i as int),
        decreases ds.len() - i,
    {
        proof {
            assert(keys@[off + i as int].wf_for(*p, slots as int));
            assert(ds@[i as int].wf());
        }
        a.add_eq_mul(&ds[i], &keys[off + i].a);
        i += 1;
    }
    let mut b: Vec<IntModCycloCRTEval> = Vec::with_capacity(slots);
    let mut l: usize = 0;
    while l < slots
        invariant
            p.wf(),
            off + ds.len() <= keys.len(),
            elems_wf(ds@, *p),
            forall|t: int| 0 <= t < keys.len() ==> (#[trigger] keys@[t]).wf_for(*p, slots as int),
            l <= slots,
            b.len() == l,
            elems_wf(b@, *p),
            forall|u: int| 0 <= u < l ==> (#[trigger] b@[u]).v1() == lin_comb(evals_of1(ds@), vbodies(keys@, off as int, ds.len() as int, u, true), p.n1(), p.d as nat, ds.len() as int),
            forall|u: int| 0 <= u < l ==> (#[trigger] b@[u]).v2() == lin_comb(evals_of2(ds@), vbodies(keys@, off as int, ds.len() as int, u, false), p.n2(), p.d as nat, ds.len() as int),
        decreases slots - l,
    {
        let mut acc = IntModCycloCRTEval::zero(p);
        let mut i: usize = 0;
        while i < ds.len()
            invariant
                p.wf(),
                off + ds.len() <= keys.len(),
                elems_wf(ds@, *p),
                forall|t: int| 0 <= t < keys.len() ==> (#[trigger] keys@[t]).wf_for(*p, slots as int),
                l < slots,
                i <= ds.len(),
                acc.wf(),
                acc.params == *p,
                acc.v1() == lin_comb(evals_of1(ds@), vbodies(keys@, off as int, ds.len() as int, l as int, true), p.n1(), p.d as nat, i as int),
                acc.v2() == lin_comb(evals_of2(ds@), vbodies(keys@, off as int, ds.len() as int, l as int, false), p.n2(), p.d as nat, i as int),
            decreases ds.len() - i,
        {
            proof {
                assert(keys@[off + i as int].wf_for(*p, slots as int));
                assert(keys@[off + i as int].b@[l as int].wf());
                assert(ds@[i as int].wf());
            }
            acc.add_eq_mul(&ds[i], &keys[off + i].b[l]);
            i += 1;
        }
        b.push(acc);
        l += 1;
    }
    VecRegevCiphertext { a, b }
}

/// The scheme over one parameter set: the ring, and the error distribution.
#[derive(Debug, Clone)]
pub struct Respire {
    pub params: RespireParamsExpanded,
    pub ring: CycloParams,
    pub error: DiscreteGaussian,
}

impl Respire {
    pub open spec fn wf(&self) -> bool {
        &&& self.ring.wf()
        &&& self.error.wf()
        &&& self.ring.crt.n1 == self.params.base.Q_A
        &&& self.ring.crt.n2 == self.params.base.Q_B
        &&& self.ring.d == self.params.base.D
        &&& self.params.Q == self.ring.crt.q()
        &&& self.params.Z_GSW >= 2
        &&& self.params.Z_REGEV_TO_GSW >= 2
        &&& self.params.Z_AUTO_REGEV >= 2
        &&& self.params.Z_SCAL_TO_VEC >= 2
    }

    /// The scheme for expanded parameters: finds a root of unity for each
    /// CRT modulus and builds the ring.
    pub fn new(params: &RespireParamsExpanded, error: DiscreteGaussian) -> (r: Result<Respire, ConfigError>)
        requires
            error.wf(),
            params.Q == params.base.Q_A * params.base.Q_B,
            params.Z_GSW >= 2,
            params.Z_REGEV_TO_GSW >= 2,
            params.Z_AUTO_REGEV >= 2,
            params.Z_SCAL_TO_VEC >= 2,
        ensures
            r is Ok <==> ({
                let b = params.base;
                &&& 1 <= b.D <= 0x10_0000
                &&& b.Q_A >= 2
                &&& b.Q_B >= 2
                &&& first_root(b.D as int, b.Q_A as int) is Some
                &&& first_root(b.D as int, b.Q_B as int) is Some
                &&& CycloParams::acceptable(
                    b.D as int,
                    b.Q_A as int,
                    b.Q_B as int,
                    found_root(b.D as int, b.Q_A as int),
                    found_root(b.D as int, b.Q_B as int),
                )
            }),
            r matches Ok(s) ==> {
                &&& s.wf()
                &&& s.params == *params
                &&& s.error == error
                &&& s.ring.d == params.base.D
                &&& s.ring.crt.n1 == params.base.Q_A
                &&& s.ring.crt.n2 == params.base.Q_B
                &&& s.ring.w1 == found_root(params.base.D as int, params.base.Q_A as int)
                &&& s.ring.w2 == found_root(params.base.D as int, params.base.Q_B as int)
            },
    {
        let d = params.base.D;
        if d < 1 || d > 0x10_0000 || params.base.Q_A < 2 || params.base.Q_B < 2 {
            return Err(ConfigError::DegreeNotPowerOfTwo);
        }
        let w1 = match find_root(d as u64, params.base.Q_A) {
            Some(w) => w,
            None => {
                return Err(ConfigError::BadRootOfUnity);
            },
        };
        let w2 = match find_root(d as u64, params.base.Q_B) {
            Some(w) => w,
            None => {
                return Err(ConfigError::BadRootOfUnity);
            },
        };
        let ring = match CycloParams::new(d, params.base.Q_A, params.base.Q_B, w1, w2) {
            Ok(r) => r,
            Err(e) => {
                return Err(e);
            },
        };
        Ok(Respire { params: *params, ring, error })
    }

    /// Whether the error distribution stays within the decryption margin of
    /// `lemma_decode_correct` for plaintext modulus `P`: `2(bound·P + P²) < Q`.
    /// When it does not, a decode may silently return a wrong plaintext.
    pub fn margin_ok(&self) -> (r: bool)
        requires
            self.wf(),
        ensures
            r == (2 * (self.error.bound * self.params.base.P + self.params.base.P * self.params.base.P) < self.params.Q),
    {
        let b = self.error.bound as u128;
        let pm = self.params.base.P as u128;
        let q = self.params.Q as u128;
        proof {
            lemma_mul_strictly_positive(self.ring.crt.n1 as int, self.ring.crt.n2 as int);
            assert(self.params.Q <= 0xffff_ffff_ffff_ffff);
        }
        if pm > 0xffff_ffff {
            // P^2 >= 2^64 > Q
            proof {
                assert(pm * pm >= 0x1_0000_0000 * 0x1_0000_0000) by (nonlinear_arith)
                    requires
                        pm > 0xffff_ffff,
                ;
                assert(b * pm >= 0) by (nonlinear_arith)
                    requires
                        b >= 0,
                        pm >= 0,
                ;
            }
            return false;
        }
        proof {
            assert(b * pm <= 0x1000_0000 * 0xffff_ffff) by (nonlinear_arith)
                requires
                    b < 0x1000_0000,
                    pm <= 0xffff_ffff,
            ;
            assert(pm * pm <= 0xffff_ffff * 0xffff_ffff) by (nonlinear_arith)
                requires
                    pm <= 0xffff_ffff,
            ;
        }
        let x = b * pm + pm * pm;
        x <= (q - 1) / 2
    }

    /// A fresh secret key, with coefficients drawn from the error distribution.
    pub fn encode_setup(&self, rng: &mut ChaCha20Rng) -> (s: IntModCycloCRTEval)
        requires
            self.wf(),
        ensures
            s.wf(),
            s.params == self.ring,
            small_key(s, self.ring, self.error.bound as int),
    {
        let s = IntModCycloCRTEval::rand_discrete_gaussian(&self.ring, rng, &self.error);
        proof {
            let n1 = self.ring.n1();
            let n2 = self.ring.n2();
            let c = choose|c: Seq<int>|
                c.len() == self.ring.d && (forall|i: int| 0 <= i < c.len() ==> -(self.error.bound as int) <= #[trigger] c[i] <= self.error.bound)
                    && s.v1() == ntt_spec(mod_all(c, n1), self.ring.w1 as int, n1)
                    && s.v2() == ntt_spec(mod_all(c, n2), self.ring.w2 as int, n2);
            assert(small(c, self.ring.d as int, self.error.bound as int) && s.v1() == evals1(c, self.ring) && s.v2()
                == evals2(c, self.ring));
            assert(small_key(s, self.ring, self.error.bound as int));
        }
        s
    }

    /// Encrypts `mu` (already scaled) under `s`: `a` uniform, `b = mu + e - a·s`.
    pub fn encode_regev(&self, rng: &mut ChaCha20Rng, s: &IntModCycloCRTEval, mu: &IntModCycloCRTEval) -> (ct: RegevCiphertext)
        requires
            self.wf(),
            s.wf(),
            mu.wf(),
            s.params == self.ring,
            mu.params == self.ring,
        ensures
            ct.wf_for(self.ring),
            encrypts(ct, *s, mu.v1(), mu.v2(), self.error.bound as int),
    {
        let a = IntModCycloCRTEval::rand_uniform(&self.ring, rng);
        let e = IntModCycloCRTEval::rand_discrete_gaussian(&self.ring, rng, &self.error);
        let as_ = a.mul(s);
        let me = mu.add(&e);
        let b = me.sub(&as_);
        let ct = RegevCiphertext { a, b };
        proof {
            let n1 = self.ring.n1();
            let n2 = self.ring.n2();
            let c = choose|c: Seq<int>|
                c.len() == self.ring.d && (forall|i: int| 0 <= i < c.len() ==> -(self.error.bound as int) <= #[trigger] c[i] <= self.error.bound)
                    && e.v1() == ntt_spec(mod_all(c, n1), self.ring.w1 as int, n1)
                    && e.v2() == ntt_spec(mod_all(c, n2), self.ring.w2 as int, n2);
            assert(small(c, self.ring.d as int, self.error.bound as int));
            assert forall|i: int| 0 <= i < self.ring.d implies #[trigger] phase1(ct, *s)[i] == ring_add(mu.v1(), e.v1(), n1)[i] by {
                lemma_add_sub_cancel(a.v1()[i] * s.v1()[i], me.v1()[i], n1);
            }
            assert forall|i: int| 0 <= i < self.ring.d implies #[trigger] phase2(ct, *s)[i] == ring_add(mu.v2(), e.v2(), n2)[i] by {
                lemma_add_sub_cancel(a.v2()[i] * s.v2()[i], me.v2()[i], n2);
            }
            assert(phase1(ct, *s) =~= ring_add(mu.v1(), evals1(c, self.ring), n1));
            assert(phase2(ct, *s) =~= ring_add(mu.v2(), evals2(c, self.ring), n2));
        }
        ct
    }

    /// Decrypts without rounding: `a·s + b`.
    pub fn decode_regev(&self, s: &IntModCycloCRTEval, ct: &RegevCiphertext) -> (r: IntModCycloCRTEval)
        requires
            s.wf(),
            ct.wf_for(s.params),
        ensures
            r.wf(),
            r.params == s.params,
            r.v1() == phase1(*ct, *s),
            r.v2() == phase2(*ct, *s),
    {
        let as_ = ct.a.mul(s);
        as_.add(&ct.b)
    }

    /// The element with coefficients `mu[i] · floor(Q / p)`, `p` the plaintext
    /// modulus of `mu`.
    pub fn scale_up(&self, mu: &IntModCyclo) -> (r: IntModCycloCRTEval)
        requires
            self.wf(),
            mu.wf(),
            mu.coeff.len() == self.ring.d,
            mu.n <= self.params.Q,
        ensures
            r.wf(),
            r.params == self.ring,
            r.v1() == evals1(scaled(mu.view(), (self.params.Q / mu.n) as int), self.ring),
            r.v2() == evals2(scaled(mu.view(), (self.params.Q / mu.n) as int), self.ring),
    {
        let delta = self.params.Q / mu.n;
        let d = self.ring.d;
        let mut c: Vec<u64> = Vec::with_capacity(d);
        let mut i: usize = 0;
        while i < d
            invariant
                self.wf(),
                mu.wf(),
                mu.coeff.len() == d,
                d == self.ring.d,
                mu.n <= self.params.Q,
                delta == self.params.Q / mu.n,
                i <= d,
                c.len() == i,
                forall|k: int| 0 <= k < i ==> #[trigger] c@[k] == mu.view()[k] * delta,
            decreases d - i,
        {
            let m = mu.coeff[i];
            proof {
                assert(mu.view()[i as int] == m);
                lemma_fundamental_div_mod(self.params.Q as int, mu.n as int);
                assert(m * delta <= self.params.Q) by (nonlinear_arith)
                    requires
                        m < mu.n,
                        delta == self.params.Q / mu.n,
                        self.params.Q == mu.n * delta + self.params.Q % mu.n,
                        self.params.Q % mu.n >= 0,
                        delta >= 0,
                ;
            }
            c.push(m * delta);
            i += 1;
        }
        let r = IntModCycloCRTEval::from_q_coeffs(&self.ring, &c);
        proof {
            assert(ints(c@) =~= scaled(mu.view(), (self.params.Q / mu.n) as int));
        }
        r
    }
    /// The element whose coefficients modulo `Q` are those of `mu`, unscaled.
    pub fn embed(&self, mu: &IntModCyclo) -> (r: IntModCycloCRTEval)
        requires
            self.wf(),
            mu.wf(),
            mu.coeff.len() == self.ring.d,
        ensures
            r.wf(),
            r.params == self.ring,
            r.v1() == evals1(mu.view(), self.ring),
            r.v2() == evals2(mu.view(), self.ring),
    {
        IntModCycloCRTEval::from_q_coeffs(&self.ring, &mu.coeff)
    }

    /// Rounds each coefficient `c` modulo `Q` to the nearest multiple of
    /// `Q / p`: the plaintext `round(c·p / Q) mod p`.
    pub fn round_down(&self, x: &IntModCycloCRTEval, p: u64) -> (r: IntModCyclo)
        requires
            self.wf(),
            x.wf(),
            x.params == self.ring,
            1 < p <= u32::MAX,
        ensures
            r.wf(),
            r.n == p,
            r.view() == Seq::new(
                self.ring.d as nat,
                |i: int| ((x.q_coeffs()[i] * p + self.params.Q / 2) / (self.params.Q as int)) % (p as int),
            ),
    {
        let c = x.to_q_coeffs();
        let q = self.params.Q;
        let d = self.ring.d;
        let mut out: Vec<u64> = Vec::with_capacity(d);
        let mut i: usize = 0;
        proof {
            lemma_mul_strictly_positive(self.ring.crt.n1 as int, self.ring.crt.n2 as int);
        }
        while i < d
            invariant
                self.wf(),
                x.wf(),
                x.params == self.ring,
                1 < p <= u32::MAX,
                q == self.params.Q,
                q > 0,
                d == self.ring.d,
                c.len() == d,
                ints(c@) == x.q_coeffs(),
                forall|k: int| 0 <= k < d ==> #[trigger] c@[k] < q,
                i <= d,
                out.len() == i,
                forall|k: int| 0 <= k < i ==> #[trigger] out@[k] == ((x.q_coeffs()[k] * p + q / 2) / (q as int)) % (p as int),
                forall|k: int| 0 <= k < i ==> #[trigger] out@[k] < p,
            decreases d - i,
        {
            proof {
                assert(c@[i as int] * p <= u64::MAX as int * u32::MAX as int) by (nonlinear_arith)
                    requires
                        c@[i as int] <= u64::MAX,
                        p <= u32::MAX,
                ;
                assert(ints(c@)[i as int] == c@[i as int]);
            }
            let num = c[i] as u128 * p as u128 + (q / 2) as u128;
            let v = ((num / q as u128) % p as u128) as u64;
            proof {
                lemma_mod_bound((num / q as u128) as int, p as int);
            }
            out.push(v);
            i += 1;
        }
        let r = IntModCyclo { n: p, coeff: out };
        proof {
            assert(r.view() =~= Seq::new(
                self.ring.d as nat,
                |i: int| ((x.q_coeffs()[i] * p + self.params.Q / 2) / (self.params.Q as int)) % (p as int),
            ));
        }
        r
    }

    /// The constant `z^i mod Q`.
    pub fn gadget_constant(&self, z: u64, i: usize) -> (r: IntModCycloCRTEval)
        requires
            self.wf(),
        ensures
            r.wf(),
            r.params == self.ring,
            r.v1() == gadget_const(z as int, i as int, self.params.Q as int, self.ring.n1(), self.ring.d as nat),
            r.v2() == gadget_const(z as int, i as int, self.params.Q as int, self.ring.n2(), self.ring.d as nat),
    {
        proof {
            lemma_mul_strictly_positive(self.ring.crt.n1 as int, self.ring.crt.n2 as int);
        }
        let c = pow_mod(z, i as u64, self.params.Q);
        IntModCycloCRTEval::from_u64(&self.ring, c)
    }

    /// Encrypts `mu` as a GSW ciphertext with gadget base `Z_GSW` and
    /// `T_GSW` digits.
    pub fn encode_gsw(&self, rng: &mut ChaCha20Rng, s: &IntModCycloCRTEval, mu: &IntModCycloCRTEval) -> (c: GswCiphertext)
        requires
            self.wf(),
            s.wf(),
            mu.wf(),
            s.params == self.ring,
            mu.params == self.ring,
        ensures
            c.cols.len() == 2 * self.params.base.T_GSW,
            cols_wf(c.cols@, self.ring),
            forall|i: int| 0 <= i < self.params.base.T_GSW ==> {
                let m1 = pt_mul(mu.v1(), gadget_const(self.params.Z_GSW as int, i, self.params.Q as int, self.ring.n1(), self.ring.d as nat), self.ring.n1());
                let m2 = pt_mul(mu.v2(), gadget_const(self.params.Z_GSW as int, i, self.params.Q as int, self.ring.n2(), self.ring.d as nat), self.ring.n2());
                &&& encrypts(#[trigger] c.cols@[i], *s, pt_mul(m1, s.v1(), self.ring.n1()), pt_mul(m2, s.v2(), self.ring.n2()), self.error.bound as int)
                &&& encrypts(c.cols@[i + self.params.base.T_GSW], *s, m1, m2, self.error.bound as int)
            },
    {
        let t = self.params.base.T_GSW;
        let z = self.params.Z_GSW;
        let mut top: Vec<RegevCiphertext> = Vec::with_capacity(t);
        let mut bottom: Vec<RegevCiphertext> = Vec::with_capacity(t);
        let mut i: usize = 0;
        while i < t
            invariant
                self.wf(),
                s.wf(),
                mu.wf(),
                s.params == self.ring,
                mu.params == self.ring,
                t == self.params.base.T_GSW,
                z == self.params.Z_GSW,
                i <= t,
                top.len() == i,
                bottom.len() == i,
                cols_wf(top@, self.ring),
                cols_wf(bottom@, self.ring),
                forall|k: int| 0 <= k < i ==> {
                    let m1 = pt_mul(mu.v1(), gadget_const(z as int, k, self.params.Q as int, self.ring.n1(), self.ring.d as nat), self.ring.n1());
                    let m2 = pt_mul(mu.v2(), gadget_const(z as int, k, self.params.Q as int, self.ring.n2(), self.ring.d as nat), self.ring.n2());
                    &&& encrypts(#[trigger] top@[k], *s, pt_mul(m1, s.v1(), self.ring.n1()), pt_mul(m2, s.v2(), self.ring.n2()), self.error.bound as int)
                    &&& encrypts(bottom@[k], *s, m1, m2, self.error.bound as int)
                },
            decreases t - i,
        {
            let g = self.gadget_constant(z, i);
            let m = mu.mul(&g);
            let zero = IntModCycloCRTEval::zero(&self.ring);
            let ct0 = self.encode_regev(rng, s, &zero);
            let a = ct0.a.add(&m);
            let top_ct = RegevCiphertext { a, b: ct0.b };
            proof {
                let n1 = self.ring.n1();
                let n2 = self.ring.n2();
                let bound = self.error.bound as int;
                let c = choose|c: Seq<int>|
                    small(c, s.params.d as int, bound) && phase1(ct0, *s) == ring_add(zero.v1(), evals1(c, s.params), n1)
                        && phase2(ct0, *s) == ring_add(zero.v2(), evals2(c, s.params), n2);
                assert forall|j: int| 0 <= j < self.ring.d implies #[trigger] phase1(top_ct, *s)[j] == ring_add(pt_mul(m.v1(), s.v1(), n1), evals1(c, s.params), n1)[j] by {
                    assert(phase1(ct0, *s)[j] == ring_add(zero.v1(), evals1(c, s.params), n1)[j]);
                    lemma_mod_bound(mod_all(c, n1)[0], n1);
                    lemma_mod_bound(crate::ntt::eval_poly(mod_all(c, n1), crate::ntt::eval_point(self.ring.w1 as int, j, n1)), n1);
                    lemma_shift_mask(ct0.a.v1()[j], m.v1()[j], s.v1()[j], ct0.b.v1()[j], evals1(c, s.params)[j], n1);
                }
                assert forall|j: int| 0 <= j < self.ring.d implies #[trigger] phase2(top_ct, *s)[j] == ring_add(pt_mul(m.v2(), s.v2(), n2), evals2(c, s.params), n2)[j] by {
                    assert(phase2(ct0, *s)[j] == ring_add(zero.v2(), evals2(c, s.params), n2)[j]);
                    lemma_mod_bound(crate::ntt::eval_poly(mod_all(c, n2), crate::ntt::eval_point(self.ring.w2 as int, j, n2)), n2);
                    lemma_shift_mask(ct0.a.v2()[j], m.v2()[j], s.v2()[j], ct0.b.v2()[j], evals2(c, s.params)[j], n2);
                }
                assert(phase1(top_ct, *s) =~= ring_add(pt_mul(m.v1(), s.v1(), n1), evals1(c, s.params), n1));
                assert(phase2(top_ct, *s) =~= ring_add(pt_mul(m.v2(), s.v2(), n2), evals2(c, s.params), n2));
                assert(encrypts(top_ct, *s, pt_mul(m.v1(), s.v1(), n1), pt_mul(m.v2(), s.v2(), n2), bound));
            }
            top.push(top_ct);
            bottom.push(self.encode_regev(rng, s, &m));
            i += 1;
        }
        let ghost top0 = top@;
        let ghost bottom0 = bottom@;
        top.append(&mut bottom);
        proof {
            assert(top@ =~= top0 + bottom0);
            assert forall|k: int| 0 <= k < top@.len() implies (#[trigger] top@[k]).wf_for(self.ring) by {
                if k < t {
                    assert(top@[k] == top0[k]);
                } else {
                    assert(top@[k] == bottom0[k - t]);
                }
            }
            assert forall|k: int| 0 <= k < t implies {
                let m1 = pt_mul(mu.v1(), gadget_const(z as int, k, self.params.Q as int, self.ring.n1(), self.ring.d as nat), self.ring.n1());
                let m2 = pt_mul(mu.v2(), gadget_const(z as int, k, self.params.Q as int, self.ring.n2(), self.ring.d as nat), self.ring.n2());
                &&& encrypts(#[trigger] top@[k], *s, pt_mul(m1, s.v1(), self.ring.n1()), pt_mul(m2, s.v2(), self.ring.n2()), self.error.bound as int)
                &&& encrypts(top@[k + t], *s, m1, m2, self.error.bound as int)
            } by {
                assert(top@[k] == top0[k]);
                assert(top@[k + t] == bottom0[k]);
                assert(encrypts(top0[k], *s, pt_mul(pt_mul(mu.v1(), gadget_const(z as int, k, self.params.Q as int, self.ring.n1(), self.ring.d as nat), self.ring.n1()), s.v1(), self.ring.n1()), pt_mul(pt_mul(mu.v2(), gadget_const(z as int, k, self.params.Q as int, self.ring.n2(), self.ring.d as nat), self.ring.n2()), s.v2(), self.ring.n2()), self.error.bound as int));
            }
        }
        GswCiphertext { cols: top }
    }
    /// `C·G^-1(0, scale)`: the gadget product of the digits of `scale` (base
    /// `Z_GSW`) with the last `T_GSW` columns of `c`, an encryption of
    /// `μ·scale` when `c` encrypts `μ`.
    pub fn gsw_select(&self, c: &GswCiphertext, scale: &IntModCycloCRTEval) -> (r: RegevCiphertext)
        requires
            self.wf(),
            scale.wf(),
            scale.params == self.ring,
            c.cols.len() == 2 * self.params.base.T_GSW,
            cols_wf(c.cols@, self.ring),
        ensures
            r.wf_for(self.ring),
            r.a.v1() == select(c.cols@, *scale, self.params.Z_GSW as int, self.params.base.T_GSW as int, true, true),
            r.a.v2() == select(c.cols@, *scale, self.params.Z_GSW as int, self.params.base.T_GSW as int, true, false),
            r.b.v1() == select(c.cols@, *scale, self.params.Z_GSW as int, self.params.base.T_GSW as int, false, true),
            r.b.v2() == select(c.cols@, *scale, self.params.Z_GSW as int, self.params.base.T_GSW as int, false, false),
    {
        let t = self.params.base.T_GSW;
        let z = self.params.Z_GSW;
        let digits = scale.decompose(z, t);
        let r = combine(&digits, &c.cols, t, &self.ring);
        proof {
            let p = self.ring;
            assert(evals_of1(digits@) =~= gadget_seq(scale.v1(), scale.v2(), p, z as int, t as int, true));
            assert(evals_of2(digits@) =~= gadget_seq(scale.v1(), scale.v2(), p, z as int, t as int, false));
        }
        r
    }

    /// Decrypts `C·G^-1(0, scale)` without rounding: `μ·scale` plus noise
    /// when `c` encrypts `μ`.
    pub fn decode_gsw_scaled(&self, s: &IntModCycloCRTEval, c: &GswCiphertext, scale: &IntModCycloCRTEval) -> (r: IntModCycloCRTEval)
        requires
            self.wf(),
            s.wf(),
            s.params == self.ring,
            scale.wf(),
            scale.params == self.ring,
            c.cols.len() == 2 * self.params.base.T_GSW,
            cols_wf(c.cols@, self.ring),
        ensures
            r.wf(),
            r.params == self.ring,
            r.v1() == ring_add(
                pt_mul(select(c.cols@, *scale, self.params.Z_GSW as int, self.params.base.T_GSW as int, true, true), s.v1(), self.ring.n1()),
                select(c.cols@, *scale, self.params.Z_GSW as int, self.params.base.T_GSW as int, false, true),
                self.ring.n1(),
            ),
            r.v2() == ring_add(
                pt_mul(select(c.cols@, *scale, self.params.Z_GSW as int, self.params.base.T_GSW as int, true, false), s.v2(), self.ring.n2()),
                select(c.cols@, *scale, self.params.Z_GSW as int, self.params.base.T_GSW as int, false, false),
                self.ring.n2(),
            ),
    {
        let sel = self.gsw_select(c, scale);
        self.decode_regev(s, &sel)
    }

    /// Key-switching material for `x ↦ x^k`: encryptions under `s` of
    /// `τ_k(s)·z^i` for `i < t`.
    pub fn auto_setup(&self, rng: &mut ChaCha20Rng, k: usize, t: usize, z: u64, s: &IntModCycloCRTEval) -> (key: AutoKey)
        requires
            self.wf(),
            s.wf(),
            s.params == self.ring,
            k % 2 == 1,
            z >= 2,
        ensures
            key.k == k,
            key.z == z,
            key.keys.len() == t,
            cols_wf(key.keys@, self.ring),
            forall|i: int| 0 <= i < t ==> encrypts(
                #[trigger] key.keys@[i],
                *s,
                pt_mul(auto_view(s.v1(), k as int, self.ring.d as int), gadget_const(z as int, i, self.params.Q as int, self.ring.n1(), self.ring.d as nat), self.ring.n1()),
                pt_mul(auto_view(s.v2(), k as int, self.ring.d as int), gadget_const(z as int, i, self.params.Q as int, self.ring.n2(), self.ring.d as nat), self.ring.n2()),
                self.error.bound as int,
            ),
    {
        let ts = s.auto(k);
        proof {
            assert(ts.v1() =~= auto_view(s.v1(), k as int, self.ring.d as int));
            assert(ts.v2() =~= auto_view(s.v2(), k as int, self.ring.d as int));
        }
        let mut keys: Vec<RegevCiphertext> = Vec::with_capacity(t);
        let mut i: usize = 0;
        while i < t
            invariant
                self.wf(),
                s.wf(),
                s.params == self.ring,
                ts.wf(),
                ts.params == self.ring,
                ts.v1() == auto_view(s.v1(), k as int, self.ring.d as int),
                ts.v2() == auto_view(s.v2(), k as int, self.ring.d as int),
                i <= t,
                keys.len() == i,
                cols_wf(keys@, self.ring),
                forall|j: int| 0 <= j < i ==> encrypts(
                    #[trigger] keys@[j],
                    *s,
                    pt_mul(auto_view(s.v1(), k as int, self.ring.d as int), gadget_const(z as int, j, self.params.Q as int, self.ring.n1(), self.ring.d as nat), self.ring.n1()),
                    pt_mul(auto_view(s.v2(), k as int, self.ring.d as int), gadget_const(z as int, j, self.params.Q as int, self.ring.n2(), self.ring.d as nat), self.ring.n2()),
                    self.error.bound as int,
                ),
            decreases t - i,
        {
            let g = self.gadget_constant(z, i);
            let m = ts.mul(&g);
            keys.push(self.encode_regev(rng, s, &m));
            i += 1;
        }
        AutoKey { k, z, keys }
    }

    /// Applies `x ↦ x^k` to the plaintext of `ct`: permutes both parts, then
    /// switches the permuted mask back to the key `s` with `key`.
    pub fn auto_hom(&self, key: &AutoKey, ct: &RegevCiphertext) -> (r: RegevCiphertext)
        requires
            self.wf(),
            key.k % 2 == 1,
            key.z >= 2,
            cols_wf(key.keys@, self.ring),
            ct.wf_for(self.ring),
        ensures
            r.wf_for(self.ring),
            ({
                let d = self.ring.d as int;
                let ta1 = auto_view(ct.a.v1(), key.k as int, d);
                let ta2 = auto_view(ct.a.v2(), key.k as int, d);
                &&& r.a.v1() == switched(ta1, ta2, key.keys@, self.ring, key.z as int, true, true)
                &&& r.a.v2() == switched(ta1, ta2, key.keys@, self.ring, key.z as int, true, false)
                &&& r.b.v1() == ring_add(auto_view(ct.b.v1(), key.k as int, d), switched(ta1, ta2, key.keys@, self.ring, key.z as int, false, true), self.ring.n1())
                &&& r.b.v2() == ring_add(auto_view(ct.b.v2(), key.k as int, d), switched(ta1, ta2, key.keys@, self.ring, key.z as int, false, false), self.ring.n2())
            }),
    {
        let ta = ct.a.auto(key.k);
        let tb = ct.b.auto(key.k);
        let d = self.ring.d;
        proof {
            assert(ta.v1() =~= auto_view(ct.a.v1(), key.k as int, d as int));
            assert(ta.v2() =~= auto_view(ct.a.v2(), key.k as int, d as int));
            assert(tb.v1() =~= auto_view(ct.b.v1(), key.k as int, d as int));
            assert(tb.v2() =~= auto_view(ct.b.v2(), key.k as int, d as int));
        }
        let t = key.keys.len();
        let digits = ta.decompose(key.z, t);
        let comb = combine(&digits, &key.keys, 0, &self.ring);
        let b = tb.add(&comb.b);
        proof {
            let p = self.ring;
            let z = key.z as int;
            let ks = key.keys@;
            assert(evals_of1(digits@) =~= gadget_seq(ta.v1(), ta.v2(), p, z, t as int, true));
            assert(evals_of2(digits@) =~= gadget_seq(ta.v1(), ta.v2(), p, z, t as int, false));
        }
        RegevCiphertext { a: comb.a, b }
    }
    /// Key material for Regev-to-GSW conversion: encryptions under `s` of
    /// `s·s·z^j` for `j < T_REGEV_TO_GSW`, `z = Z_REGEV_TO_GSW`.
    pub fn regev_to_gsw_setup(&self, rng: &mut ChaCha20Rng, s: &IntModCycloCRTEval) -> (key: Vec<RegevCiphertext>)
        requires
            self.wf(),
            s.wf(),
            s.params == self.ring,
        ensures
            key.len() == self.params.base.T_REGEV_TO_GSW,
            cols_wf(key@, self.ring),
            forall|j: int| 0 <= j < self.params.base.T_REGEV_TO_GSW ==> encrypts(
                #[trigger] key@[j],
                *s,
                pt_mul(pt_mul(s.v1(), s.v1(), self.ring.n1()), gadget_const(self.params.Z_REGEV_TO_GSW as int, j, self.params.Q as int, self.ring.n1(), self.ring.d as nat), self.ring.n1()),
                pt_mul(pt_mul(s.v2(), s.v2(), self.ring.n2()), gadget_const(self.params.Z_REGEV_TO_GSW as int, j, self.params.Q as int, self.ring.n2(), self.ring.d as nat), self.ring.n2()),
                self.error.bound as int,
            ),
    {
        let t = self.params.base.T_REGEV_TO_GSW;
        let z = self.params.Z_REGEV_TO_GSW;
        let ss = s.mul(s);
        let mut key: Vec<RegevCiphertext> = Vec::with_capacity(t);
        let mut j: usize = 0;
        while j < t
            invariant
                self.wf(),
                s.wf(),
                s.params == self.ring,
                ss.wf(),
                ss.params == self.ring,
                ss.v1() == pt_mul(s.v1(), s.v1(), self.ring.n1()),
                ss.v2() == pt_mul(s.v2(), s.v2(), self.ring.n2()),
                t == self.params.base.T_REGEV_TO_GSW,
                z == self.params.Z_REGEV_TO_GSW,
                j <= t,
                key.len() == j,
                cols_wf(key@, self.ring),
                forall|i: int| 0 <= i < j ==> encrypts(
                    #[trigger] key@[i],
                    *s,
                    pt_mul(pt_mul(s.v1(), s.v1(), self.ring.n1()), gadget_const(z as int, i, self.params.Q as int, self.ring.n1(), self.ring.d as nat), self.ring.n1()),
                    pt_mul(pt_mul(s.v2(), s.v2(), self.ring.n2()), gadget_const(z as int, i, self.params.Q as int, self.ring.n2(), self.ring.d as nat), self.ring.n2()),
                    self.error.bound as int,
                ),
            decreases t - j,
        {
            let g = self.gadget_constant(z, j);
            let m = ss.mul(&g);
            key.push(self.encode_regev(rng, s, &m));
            j += 1;
        }
        key
    }

    /// Turns `T_GSW` Regev encryptions of `μ·Z_GSW^i` into a GSW encryption of
    /// `μ`: the inputs become the last `T_GSW` columns, and each column `i` of
    /// the first half is `(b_i, 0)` plus the key switching of `a_i` against
    /// `key` (an encryption of `a_i·s^2`), so that it encrypts `μ·Z_GSW^i·s`.
    pub fn regev_to_gsw(&self, key: &Vec<RegevCiphertext>, cts: &Vec<RegevCiphertext>) -> (c: GswCiphertext)
        requires
            self.wf(),
            cols_wf(key@, self.ring),
            cols_wf(cts@, self.ring),
            cts.len() == self.params.base.T_GSW,
        ensures
            c.cols.len() == 2 * cts.len(),
            cols_wf(c.cols@, self.ring),
            forall|i: int| 0 <= i < cts.len() ==> {
                let x = #[trigger] cts@[i];
                let z = self.params.Z_REGEV_TO_GSW as int;
                &&& c.cols@[i + cts.len()].a.p1@ == x.a.p1@
                &&& c.cols@[i + cts.len()].a.p2@ == x.a.p2@
                &&& c.cols@[i + cts.len()].b.p1@ == x.b.p1@
                &&& c.cols@[i + cts.len()].b.p2@ == x.b.p2@
                &&& c.cols@[i].a.v1() == ring_add(x.b.v1(), switched(x.a.v1(), x.a.v2(), key@, self.ring, z, true, true), self.ring.n1())
                &&& c.cols@[i].a.v2() == ring_add(x.b.v2(), switched(x.a.v1(), x.a.v2(), key@, self.ring, z, true, false), self.ring.n2())
                &&& c.cols@[i].b.v1() == switched(x.a.v1(), x.a.v2(), key@, self.ring, z, false, true)
                &&& c.cols@[i].b.v2() == switched(x.a.v1(), x.a.v2(), key@, self.ring, z, false, false)
            },
    {
        let t = cts.len();
        let tk = key.len();
        let z = self.params.Z_REGEV_TO_GSW;
        let mut top: Vec<RegevCiphertext> = Vec::with_capacity(t);
        let mut bottom: Vec<RegevCiphertext> = Vec::with_capacity(t);
        let mut i: usize = 0;
        while i < t
            invariant
                self.wf(),
                cols_wf(key@, self.ring),
                cols_wf(cts@, self.ring),
                t == cts.len(),
                tk == key.len(),
                z == self.params.Z_REGEV_TO_GSW,
                i <= t,
                top.len() == i,
                bottom.len() == i,
                cols_wf(top@, self.ring),
                cols_wf(bottom@, self.ring),
                forall|k: int| 0 <= k < i ==> {
                    let x = #[trigger] cts@[k];
                    &&& bottom@[k].a.p1@ == x.a.p1@
                    &&& bottom@[k].a.p2@ == x.a.p2@
                    &&& bottom@[k].b.p1@ == x.b.p1@
                    &&& bottom@[k].b.p2@ == x.b.p2@
                    &&& top@[k].a.v1() == ring_add(x.b.v1(), switched(x.a.v1(), x.a.v2(), key@, self.ring, z as int, true, true), self.ring.n1())
                    &&& top@[k].a.v2() == ring_add(x.b.v2(), switched(x.a.v1(), x.a.v2(), key@, self.ring, z as int, true, false), self.ring.n2())
                    &&& top@[k].b.v1() == switched(x.a.v1(), x.a.v2(), key@, self.ring, z as int, false, true)
                    &&& top@[k].b.v2() == switched(x.a.v1(), x.a.v2(), key@, self.ring, z as int, false, false)
                },
            decreases t - i,
        {
            proof {
                assert(cts@[i as int].wf_for(self.ring));
            }
            let x = &cts[i];
            let digits = x.a.decompose(z, tk);
            let comb = combine(&digits, key, 0, &self.ring);
            let a = x.b.add(&comb.a);
            proof {
                let p = self.ring;
                assert(evals_of1(digits@) =~= gadget_seq(x.a.v1(), x.a.v2(), p, z as int, tk as int, true));
                assert(evals_of2(digits@) =~= gadget_seq(x.a.v1(), x.a.v2(), p, z as int, tk as int, false));
            }
            top.push(RegevCiphertext { a, b: comb.b });
            let dup = RegevCiphertext { a: x.a.duplicate(), b: x.b.duplicate() };
            bottom.push(dup);
            i += 1;
        }
        let ghost top0 = top@;
        let ghost bottom0 = bottom@;
        top.append(&mut bottom);
        proof {
            assert(top@ =~= top0 + bottom0);
            assert forall|k: int| 0 <= k < top@.len() implies (#[trigger] top@[k]).wf_for(self.ring) by {
                if k < t {
                    assert(top@[k] == top0[k]);
                } else {
                    assert(top@[k] == bottom0[k - t]);
                }
            }
            assert forall|k: int| 0 <= k < t implies top@[k] == top0[k] && top@[k + t] == bottom0[k] by {}
        }
        GswCiphertext { cols: top }
    }
    /// `b = mu + e - a·s` for a fresh error `e`.
    fn mask_body(&self, rng: &mut ChaCha20Rng, a: &IntModCycloCRTEval, s: &IntModCycloCRTEval, mu: &IntModCycloCRTEval) -> (b: IntModCycloCRTEval)
        requires
            self.wf(),
            a.wf(),
            s.wf(),
            mu.wf(),
            a.params == self.ring,
            s.params == self.ring,
            mu.params == self.ring,
        ensures
            b.wf(),
            b.params == self.ring,
            hides(*a, b, *s, mu.v1(), mu.v2(), self.error.bound as int),
    {
        let e = IntModCycloCRTEval::rand_discrete_gaussian(&self.ring, rng, &self.error);
        let as_ = a.mul(s);
        let me = mu.add(&e);
        let b = me.sub(&as_);
        proof {
            let n1 = self.ring.n1();
            let n2 = self.ring.n2();
            let c = choose|c: Seq<int>|
                c.len() == self.ring.d && (forall|i: int| 0 <= i < c.len() ==> -(self.error.bound as int) <= #[trigger] c[i] <= self.error.bound)
                    && e.v1() == ntt_spec(mod_all(c, n1), self.ring.w1 as int, n1)
                    && e.v2() == ntt_spec(mod_all(c, n2), self.ring.w2 as int, n2);
            assert(small(c, self.ring.d as int, self.error.bound as int));
            assert forall|i: int| 0 <= i < self.ring.d implies #[trigger] ring_add(pt_mul(a.v1(), s.v1(), n1), b.v1(), n1)[i] == ring_add(mu.v1(), e.v1(), n1)[i] by {
                lemma_add_sub_cancel(a.v1()[i] * s.v1()[i], me.v1()[i], n1);
            }
            assert forall|i: int| 0 <= i < self.ring.d implies #[trigger] ring_add(pt_mul(a.v2(), s.v2(), n2), b.v2(), n2)[i] == ring_add(mu.v2(), e.v2(), n2)[i] by {
                lemma_add_sub_cancel(a.v2()[i] * s.v2()[i], me.v2()[i], n2);
            }
            assert(ring_add(pt_mul(a.v1(), s.v1(), n1), b.v1(), n1) =~= ring_add(mu.v1(), evals1(c, s.params), n1));
            assert(ring_add(pt_mul(a.v2(), s.v2(), n2), b.v2(), n2) =~= ring_add(mu.v2(), evals2(c, s.params), n2));
        }
        b
    }

    /// A secret vector of `n_vec` keys.
    pub fn encode_vec_setup(&self, rng: &mut ChaCha20Rng, n_vec: usize) -> (s: Vec<IntModCycloCRTEval>)
        requires
            self.wf(),
        ensures
            s.len() == n_vec,
            elems_wf(s@, self.ring),
            forall|l: int| 0 <= l < n_vec ==> small_key(#[trigger] s@[l], self.ring, self.error.bound as int),
    {
        let mut out: Vec<IntModCycloCRTEval> = Vec::with_capacity(n_vec);
        let mut i: usize = 0;
        while i < n_vec
            invariant
                self.wf(),
                i <= n_vec,
                out.len() == i,
                elems_wf(out@, self.ring),
                forall|l: int| 0 <= l < i ==> small_key(#[trigger] out@[l], self.ring, self.error.bound as int),
            decreases n_vec - i,
        {
            out.push(self.encode_setup(rng));
            i += 1;
        }
        out
    }

    /// Encrypts the vector `m` under the secret vector `s`, one shared mask.
    pub fn encode_vec_regev(&self, rng: &mut ChaCha20Rng, s: &Vec<IntModCycloCRTEval>, m: &Vec<IntModCycloCRTEval>) -> (ct: VecRegevCiphertext)
        requires
            self.wf(),
            s.len() == m.len(),
            elems_wf(s@, self.ring),
            elems_wf(m@, self.ring),
        ensures
            ct.wf_for(self.ring, s.len() as int),
            forall|l: int| 0 <= l < s.len() ==> hides(ct.a, #[trigger] ct.b@[l], s@[l], m@[l].v1(), m@[l].v2(), self.error.bound as int),
    {
        let a = IntModCycloCRTEval::rand_uniform(&self.ring, rng);
        let mut b: Vec<IntModCycloCRTEval> = Vec::with_capacity(s.len());
        let mut l: usize = 0;
        while l < s.len()
            invariant
                self.wf(),
                s.len() == m.len(),
                elems_wf(s@, self.ring),
                elems_wf(m@, self.ring),
                a.wf(),
                a.params == self.ring,
                l <= s.len(),
                b.len() == l,
                elems_wf(b@, self.ring),
                forall|u: int| 0 <= u < l ==> hides(a, #[trigger] b@[u], s@[u], m@[u].v1(), m@[u].v2(), self.error.bound as int),
            decreases s.len() - l,
        {
            proof {
                assert(s@[l as int].wf());
                assert(m@[l as int].wf());
            }
            let bl = self.mask_body(rng, &a, &s[l], &m[l]);
            b.push(bl);
            l += 1;
        }
        VecRegevCiphertext { a, b }
    }

    /// Decrypts every slot without rounding: `a·s[l] + b[l]`.
    pub fn decode_vec_regev(&self, s: &Vec<IntModCycloCRTEval>, ct: &VecRegevCiphertext) -> (r: Vec<IntModCycloCRTEval>)
        requires
            self.wf(),
            elems_wf(s@, self.ring),
            ct.wf_for(self.ring, s.len() as int),
        ensures
            r.len() == s.len(),
            elems_wf(r@, self.ring),
            forall|l: int| 0 <= l < s.len() ==> (#[trigger] r@[l]).v1() == vphase(*ct, s@, l, true) && r@[l].v2() == vphase(*ct, s@, l, false),
    {
        let mut out: Vec<IntModCycloCRTEval> = Vec::with_capacity(s.len());
        let mut l: usize = 0;
        while l < s.len()
            invariant
                self.wf(),
                elems_wf(s@, self.ring),
                ct.wf_for(self.ring, s.len() as int),
                l <= s.len(),
                out.len() == l,
                elems_wf(out@, self.ring),
                forall|u: int| 0 <= u < l ==> (#[trigger] out@[u]).v1() == vphase(*ct, s@, u, true) && out@[u].v2() == vphase(*ct, s@, u, false),
            decreases s.len() - l,
        {
            proof {
                assert(s@[l as int].wf());
                assert(ct.b@[l as int].wf());
            }
            let as_ = ct.a.mul(&s[l]);
            out.push(as_.add(&ct.b[l]));
            l += 1;
        }
        out
    }

    /// Key material for packing: entry `i·t + j` encrypts, under `s_vec`,
    /// `s_scal·z^j` in slot `i` and zero elsewhere (`t = T_SCAL_TO_VEC`,
    /// `z = Z_SCAL_TO_VEC`).
    pub fn scal_to_vec_setup(&self, rng: &mut ChaCha20Rng, s_scal: &IntModCycloCRTEval, s_vec: &Vec<IntModCycloCRTEval>) -> (key: Vec<VecRegevCiphertext>)
        requires
            self.wf(),
            s_scal.wf(),
            s_scal.params == self.ring,
            elems_wf(s_vec@, self.ring),
            s_vec.len() * self.params.base.T_SCAL_TO_VEC <= usize::MAX,
            self.params.base.T_SCAL_TO_VEC >= 1,
        ensures
            key.len() == s_vec.len() * self.params.base.T_SCAL_TO_VEC,
            forall|k: int| 0 <= k < key.len() ==> (#[trigger] key@[k]).wf_for(self.ring, s_vec.len() as int),
            forall|k: int, l: int| 0 <= k < key.len() && 0 <= l < s_vec.len() ==> {
                let t = self.params.base.T_SCAL_TO_VEC as int;
                let z = self.params.Z_SCAL_TO_VEC as int;
                let q = self.params.Q as int;
                &&& hides(key@[k].a, #[trigger] key@[k].b@[l], s_vec@[l],
                        pack_msg(s_scal.v1(), k, l, t, z, q, self.ring.n1(), self.ring.d as nat),
                        pack_msg(s_scal.v2(), k, l, t, z, q, self.ring.n2(), self.ring.d as nat),
                        self.error.bound as int)
            },
    {
        let n = s_vec.len();
        let t = self.params.base.T_SCAL_TO_VEC;
        let z = self.params.Z_SCAL_TO_VEC;
        let mut key: Vec<VecRegevCiphertext> = Vec::with_capacity(n * t);
        let mut k: usize = 0;
        while k < n * t
            invariant
                self.wf(),
                s_scal.wf(),
                s_scal.params == self.ring,
                elems_wf(s_vec@, self.ring),
                n == s_vec.len(),
                t == self.params.base.T_SCAL_TO_VEC,
                t >= 1,
                z == self.params.Z_SCAL_TO_VEC,
                n * t <= usize::MAX,
                k <= n * t,
                key.len() == k,
                forall|u: int| 0 <= u < k ==> (#[trigger] key@[u]).wf_for(self.ring, n as int),
                forall|u: int, l: int| 0 <= u < k && 0 <= l < n ==> hides(key@[u].a, #[trigger] key@[u].b@[l], s_vec@[l],
                    pack_msg(s_scal.v1(), u, l, t as int, z as int, self.params.Q as int, self.ring.n1(), self.ring.d as nat),
                    pack_msg(s_scal.v2(), u, l, t as int, z as int, self.params.Q as int, self.ring.n2(), self.ring.d as nat),
                    self.error.bound as int),
            decreases n * t - k,
        {
            let i = k / t;
            let j = k % t;
            let g = self.gadget_constant(z, j);
            let sg = s_scal.mul(&g);
            let mut msg: Vec<IntModCycloCRTEval> = Vec::with_capacity(n);
            let mut l: usize = 0;
            while l < n
                invariant
                    self.wf(),
                    sg.wf(),
                    sg.params == self.ring,
                    l <= n,
                    msg.len() == l,
                    elems_wf(msg@, self.ring),
                    forall|u: int| 0 <= u < l ==> (#[trigger] msg@[u]).v1() == (if u == i { sg.v1() } else { ring_zero(self.ring.d as nat) })
                        && msg@[u].v2() == (if u == i { sg.v2() } else { ring_zero(self.ring.d as nat) }),
                decreases n - l,
            {
                if l == i {
                    msg.push(sg.duplicate());
                } else {
                    msg.push(IntModCycloCRTEval::zero(&self.ring));
                }
                l += 1;
            }
            let ct = self.encode_vec_regev(rng, s_vec, &msg);
            proof {
                assert forall|l: int| 0 <= l < n implies hides(ct.a, #[trigger] ct.b@[l], s_vec@[l],
                    pack_msg(s_scal.v1(), k as int, l, t as int, z as int, self.params.Q as int, self.ring.n1(), self.ring.d as nat),
                    pack_msg(s_scal.v2(), k as int, l, t as int, z as int, self.params.Q as int, self.ring.n2(), self.ring.d as nat),
                    self.error.bound as int) by {
                    assert(hides(ct.a, ct.b@[l], s_vec@[l], msg@[l].v1(), msg@[l].v2(), self.error.bound as int));
                }
            }
            key.push(ct);
            k += 1;
        }
        key
    }

    /// Packs the scalar ciphertexts `cs` (under `s_scal`) into one vector
    /// ciphertext under `s_vec`: slot `l` receives `b_l` plus the key switching
    /// of every mask `a_i` against the key entries for slot `i`.
    pub fn scal_to_vec(&self, key: &Vec<VecRegevCiphertext>, cs: &Vec<RegevCiphertext>) -> (r: VecRegevCiphertext)
        requires
            self.wf(),
            self.params.base.T_SCAL_TO_VEC >= 1,
            key.len() == cs.len() * self.params.base.T_SCAL_TO_VEC,
            forall|k: int| 0 <= k < key.len() ==> (#[trigger] key@[k]).wf_for(self.ring, cs.len() as int),
            cols_wf(cs@, self.ring),
        ensures
            r.wf_for(self.ring, cs.len() as int),
            ({
                let t = self.params.base.T_SCAL_TO_VEC as int;
                let z = self.params.Z_SCAL_TO_VEC as int;
                let m = cs.len() as int;
                &&& r.a.v1() == packed_mask(cs@, key@, self.ring, z, t, m, true)
                &&& r.a.v2() == packed_mask(cs@, key@, self.ring, z, t, m, false)
                &&& forall|l: int| 0 <= l < m ==> (#[trigger] r.b@[l]).v1() == ring_add(packed_body(cs@, key@, self.ring, z, t, m, l, true), cs@[l].b.v1(), self.ring.n1())
                &&& forall|l: int| 0 <= l < m ==> (#[trigger] r.b@[l]).v2() == ring_add(packed_body(cs@, key@, self.ring, z, t, m, l, false), cs@[l].b.v2(), self.ring.n2())
            }),
    {
        let n = cs.len();
        let t = self.params.base.T_SCAL_TO_VEC;
        let z = self.params.Z_SCAL_TO_VEC;
        let p = self.ring;
        let mut a = IntModCycloCRTEval::zero(&p);
        let mut acc: Vec<IntModCycloCRTEval> = Vec::with_capacity(n);
        let mut l: usize = 0;
        while l < n
            invariant
                p.wf(),
                l <= n,
                acc.len() == l,
                elems_wf(acc@, p),
                forall|u: int| 0 <= u < l ==> (#[trigger] acc@[u]).v1() == ring_zero(p.d as nat) && acc@[u].v2() == ring_zero(p.d as nat),
            decreases n - l,
        {
            acc.push(IntModCycloCRTEval::zero(&p));
            l += 1;
        }
        let mut i: usize = 0;
        while i < n
            invariant
                self.wf(),
                p == self.ring,
                t == self.params.base.T_SCAL_TO_VEC,
                t >= 1,
                z == self.params.Z_SCAL_TO_VEC,
                n == cs.len(),
                key.len() == n * t,
                forall|k: int| 0 <= k < key.len() ==> (#[trigger] key@[k]).wf_for(p, n as int),
                cols_wf(cs@, p),
                i <= n,
                a.wf(),
                a.params == p,
                a.v1() == packed_mask(cs@, key@, p, z as int, t as int, i as int, true),
                a.v2() == packed_mask(cs@, key@, p, z as int, t as int, i as int, false),
                acc.len() == n,
                elems_wf(acc@, p),
                forall|u: int| 0 <= u < n ==> (#[trigger] acc@[u]).v1() == packed_body(cs@, key@, p, z as int, t as int, i as int, u, true)
                    && acc@[u].v2() == packed_body(cs@, key@, p, z as int, t as int, i as int, u, false),
            decreases n - i,
        {
            proof {
                assert(cs@[i as int].wf_for(p));
                assert(i * t + t <= n * t) by (nonlinear_arith)
                    requires
                        i < n,
                ;
            }
            let digits = cs[i].a.decompose(z, t);
            let v = vcombine(&digits, key, i * t, n, &p);
            proof {
                assert(evals_of1(digits@) =~= gadget_seq(cs@[i as int].a.v1(), cs@[i as int].a.v2(), p, z as int, t as int, true));
                assert(evals_of2(digits@) =~= gadget_seq(cs@[i as int].a.v1(), cs@[i as int].a.v2(), p, z as int, t as int, false));
            }
            a = a.add(&v.a);
            let mut u: usize = 0;
            while u < n
                invariant
                    p.wf(),
                    acc.len() == n,
                    elems_wf(acc@, p),
                    v.wf_for(p, n as int),
                    i < n,
                    n == cs.len(),
                    u <= n,
                    forall|w: int| 0 <= w < u ==> (#[trigger] acc@[w]).v1() == packed_body(cs@, key@, p, z as int, t as int, i + 1, w, true)
                        && acc@[w].v2() == packed_body(cs@, key@, p, z as int, t as int, i + 1, w, false),
                    forall|w: int| u <= w < n ==> (#[trigger] acc@[w]).v1() == packed_body(cs@, key@, p, z as int, t as int, i as int, w, true)
                        && acc@[w].v2() == packed_body(cs@, key@, p, z as int, t as int, i as int, w, false),
                    forall|w: int| 0 <= w < n ==> (#[trigger] v.b@[w]).v1() == lin_comb(gadget_seq(cs@[i as int].a.v1(), cs@[i as int].a.v2(), p, z as int, t as int, true), vbodies(key@, (i * t) as int, t as int, w, true), p.n1(), p.d as nat, t as int)
                        && v.b@[w].v2() == lin_comb(gadget_seq(cs@[i as int].a.v1(), cs@[i as int].a.v2(), p, z as int, t as int, false), vbodies(key@, (i * t) as int, t as int, w, false), p.n2(), p.d as nat, t as int),
                decreases n - u,
            {
                proof {
                    assert(acc@[u as int].wf());
                    assert(v.b@[u as int].wf());
                }
                let next = acc[u].add(&v.b[u]);
                acc.set(u, next);
                u += 1;
            }
            i += 1;
        }
        let mut b: Vec<IntModCycloCRTEval> = Vec::with_capacity(n);
        let mut l: usize = 0;
        while l < n
            invariant
                p == self.ring,
                p.wf(),
                n == cs.len(),
                cols_wf(cs@, p),
                acc.len() == n,
                elems_wf(acc@, p),
                l <= n,
                b.len() == l,
                elems_wf(b@, p),
                forall|u: int| 0 <= u < l ==> (#[trigger] b@[u]).v1() == ring_add(acc@[u].v1(), cs@[u].b.v1(), p.n1())
                    && b@[u].v2() == ring_add(acc@[u].v2(), cs@[u].b.v2(), p.n2()),
            decreases n - l,
        {
            proof {
                assert(acc@[l as int].wf());
                assert(cs@[l as int].wf_for(p));
            }
            b.push(acc[l].add(&cs[l].b));
            l += 1;
        }
        VecRegevCiphertext { a, b }
    }
}

} // verus!
