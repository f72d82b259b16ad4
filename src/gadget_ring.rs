//! Gadget recomposition in the ring: the digits of an element, weighted by
//! the gadget powers `z^i`, add up to the element again.
use crate::crt::lemma_crt_residues;
use crate::crt_eval::{constant, digit_poly, evals_ok, mod_all, q_coeffs_of, CycloParams};
use crate::cyclo::{reduced, ring_add, ring_zero};
use crate::gadget::{digit, digit_sum, lemma_digits_recombine};
use crate::ntt::{intt_spec, ntt_spec};
use crate::ntt_laws::{lemma_ntt_add, lemma_ntt_inverse_round_trip, lemma_ntt_scale, lemma_ntt_zero, scale};
use crate::respire::{gadget_const, gadget_seq, lin_comb};
use vstd::arithmetic::div_mod::*;
use vstd::arithmetic::mul::*;
use vstd::arithmetic::power::*;
use vstd::prelude::*;

verus! {

/// `Σ_{i<m} ks[i]·cs[i]` entrywise modulo `n`.
pub open spec fn lin_sum(cs: Seq<Seq<int>>, ks: Seq<int>, n: int, d: nat, m: int) -> Seq<int>
    decreases m,
{
    if m <= 0 {
        ring_zero(d)
    } else {
        ring_add(lin_sum(cs, ks, n, d, m - 1), scale(cs[m - 1], ks[m - 1], n), n)
    }
}

/// Weighting transforms by constants is the transform of the weighted sum.
proof fn lemma_lin_comb_of_transforms(xs: Seq<Seq<int>>, ys: Seq<Seq<int>>, cs: Seq<Seq<int>>, ks: Seq<int>, w: int, n: int, d: nat, m: int)
    requires
        n > 1,
        0 <= m,
        m <= xs.len(),
        m <= ys.len(),
        m <= cs.len(),
        m <= ks.len(),
        forall|i: int| 0 <= i < m ==> (#[trigger] cs[i]).len() == d && xs[i] == ntt_spec(cs[i], w, n) && ys[i] == constant(d, ks[i]),
    ensures
        lin_comb(xs, ys, n, d, m) == ntt_spec(lin_sum(cs, ks, n, d, m), w, n),
    decreases m,
{
    if m == 0 {
        lemma_ntt_zero(d, w, n);
        assert(ring_zero(d) =~= Seq::new(d, |i: int| 0int));
    } else {
        lemma_lin_comb_of_transforms(xs, ys, cs, ks, w, n, d, m - 1);
        let c = cs[m - 1];
        assert(c.len() == d);
        lemma_ntt_scale(c, ks[m - 1], w, n);
        lemma_lin_sum_len(cs, ks, n, d, m - 1);
        lemma_ntt_add(lin_sum(cs, ks, n, d, m - 1), scale(c, ks[m - 1], n), w, n);
    }
}

proof fn lemma_lin_sum_len(cs: Seq<Seq<int>>, ks: Seq<int>, n: int, d: nat, m: int)
    requires
        forall|i: int| 0 <= i < m ==> (#[trigger] cs[i]).len() == d,
    ensures
        lin_sum(cs, ks, n, d, m).len() == d,
    decreases m,
{
    if m > 0 {
        lemma_lin_sum_len(cs, ks, n, d, m - 1);
    }
}

/// Entry `j` of the weighted digit sum is `Σ_{i<m} digit_i(x_j)·z^i` modulo `n`.
proof fn lemma_lin_sum_digits(qc: Seq<int>, z: int, q: int, n: int, d: nat, m: int, j: int)
    requires
        n > 1,
        q > 0,
        q % n == 0,
        z >= 2,
        0 <= m,
        qc.len() == d,
        0 <= j < d,
    ensures
        lin_sum(
            Seq::new(m as nat, |i: int| mod_all(digit_poly(qc, z, i as nat), n)),
            Seq::new(m as nat, |i: int| (pow(z, i as nat) % q) % n),
            n,
            d,
            m,
        )[j] == digit_sum(qc[j], z, m as nat) % n,
    decreases m,
{
    let cs = Seq::new(m as nat, |i: int| mod_all(digit_poly(qc, z, i as nat), n));
    let ks = Seq::new(m as nat, |i: int| (pow(z, i as nat) % q) % n);
    if m == 0 {
        lemma_small_mod(0, n as nat);
    } else {
        let cs0 = Seq::new((m - 1) as nat, |i: int| mod_all(digit_poly(qc, z, i as nat), n));
        let ks0 = Seq::new((m - 1) as nat, |i: int| (pow(z, i as nat) % q) % n);
        lemma_lin_sum_digits(qc, z, q, n, d, m - 1, j);
        lemma_lin_sum_prefix(cs, ks, cs0, ks0, n, d, m - 1);
        assert forall|i: int| 0 <= i < m implies (#[trigger] cs[i]).len() == d by {}
        lemma_lin_sum_len(cs, ks, n, d, m - 1);
        let prev = lin_sum(cs, ks, n, d, m - 1)[j];
        let dg = digit(qc[j], z, (m - 1) as nat);
        let pw = pow(z, (m - 1) as nat);
        let k = (pw % q) % n;
        // k ≡ z^(m-1) modulo n, as n divides q
        lemma_fundamental_div_mod(q, n);
        let qn = q / n;
        lemma_mod_mod(pw, n, qn);
        assert(n * qn == q);
        assert(k == pw % n);
        // the new entry: (prev + k·(dg mod n)) mod n
        assert(lin_sum(cs, ks, n, d, m)[j] == (prev + (k * (dg % n)) % n) % n);
        lemma_add_mod_noop(prev, k * (dg % n), n);
        lemma_mod_twice(k * (dg % n), n);
        lemma_mul_mod_noop(pw, dg, n);
        lemma_mod_twice(pw, n);
        lemma_mod_twice(dg, n);
        lemma_mul_mod_noop(k, dg % n, n);
        lemma_mul_is_commutative(pw, dg);
        lemma_add_mod_noop(digit_sum(qc[j], z, (m - 1) as nat), dg * pw, n);
        lemma_mod_twice(digit_sum(qc[j], z, (m - 1) as nat), n);
        lemma_mod_twice(dg * pw, n);
        assert(prev == digit_sum(qc[j], z, (m - 1) as nat) % n);
    }
}

/// `lin_sum` over the first `m` entries depends only on those entries.
proof fn lemma_lin_sum_prefix(cs: Seq<Seq<int>>, ks: Seq<int>, cs0: Seq<Seq<int>>, ks0: Seq<int>, n: int, d: nat, m: int)
    requires
        0 <= m,
        m <= cs.len(),
        m <= ks.len(),
        m <= cs0.len(),
        m <= ks0.len(),
        forall|i: int| 0 <= i < m ==> #[trigger] cs[i] == cs0[i] && ks[i] == ks0[i],
    ensures
        lin_sum(cs, ks, n, d, m) == lin_sum(cs0, ks0, n, d, m),
    decreases m,
{
    if m > 0 {
        lemma_lin_sum_prefix(cs, ks, cs0, ks0, n, d, m - 1);
    }
}

/// Recomposition for one component: given the coefficients `qc` modulo `q`
/// of an element whose evaluation vector modulo `n` is `v`.
proof fn lemma_recompose_component(qc: Seq<int>, v: Seq<int>, z: int, t: nat, q: int, n: int, w: int, wi: int, di: int)
    requires
        n > 1,
        q > 0,
        q % n == 0,
        z >= 2,
        pow(z, t) >= q,
        v.len() > 0,
        reduced(v, n),
        qc.len() == v.len(),
        forall|j: int| 0 <= j < qc.len() ==> 0 <= #[trigger] qc[j] < q,
        forall|j: int| 0 <= j < qc.len() ==> #[trigger] qc[j] % n == intt_spec(v, wi, di, n)[j],
        pow(w, v.len()) % n == n - 1,
        crate::ntt_laws::primitive_root(w, v.len() as int, n),
        (w * wi) % n == 1,
        (v.len() * di) % n == 1,
    ensures
        lin_comb(
            Seq::new(t, |k: int| ntt_spec(mod_all(digit_poly(qc, z, k as nat), n), w, n)),
            Seq::new(t, |i: int| constant(v.len(), (pow(z, i as nat) % q) % n)),
            n,
            v.len(),
            t as int,
        ) == v,
{
    let d = v.len();
    let cs = Seq::new(t, |i: int| mod_all(digit_poly(qc, z, i as nat), n));
    let ks = Seq::new(t, |i: int| (pow(z, i as nat) % q) % n);
    let xs = Seq::new(t, |k: int| ntt_spec(mod_all(digit_poly(qc, z, k as nat), n), w, n));
    let ys = Seq::new(t, |i: int| constant(v.len(), (pow(z, i as nat) % q) % n));
    lemma_lin_comb_of_transforms(xs, ys, cs, ks, w, n, d, t as int);
    assert forall|i: int| 0 <= i < t implies (#[trigger] cs[i]).len() == d by {}
    lemma_lin_sum_len(cs, ks, n, d, t as int);
    let ls = lin_sum(cs, ks, n, d, t as int);
    let c = intt_spec(v, wi, di, n);
    assert forall|j: int| 0 <= j < d implies #[trigger] ls[j] == c[j] by {
        lemma_lin_sum_digits(qc, z, q, n, d, t as int, j);
        lemma_pow_positive(z, t);
        lemma_digits_recombine(qc[j] as nat, z as nat, t);
    }
    assert(ls =~= c);
    lemma_ntt_inverse_round_trip(v, w, wi, di, n);
}

/// Gadget recomposition: for a well-formed element with evaluation vectors
/// `v1`, `v2` and a gadget (`z`, `t`) that covers `Q` (`z^t >= Q`), the digits
/// of the element weighted by `z^i mod Q` add up to the element, in each
/// component.
pub proof fn lemma_gadget_recompose(p: CycloParams, v1: Seq<int>, v2: Seq<int>, z: int, t: nat)
    requires
        p.wf(),
        evals_ok(p, v1, true),
        evals_ok(p, v2, false),
        z >= 2,
        pow(z, t) >= p.crt.q(),
    ensures
        lin_comb(
            gadget_seq(v1, v2, p, z, t as int, true),
            Seq::new(t, |i: int| gadget_const(z, i, p.crt.q(), p.n1(), p.d as nat)),
            p.n1(),
            p.d as nat,
            t as int,
        ) == v1,
        lin_comb(
            gadget_seq(v1, v2, p, z, t as int, false),
            Seq::new(t, |i: int| gadget_const(z, i, p.crt.q(), p.n2(), p.d as nat)),
            p.n2(),
            p.d as nat,
            t as int,
        ) == v2,
{
    let q = p.crt.q();
    let qc = q_coeffs_of(v1, v2, p);
    let c1 = intt_spec(v1, p.w1_inv as int, p.d1_inv as int, p.n1());
    let c2 = intt_spec(v2, p.w2_inv as int, p.d2_inv as int, p.n2());
    lemma_mul_strictly_positive(p.n1(), p.n2());
    assert forall|j: int| 0 <= j < qc.len() implies 0 <= #[trigger] qc[j] < q && qc[j] % p.n1() == c1[j] && qc[j] % p.n2() == c2[j] by {
        lemma_mod_bound(c1[j] * p.crt.n2 * p.crt.n2_inv + c2[j] * p.crt.n1 * p.crt.n1_inv, q);
        lemma_crt_residues(c1[j], c2[j], p.crt);
        assert(0 <= c1[j] < p.n1());
        assert(0 <= c2[j] < p.n2());
        lemma_small_mod(c1[j] as nat, p.n1() as nat);
        lemma_small_mod(c2[j] as nat, p.n2() as nat);
    }
    lemma_mod_multiples_basic(p.n2(), p.n1());
    lemma_mul_is_commutative(p.n2(), p.n1());
    lemma_mod_multiples_basic(p.n1(), p.n2());
    lemma_recompose_component(qc, v1, z, t, q, p.n1(), p.w1 as int, p.w1_inv as int, p.d1_inv as int);
    lemma_recompose_component(qc, v2, z, t, q, p.n2(), p.w2 as int, p.w2_inv as int, p.d2_inv as int);
    assert(gadget_seq(v1, v2, p, z, t as int, true) =~= Seq::new(t, |k: int| ntt_spec(mod_all(digit_poly(qc, z, k as nat), p.n1()), p.w1 as int, p.n1())));
    assert(gadget_seq(v1, v2, p, z, t as int, false) =~= Seq::new(t, |k: int| ntt_spec(mod_all(digit_poly(qc, z, k as nat), p.n2()), p.w2 as int, p.n2())));
    assert(Seq::new(t, |i: int| gadget_const(z, i, q, p.n1(), p.d as nat)) =~= Seq::new(t, |i: int| constant(v1.len(), (pow(z, i as nat) % q) % p.n1())));
    assert(Seq::new(t, |i: int| gadget_const(z, i, q, p.n2(), p.d as nat)) =~= Seq::new(t, |i: int| constant(v2.len(), (pow(z, i as nat) % q) % p.n2())));
}

} // verus!
