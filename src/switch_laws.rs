//! What key switching and gadget products do to decryption: the phase of a
//! gadget product is the key's message times the recomposed element, plus
//! the digits times the keys' noise.
use crate::crt_eval::{auto_index, evals_ok, pt_mul, CycloParams, IntModCycloCRTEval};
use crate::cyclo::ring_add;
use crate::gadget_ring::lemma_gadget_recompose;
use crate::ntt_laws::{lemma_sum_add_scaled, lemma_sum_congr, lemma_sum_scale, sum};
use crate::respire::{
    auto_view, bodies, cols_wf, gadget_const, gadget_seq, lin_comb, masks, phase1, phase2, select, switched, RegevCiphertext,
};
use vstd::arithmetic::div_mod::*;
use vstd::arithmetic::mul::*;
use vstd::arithmetic::power::pow;
use vstd::prelude::*;

verus! {

/// Entry `q` of a linear combination is the sum of the entry products.
pub proof fn lemma_lin_comb_entry(xs: Seq<Seq<int>>, ys: Seq<Seq<int>>, n: int, d: nat, m: int, q: int)
    requires
        n > 0,
        0 <= m,
        m <= xs.len(),
        m <= ys.len(),
        forall|i: int| 0 <= i < m ==> (#[trigger] xs[i]).len() == d && ys[i].len() == d,
        0 <= q < d,
    ensures
        lin_comb(xs, ys, n, d, m).len() == d,
        lin_comb(xs, ys, n, d, m)[q] == sum(|i: int| xs[i][q] * ys[i][q], m) % n,
    decreases m,
{
    if m == 0 {
        lemma_small_mod(0, n as nat);
    } else {
        lemma_lin_comb_entry(xs, ys, n, d, m - 1, q);
        let prev = sum(|i: int| xs[i][q] * ys[i][q], m - 1);
        let t = xs[m - 1][q] * ys[m - 1][q];
        lemma_add_mod_noop(prev, t, n);
        lemma_mod_twice(prev, n);
        lemma_mod_twice(t, n);
    }
}

proof fn lemma_lin_comb_len(xs: Seq<Seq<int>>, ys: Seq<Seq<int>>, n: int, d: nat, m: int)
    requires
        forall|i: int| 0 <= i < m ==> (#[trigger] xs[i]).len() == d,
    ensures
        lin_comb(xs, ys, n, d, m).len() == d,
    decreases m,
{
    if m > 0 {
        lemma_lin_comb_len(xs, ys, n, d, m - 1);
    }
}

proof fn lemma_digit_terms(
    g: Seq<Seq<int>>,
    a: Seq<Seq<int>>,
    b: Seq<Seq<int>>,
    c: Seq<Seq<int>>,
    e: Seq<Seq<int>>,
    s: Seq<int>,
    m: Seq<int>,
    n: int,
    d: nat,
    t: int,
    q: int,
)
    requires
        n > 0,
        0 <= q < d,
        s.len() == d,
        m.len() == d,
        forall|j: int| 0 <= j < t ==> (#[trigger] g[j]).len() == d && a[j].len() == d && b[j].len() == d && c[j].len() == d && e[j].len() == d,
        forall|j: int| 0 <= j < t ==> ring_add(pt_mul(#[trigger] a[j], s, n), b[j], n) == ring_add(pt_mul(m, c[j], n), e[j], n),
    ensures
        forall|j: int| 0 <= j < t ==> (s[q] * (g[j][q] * #[trigger] a[j][q]) + 1 * (g[j][q] * b[j][q])) % n == (g[j][q] * e[j][q] + m[q] * (g[j][q] * c[j][q])) % n,
{
    assert forall|j: int| 0 <= j < t implies (s[q] * (g[j][q] * #[trigger] a[j][q]) + 1 * (g[j][q] * b[j][q])) % n == (g[j][q] * e[j][q] + m[q] * (g[j][q] * c[j][q])) % n by {
        let gj = g[j];
        assert(gj.len() == d);
        assert(a[j].len() == d);
        assert(b[j].len() == d);
        assert(c[j].len() == d);
        assert(e[j].len() == d);
        assert(ring_add(pt_mul(a[j], s, n), b[j], n) == ring_add(pt_mul(m, c[j], n), e[j], n));
        assert(ring_add(pt_mul(a[j], s, n), b[j], n)[q] == ring_add(pt_mul(m, c[j], n), e[j], n)[q]);
        let x = a[j][q] * s[q];
        let y = m[q] * c[j][q];
        assert(pt_mul(a[j], s, n)[q] == x % n);
        assert(pt_mul(m, c[j], n)[q] == y % n);
        assert((x % n + b[j][q]) % n == (y % n + e[j][q]) % n);
        lemma_add_mod_noop_right(b[j][q], x, n);
        lemma_add_mod_noop_right(e[j][q], y, n);
        assert((x + b[j][q]) % n == (y + e[j][q]) % n);
        lemma_mul_mod_noop_right(g[j][q], x + b[j][q], n);
        lemma_mul_mod_noop_right(g[j][q], y + e[j][q], n);
        assert(s[q] * (g[j][q] * a[j][q]) + 1 * (g[j][q] * b[j][q]) == g[j][q] * (x + b[j][q])) by (nonlinear_arith)
            requires
                x == a[j][q] * s[q],
        ;
        assert(g[j][q] * e[j][q] + m[q] * (g[j][q] * c[j][q]) == g[j][q] * (y + e[j][q])) by (nonlinear_arith)
            requires
                y == m[q] * c[j][q],
        ;
    }
}

/// The key-switching identity. If each key `j` has phase
/// `A_j·s + B_j = M·c_j + E_j`, and the digits `g` recompose to `u`
/// (`Σ g_j·c_j = u`), then the gadget product of `g` with the keys has phase
/// `(Σ g_j·A_j)·s + Σ g_j·B_j = M·u + Σ g_j·E_j`.
pub proof fn lemma_switch(
    g: Seq<Seq<int>>,
    a: Seq<Seq<int>>,
    b: Seq<Seq<int>>,
    c: Seq<Seq<int>>,
    e: Seq<Seq<int>>,
    s: Seq<int>,
    m: Seq<int>,
    u: Seq<int>,
    n: int,
    d: nat,
    t: int,
)
    requires
        n > 0,
        0 <= t,
        t <= g.len() && t <= a.len() && t <= b.len() && t <= c.len() && t <= e.len(),
        s.len() == d,
        m.len() == d,
        forall|j: int| 0 <= j < t ==> (#[trigger] g[j]).len() == d && a[j].len() == d && b[j].len() == d && c[j].len() == d && e[j].len() == d,
        forall|j: int| 0 <= j < t ==> ring_add(pt_mul(#[trigger] a[j], s, n), b[j], n) == ring_add(pt_mul(m, c[j], n), e[j], n),
        lin_comb(g, c, n, d, t) == u,
    ensures
        ring_add(pt_mul(lin_comb(g, a, n, d, t), s, n), lin_comb(g, b, n, d, t), n) == ring_add(pt_mul(m, u, n), lin_comb(g, e, n, d, t), n),
{
    let la = lin_comb(g, a, n, d, t);
    let lb = lin_comb(g, b, n, d, t);
    let le = lin_comb(g, e, n, d, t);
    assert forall|q: int| 0 <= q < d implies #[trigger] ring_add(pt_mul(la, s, n), lb, n)[q] == ring_add(pt_mul(m, u, n), le, n)[q] by {
        lemma_lin_comb_entry(g, a, n, d, t, q);
        lemma_lin_comb_entry(g, b, n, d, t, q);
        lemma_lin_comb_entry(g, c, n, d, t, q);
        lemma_lin_comb_entry(g, e, n, d, t, q);
        let fa = |j: int| g[j][q] * a[j][q];
        let fb = |j: int| g[j][q] * b[j][q];
        let fc = |j: int| g[j][q] * c[j][q];
        let fe = |j: int| g[j][q] * e[j][q];
        let fas = |j: int| s[q] * fa(j);
        let lhs_terms = |j: int| fas(j) + 1 * fb(j);
        let rhs_terms = |j: int| fe(j) + m[q] * fc(j);
        // per digit: g·(A·s + B) = g·(M·c + E) modulo n
        lemma_digit_terms(g, a, b, c, e, s, m, n, d, t, q);
        assert forall|j: int| 0 <= j < t implies #[trigger] lhs_terms(j) % n == rhs_terms(j) % n by {
            assert((s[q] * (g[j][q] * a[j][q]) + 1 * (g[j][q] * b[j][q])) % n == (g[j][q] * e[j][q] + m[q] * (g[j][q] * c[j][q])) % n);
        }
        lemma_sum_congr(lhs_terms, rhs_terms, t, n);
        lemma_sum_scale(fa, fas, s[q], t);
        lemma_sum_add_scaled(fas, fb, 1, t);
        lemma_sum_add_scaled(fe, fc, m[q], t);
        let sa = sum(fa, t);
        let sb = sum(fb, t);
        let sc = sum(fc, t);
        let se = sum(fe, t);
        // left: ((Σ gA mod n)·s mod n + Σ gB mod n) mod n = (s·Σ gA + Σ gB) mod n
        lemma_mul_mod_noop_left(sa, s[q], n);
        lemma_mul_is_commutative(sa, s[q]);
        lemma_add_mod_noop(s[q] * sa, sb, n);
        lemma_mod_twice(s[q] * sa, n);
        lemma_add_mod_noop((sa % n * s[q]) % n, sb % n, n);
        lemma_mod_twice(sb, n);
        // right: ((M·(Σ gc mod n)) mod n + Σ gE mod n) mod n = (Σ gE + M·Σ gc) mod n
        lemma_mul_mod_noop_right(m[q], sc, n);
        lemma_add_mod_noop(m[q] * sc, se, n);
        lemma_mod_twice(m[q] * sc, n);
        lemma_mod_twice(se, n);
        lemma_add_mod_noop((m[q] * (sc % n)) % n, se % n, n);
        assert(u[q] == sc % n);
    }
    lemma_lin_comb_len(g, a, n, d, t);
    lemma_lin_comb_len(g, b, n, d, t);
    lemma_lin_comb_len(g, e, n, d, t);
    assert(ring_add(pt_mul(la, s, n), lb, n) =~= ring_add(pt_mul(m, u, n), le, n));
}

/// GSW decryption: if the last `t` columns of `cols` have phases
/// `μ·z^i + E_i` under `s`, then `C·G^-1(0, scale)` has phase
/// `μ·scale + Σ_i digit_i(scale)·E_i`, in each component.
pub proof fn lemma_gsw_decode(
    cols: Seq<RegevCiphertext>,
    s: IntModCycloCRTEval,
    scale: IntModCycloCRTEval,
    mu1: Seq<int>,
    mu2: Seq<int>,
    e1: Seq<Seq<int>>,
    e2: Seq<Seq<int>>,
    z: int,
    t: nat,
)
    requires
        s.wf(),
        scale.wf(),
        scale.params == s.params,
        z >= 2,
        pow(z, t) >= s.params.crt.q(),
        cols.len() == 2 * t,
        cols_wf(cols, s.params),
        mu1.len() == s.params.d,
        mu2.len() == s.params.d,
        e1.len() == t,
        e2.len() == t,
        forall|j: int| 0 <= j < t ==> (#[trigger] e1[j]).len() == s.params.d && e2[j].len() == s.params.d,
        forall|j: int| 0 <= j < t ==> phase1(#[trigger] cols[t + j], s) == ring_add(pt_mul(mu1, gadget_const(z, j, s.params.crt.q(), s.params.n1(), s.params.d as nat), s.params.n1()), e1[j], s.params.n1()),
        forall|j: int| 0 <= j < t ==> phase2(#[trigger] cols[t + j], s) == ring_add(pt_mul(mu2, gadget_const(z, j, s.params.crt.q(), s.params.n2(), s.params.d as nat), s.params.n2()), e2[j], s.params.n2()),
    ensures
        ring_add(pt_mul(select(cols, scale, z, t as int, true, true), s.v1(), s.params.n1()), select(cols, scale, z, t as int, false, true), s.params.n1())
            == ring_add(pt_mul(mu1, scale.v1(), s.params.n1()), lin_comb(gadget_seq(scale.v1(), scale.v2(), s.params, z, t as int, true), e1, s.params.n1(), s.params.d as nat, t as int), s.params.n1()),
        ring_add(pt_mul(select(cols, scale, z, t as int, true, false), s.v2(), s.params.n2()), select(cols, scale, z, t as int, false, false), s.params.n2())
            == ring_add(pt_mul(mu2, scale.v2(), s.params.n2()), lin_comb(gadget_seq(scale.v1(), scale.v2(), s.params, z, t as int, false), e2, s.params.n2(), s.params.d as nat, t as int), s.params.n2()),
{
    let p = s.params;
    let d = p.d as nat;
    let q = p.crt.q();
    let ti = t as int;
    lemma_gadget_recompose(p, scale.v1(), scale.v2(), z, t);
    let g1 = gadget_seq(scale.v1(), scale.v2(), p, z, ti, true);
    let g2 = gadget_seq(scale.v1(), scale.v2(), p, z, ti, false);
    let c1 = Seq::new(t, |i: int| gadget_const(z, i, q, p.n1(), d));
    let c2 = Seq::new(t, |i: int| gadget_const(z, i, q, p.n2(), d));
    let a1 = masks(cols, ti, ti, true);
    let b1 = bodies(cols, ti, ti, true);
    let a2 = masks(cols, ti, ti, false);
    let b2 = bodies(cols, ti, ti, false);
    assert forall|j: int| 0 <= j < ti implies (#[trigger] g1[j]).len() == d && a1[j].len() == d && b1[j].len() == d && c1[j].len() == d && e1[j].len() == d by {
        assert(cols[ti + j].wf_for(p));
    }
    assert forall|j: int| 0 <= j < ti implies (#[trigger] g2[j]).len() == d && a2[j].len() == d && b2[j].len() == d && c2[j].len() == d && e2[j].len() == d by {
        assert(cols[ti + j].wf_for(p));
    }
    assert forall|j: int| 0 <= j < ti implies ring_add(pt_mul(#[trigger] a1[j], s.v1(), p.n1()), b1[j], p.n1()) == ring_add(pt_mul(mu1, c1[j], p.n1()), e1[j], p.n1()) by {
        assert(phase1(cols[ti + j], s) == ring_add(pt_mul(mu1, gadget_const(z, j, q, p.n1(), d), p.n1()), e1[j], p.n1()));
    }
    assert forall|j: int| 0 <= j < ti implies ring_add(pt_mul(#[trigger] a2[j], s.v2(), p.n2()), b2[j], p.n2()) == ring_add(pt_mul(mu2, c2[j], p.n2()), e2[j], p.n2()) by {
        assert(phase2(cols[ti + j], s) == ring_add(pt_mul(mu2, gadget_const(z, j, q, p.n2(), d), p.n2()), e2[j], p.n2()));
    }
    lemma_switch(g1, a1, b1, c1, e1, s.v1(), mu1, scale.v1(), p.n1(), d, ti);
    lemma_switch(g2, a2, b2, c2, e2, s.v2(), mu2, scale.v2(), p.n2(), d, ti);
}

proof fn lemma_rearrange(x: int, y: int, tb: int, pr: int, ns: int, n: int)
    requires
        n > 0,
        (x % n + y) % n == (pr % n + ns) % n,
    ensures
        (x % n + (tb + y) % n) % n == ((pr % n + tb) % n + ns) % n,
{
    let a0 = x % n + y;
    let b0 = pr % n + ns;
    // left side is (a0 + tb) mod n
    lemma_add_mod_noop_right(x % n, tb + y, n);
    assert(x % n + (tb + y) == a0 + tb);
    lemma_add_mod_noop_right(tb, a0, n);
    assert(tb + a0 == a0 + tb);
    // which is (b0 + tb) mod n by the hypothesis
    lemma_add_mod_noop_right(tb, b0, n);
    assert(tb + b0 == b0 + tb);
    // right side is (pr mod n + tb + ns) mod n
    lemma_add_mod_noop_right(ns, pr % n + tb, n);
    assert(ns + (pr % n + tb) == b0 + tb);
}

/// The permuted vector of a reduced vector is reduced.
proof fn lemma_auto_view_ok(p: CycloParams, v: Seq<int>, k: int, first: bool)
    requires
        p.wf(),
        evals_ok(p, v, first),
    ensures
        evals_ok(p, auto_view(v, k, p.d as int), first),
{
    let d = p.d as int;
    assert forall|j: int| 0 <= j < d implies 0 <= #[trigger] auto_index(j, k, d) < d by {
        vstd::arithmetic::div_mod::lemma_mod_bound((2 * j + 1) * k, 2 * d);
    }
}

/// Automorphism with key switching: if key `j` has phase `τ(s)·z^j + E_j`
/// under `s` (`τ` the slot permutation of `x ↦ x^k`), then the switched
/// ciphertext `(Σ g_j·A_j, τ(b) + Σ g_j·B_j)`, `g` the digits of `τ(a)`, has
/// phase `τ(a·s + b) + Σ g_j·E_j`: the automorphism of what `(a, b)`
/// decrypts to, plus the digits times the keys' noise.
pub proof fn lemma_auto_hom_phase(
    s: IntModCycloCRTEval,
    ct: RegevCiphertext,
    keys: Seq<RegevCiphertext>,
    k: int,
    z: int,
    e1: Seq<Seq<int>>,
    e2: Seq<Seq<int>>,
)
    requires
        s.wf(),
        ct.wf_for(s.params),
        cols_wf(keys, s.params),
        z >= 2,
        pow(z, keys.len()) >= s.params.crt.q(),
        e1.len() == keys.len(),
        e2.len() == keys.len(),
        forall|j: int| 0 <= j < keys.len() ==> (#[trigger] e1[j]).len() == s.params.d && e2[j].len() == s.params.d,
        forall|j: int| 0 <= j < keys.len() ==> phase1(#[trigger] keys[j], s) == ring_add(
            pt_mul(auto_view(s.v1(), k, s.params.d as int), gadget_const(z, j, s.params.crt.q(), s.params.n1(), s.params.d as nat), s.params.n1()),
            e1[j],
            s.params.n1(),
        ),
        forall|j: int| 0 <= j < keys.len() ==> phase2(#[trigger] keys[j], s) == ring_add(
            pt_mul(auto_view(s.v2(), k, s.params.d as int), gadget_const(z, j, s.params.crt.q(), s.params.n2(), s.params.d as nat), s.params.n2()),
            e2[j],
            s.params.n2(),
        ),
    ensures
        ({
            let p = s.params;
            let d = p.d as int;
            let t = keys.len() as int;
            let ta1 = auto_view(ct.a.v1(), k, d);
            let ta2 = auto_view(ct.a.v2(), k, d);
            &&& ring_add(
                pt_mul(switched(ta1, ta2, keys, p, z, true, true), s.v1(), p.n1()),
                ring_add(auto_view(ct.b.v1(), k, d), switched(ta1, ta2, keys, p, z, false, true), p.n1()),
                p.n1(),
            ) == ring_add(auto_view(phase1(ct, s), k, d), lin_comb(gadget_seq(ta1, ta2, p, z, t, true), e1, p.n1(), p.d as nat, t), p.n1())
            &&& ring_add(
                pt_mul(switched(ta1, ta2, keys, p, z, true, false), s.v2(), p.n2()),
                ring_add(auto_view(ct.b.v2(), k, d), switched(ta1, ta2, keys, p, z, false, false), p.n2()),
                p.n2(),
            ) == ring_add(auto_view(phase2(ct, s), k, d), lin_comb(gadget_seq(ta1, ta2, p, z, t, false), e2, p.n2(), p.d as nat, t), p.n2())
        }),
{
    let p = s.params;
    let d = p.d as int;
    let dn = p.d as nat;
    let q = p.crt.q();
    let t = keys.len() as int;
    let tn = keys.len();
    let ta1 = auto_view(ct.a.v1(), k, d);
    let ta2 = auto_view(ct.a.v2(), k, d);
    let ts1 = auto_view(s.v1(), k, d);
    let ts2 = auto_view(s.v2(), k, d);
    assert(evals_ok(p, ct.a.v1(), true));
    assert(evals_ok(p, ct.a.v2(), false));
    lemma_auto_view_ok(p, ct.a.v1(), k, true);
    lemma_auto_view_ok(p, ct.a.v2(), k, false);
    lemma_gadget_recompose(p, ta1, ta2, z, tn);
    let g1 = gadget_seq(ta1, ta2, p, z, t, true);
    let g2 = gadget_seq(ta1, ta2, p, z, t, false);
    let c1 = Seq::new(tn, |i: int| gadget_const(z, i, q, p.n1(), dn));
    let c2 = Seq::new(tn, |i: int| gadget_const(z, i, q, p.n2(), dn));
    let a1 = masks(keys, 0, t, true);
    let b1 = bodies(keys, 0, t, true);
    let a2 = masks(keys, 0, t, false);
    let b2 = bodies(keys, 0, t, false);
    assert forall|j: int| 0 <= j < t implies (#[trigger] g1[j]).len() == dn && a1[j].len() == dn && b1[j].len() == dn && c1[j].len() == dn && e1[j].len() == dn by {
        assert(keys[0 + j].wf_for(p));
    }
    assert forall|j: int| 0 <= j < t implies (#[trigger] g2[j]).len() == dn && a2[j].len() == dn && b2[j].len() == dn && c2[j].len() == dn && e2[j].len() == dn by {
        assert(keys[0 + j].wf_for(p));
    }
    assert forall|j: int| 0 <= j < t implies ring_add(pt_mul(#[trigger] a1[j], s.v1(), p.n1()), b1[j], p.n1()) == ring_add(pt_mul(ts1, c1[j], p.n1()), e1[j], p.n1()) by {
        assert(phase1(keys[j], s) == ring_add(pt_mul(ts1, gadget_const(z, j, q, p.n1(), dn), p.n1()), e1[j], p.n1()));
        assert(keys[0 + j] == keys[j]);
    }
    assert forall|j: int| 0 <= j < t implies ring_add(pt_mul(#[trigger] a2[j], s.v2(), p.n2()), b2[j], p.n2()) == ring_add(pt_mul(ts2, c2[j], p.n2()), e2[j], p.n2()) by {
        assert(phase2(keys[j], s) == ring_add(pt_mul(ts2, gadget_const(z, j, q, p.n2(), dn), p.n2()), e2[j], p.n2()));
        assert(keys[0 + j] == keys[j]);
    }
    assert(ts1.len() == dn);
    assert(ts2.len() == dn);
    lemma_switch(g1, a1, b1, c1, e1, s.v1(), ts1, ta1, p.n1(), dn, t);
    lemma_switch(g2, a2, b2, c2, e2, s.v2(), ts2, ta2, p.n2(), dn, t);
    let sa1 = lin_comb(g1, a1, p.n1(), dn, t);
    let sb1 = lin_comb(g1, b1, p.n1(), dn, t);
    let ne1 = lin_comb(g1, e1, p.n1(), dn, t);
    let sa2 = lin_comb(g2, a2, p.n2(), dn, t);
    let sb2 = lin_comb(g2, b2, p.n2(), dn, t);
    let ne2 = lin_comb(g2, e2, p.n2(), dn, t);
    lemma_lin_comb_len(g1, a1, p.n1(), dn, t);
    lemma_lin_comb_len(g1, b1, p.n1(), dn, t);
    lemma_lin_comb_len(g1, e1, p.n1(), dn, t);
    lemma_lin_comb_len(g2, a2, p.n2(), dn, t);
    lemma_lin_comb_len(g2, b2, p.n2(), dn, t);
    lemma_lin_comb_len(g2, e2, p.n2(), dn, t);
    let tb1 = auto_view(ct.b.v1(), k, d);
    let tb2 = auto_view(ct.b.v2(), k, d);
    let lhs1 = ring_add(pt_mul(sa1, s.v1(), p.n1()), ring_add(tb1, sb1, p.n1()), p.n1());
    let rhs1 = ring_add(auto_view(phase1(ct, s), k, d), ne1, p.n1());
    assert forall|qq: int| 0 <= qq < d implies #[trigger] lhs1[qq] == rhs1[qq] by {
        let idx = auto_index(qq, k, d);
        vstd::arithmetic::div_mod::lemma_mod_bound((2 * qq + 1) * k, 2 * d);
        assert(ring_add(pt_mul(sa1, s.v1(), p.n1()), sb1, p.n1())[qq] == ring_add(pt_mul(ts1, ta1, p.n1()), ne1, p.n1())[qq]);
        lemma_mul_is_commutative(ct.a.v1()[idx], s.v1()[idx]);
        lemma_rearrange(sa1[qq] * s.v1()[qq], sb1[qq], tb1[qq], ts1[qq] * ta1[qq], ne1[qq], p.n1());
    }
    assert(lhs1 =~= rhs1);
    let lhs2 = ring_add(pt_mul(sa2, s.v2(), p.n2()), ring_add(tb2, sb2, p.n2()), p.n2());
    let rhs2 = ring_add(auto_view(phase2(ct, s), k, d), ne2, p.n2());
    assert forall|qq: int| 0 <= qq < d implies #[trigger] lhs2[qq] == rhs2[qq] by {
        let idx = auto_index(qq, k, d);
        vstd::arithmetic::div_mod::lemma_mod_bound((2 * qq + 1) * k, 2 * d);
        assert(ring_add(pt_mul(sa2, s.v2(), p.n2()), sb2, p.n2())[qq] == ring_add(pt_mul(ts2, ta2, p.n2()), ne2, p.n2())[qq]);
        lemma_mul_is_commutative(ct.a.v2()[idx], s.v2()[idx]);
        lemma_rearrange(sa2[qq] * s.v2()[qq], sb2[qq], tb2[qq], ts2[qq] * ta2[qq], ne2[qq], p.n2());
    }
    assert(lhs2 =~= rhs2);
}

} // verus!
