use rand::SeedableRng;
use rand_chacha::ChaCha20Rng;
use respire::crt::ConfigError;
use respire::crt_eval::{CycloParams, IntModCycloCRTEval};
use respire::cyclo::IntModCyclo;
use respire::params::{find_root, has_avx2, FactoryParams, RespireParams, RespireParamsExpanded};
use respire::respire::{Respire, RegevCiphertext};
use respire::sample::{uniform_vec, zero_one_vec, DiscreteGaussian};

fn test_factory() -> FactoryParams {
    FactoryParams {
        BATCH_SIZE: 1,
        N_VEC: 1,
        P: 16,
        D_RECORD: 512,
        NU1: 9,
        NU2: 9,
        Q_SWITCH1: 8 * 16,
        Q_SWITCH2: 1032193,
        D_SWITCH: 512,
        WIDTH_SWITCH_MILLIONTHS: 46_000_000,
    }
}

fn test_params() -> RespireParamsExpanded {
    test_factory().expand().expand().unwrap()
}

/// The discrete Gaussian `exp(-π x² / w²)` with `w` given in millionths,
/// cut at six standard deviations.
fn gaussian(width_millionths: u64) -> DiscreteGaussian {
    let w = width_millionths as f64 / 1_000_000.0;
    let sigma = w / (2.0 * std::f64::consts::PI).sqrt();
    let bound = (6.0 * sigma).ceil() as u64 + 1;
    let weights: Vec<f64> = (0..2 * bound + 1)
        .map(|i| {
            let x = i as f64 - bound as f64;
            (-std::f64::consts::PI * x * x / (w * w)).exp()
        })
        .collect();
    let total: f64 = weights.iter().sum();
    let mut acc = 0.0;
    let mut cdf = Vec::with_capacity(weights.len());
    for wt in &weights {
        acc += wt / total;
        cdf.push(if acc >= 1.0 { u64::MAX } else { (acc * u64::MAX as f64) as u64 });
    }
    *cdf.last_mut().unwrap() = u64::MAX;
    DiscreteGaussian::new(bound, cdf).unwrap()
}

fn setup(seed: u64) -> (Respire, ChaCha20Rng) {
    let params = test_params();
    let scheme = Respire::new(&params, gaussian(params.base.ERROR_WIDTH_MILLIONTHS)).unwrap();
    (scheme, ChaCha20Rng::seed_from_u64(seed))
}

fn constant(n: u64, d: usize, v: u64) -> IntModCyclo {
    let mut c = vec![0u64; d];
    c[0] = v;
    IntModCyclo::from_coeffs(n, &c)
}

#[test]
fn test_regev() {
    let (scheme, mut rng) = setup(1);
    let d = scheme.ring.d;
    let s = scheme.encode_setup(&mut rng);
    let mu = constant(16, d, 12);
    let encoded = scheme.encode_regev(&mut rng, &s, &scheme.scale_up(&mu));
    let decoded = scheme.round_down(&scheme.decode_regev(&s, &encoded), 16);
    assert_eq!(mu, decoded);
}

#[test]
fn test_gsw() {
    let (scheme, mut rng) = setup(2);
    let d = scheme.ring.d;
    let s = scheme.encode_setup(&mut rng);
    let mu = constant(1024, d, 111);
    let encrypt = scheme.encode_gsw(&mut rng, &s, &scheme.embed(&mu));

    let scale = IntModCycloCRTEval::from_u64(&scheme.ring, scheme.params.Q / 1024);
    let decrypt = scheme.decode_gsw_scaled(&s, &encrypt, &scale);
    assert_eq!(scheme.round_down(&decrypt, 1024), mu);
}

#[test]
fn test_auto_hom() {
    let (scheme, mut rng) = setup(3);
    let d = scheme.ring.d;
    let s = scheme.encode_setup(&mut rng);
    let auto_key = scheme.auto_setup(&mut rng, 3, scheme.params.base.T_AUTO_REGEV, scheme.params.Z_AUTO_REGEV, &s);
    let mut xc = vec![0u64; d];
    xc[1] = 1;
    let x = IntModCyclo::from_coeffs(16, &xc);
    let encrypt = scheme.encode_regev(&mut rng, &s, &scheme.scale_up(&x));
    let encrypt_auto = scheme.auto_hom(&auto_key, &encrypt);
    let decrypt = scheme.round_down(&scheme.decode_regev(&s, &encrypt_auto), 16);
    assert_eq!(decrypt, x.mul(&x).mul(&x));
}

#[test]
fn test_regev_to_gsw() {
    let (scheme, mut rng) = setup(4);
    let d = scheme.ring.d;
    let s = scheme.encode_setup(&mut rng);
    let s_regev_to_gsw = scheme.regev_to_gsw_setup(&mut rng, &s);
    let mu = constant(1024, d, 567);
    let mut mu_curr = scheme.embed(&mu);
    let z = IntModCycloCRTEval::from_u64(&scheme.ring, scheme.params.Z_GSW);
    let mut encrypt_vec: Vec<RegevCiphertext> = Vec::with_capacity(scheme.params.base.T_GSW);
    for _ in 0..scheme.params.base.T_GSW {
        encrypt_vec.push(scheme.encode_regev(&mut rng, &s, &mu_curr));
        mu_curr.mul_assign(&z);
    }
    let encrypt_gsw = scheme.regev_to_gsw(&s_regev_to_gsw, &encrypt_vec);

    let scale = IntModCycloCRTEval::from_u64(&scheme.ring, scheme.params.Q / 1024);
    let decrypted = scheme.decode_gsw_scaled(&s, &encrypt_gsw, &scale);
    assert_eq!(scheme.round_down(&decrypted, 1024), mu);
}

fn scal_to_vec_round(seed: u64, n_vec: usize) {
    let (scheme, mut rng) = setup(seed);
    let d = scheme.ring.d;
    let s_scal = scheme.encode_setup(&mut rng);
    let s_vec = scheme.encode_vec_setup(&mut rng, n_vec);
    let s_scal_to_vec = scheme.scal_to_vec_setup(&mut rng, &s_scal, &s_vec);

    let mut cs: Vec<RegevCiphertext> = Vec::with_capacity(n_vec);
    let mut expected: Vec<IntModCyclo> = Vec::with_capacity(n_vec);
    for i in 0..n_vec {
        let mu = constant(16, d, i as u64 + 1);
        expected.push(mu.clone());
        cs.push(scheme.encode_regev(&mut rng, &s_scal, &scheme.scale_up(&mu)));
    }

    let c_vec = scheme.scal_to_vec(&s_scal_to_vec, &cs);
    let decoded = scheme.decode_vec_regev(&s_vec, &c_vec);
    let actual: Vec<IntModCyclo> = decoded.iter().map(|r| scheme.round_down(r, 16)).collect();
    assert_eq!(expected, actual);
}

#[test]
fn test_scal_to_vec() {
    let n_vec = test_params().base.N_VEC;
    scal_to_vec_round(6, n_vec);
}

#[test]
fn scal_to_vec_three_slots() {
    scal_to_vec_round(7, 3);
}

#[test]
fn regev_many_seeds_decode_exactly() {
    let (scheme, mut rng) = setup(5);
    let d = scheme.ring.d;
    for trial in 0..3u64 {
        let s = scheme.encode_setup(&mut rng);
        let mut c = vec![0u64; d];
        for (i, v) in c.iter_mut().enumerate() {
            *v = (i as u64 * 7 + trial) % 16;
        }
        let mu = IntModCyclo::from_coeffs(16, &c);
        let ct = scheme.encode_regev(&mut rng, &s, &scheme.scale_up(&mu));
        let dec = scheme.decode_regev(&s, &ct);
        assert!(dec.sub(&scheme.scale_up(&mu)).norm() <= 40 * 2048);
        assert_eq!(scheme.round_down(&dec, 16), mu);
    }
}

#[test]
fn regev_decodes_over_many_seeds_small_ring() {
    // Q = 97 · 193 with D = 16: both moduli are 1 mod 2D
    let base = RespireParams { Q_A: 97, Q_B: 193, D: 16, P: 4, ..test_factory().expand() };
    let params = base.expand().unwrap();
    let scheme = Respire::new(&params, gaussian(params.base.ERROR_WIDTH_MILLIONTHS)).unwrap();
    let mut mismatches = 0;
    for seed in 0..300u64 {
        let mut rng = ChaCha20Rng::seed_from_u64(seed);
        let s = scheme.encode_setup(&mut rng);
        let c: Vec<u64> = (0..16).map(|i| (i * 3 + seed) % 4).collect();
        let mu = IntModCyclo::from_coeffs(4, &c);
        let ct = scheme.encode_regev(&mut rng, &s, &scheme.scale_up(&mu));
        if scheme.round_down(&scheme.decode_regev(&s, &ct), 4) != mu {
            mismatches += 1;
        }
    }
    assert_eq!(mismatches, 0);
}

#[test]
fn factory_expand_and_derived_parameters() {
    let r: RespireParams = test_factory().expand();
    assert_eq!((r.Q_A, r.Q_B, r.D, r.T_GSW, r.T_REGEV_TO_GSW, r.T_AUTO_REGEV), (268369921, 249561089, 2048, 8, 4, 3));
    assert_eq!((r.P, r.SECRET_BOUND, r.ERROR_WIDTH_SWITCH_MILLIONTHS), (16, 7, 46_000_000));
    let e = r.expand().unwrap();
    assert_eq!(e.Q, 268369921u64 * 249561089);
    assert_eq!(e.Z_GSW, 127);
    assert_eq!(e.Z_REGEV_TO_GSW, 16088);
    assert_eq!(e.Z_AUTO_REGEV, 406104);
    let mut bad = r;
    bad.P = e.Q + 1;
    assert_eq!(bad.expand(), Err(ConfigError::PlaintextTooLarge));
    bad = r;
    bad.T_GSW = 0;
    assert_eq!(bad.expand(), Err(ConfigError::GadgetTooShort));
    bad = r;
    bad.Q_A = 1;
    assert_eq!(bad.expand(), Err(ConfigError::ModulusOutOfRange));
    assert!(!has_avx2());
}

#[test]
fn cyclo_params_validation() {
    let w1 = find_root(4, 17).unwrap();
    assert_eq!((w1 * w1 % 17) * (w1 * w1 % 17) % 17, 16);
    assert_eq!(find_root(4, 19), None);
    let w2 = find_root(4, 41).unwrap();
    assert!(CycloParams::new(4, 17, 41, w1, w2).is_ok());
    assert_eq!(CycloParams::new(3, 17, 41, w1, w2), Err(ConfigError::DegreeNotPowerOfTwo));
    assert_eq!(CycloParams::new(4, 17, 41, 3, w2), Err(ConfigError::BadRootOfUnity));
    assert_eq!(CycloParams::new(4, 17, 34, w1, w2), Err(ConfigError::NotCoprime));
}

#[test]
fn crt_eval_small_ring() {
    let w1 = find_root(4, 17).unwrap();
    let w2 = find_root(4, 41).unwrap();
    let p = CycloParams::new(4, 17, 41, w1, w2).unwrap();
    let a = IntModCycloCRTEval::from_q_coeffs(&p, &vec![1, 2, 3, 4]);
    let b = IntModCycloCRTEval::from_q_coeffs(&p, &vec![0, 1, 0, 0]);
    // x·(1 + 2x + 3x^2 + 4x^3) = -4 + x + 2x^2 + 3x^3
    let q = 17 * 41;
    assert_eq!(a.mul(&b).to_q_coeffs(), vec![q - 4, 1, 2, 3]);
    assert_eq!(a.mul_x_pow(1).to_q_coeffs(), vec![q - 4, 1, 2, 3]);
    assert_eq!(a.to_q_coeffs(), vec![1, 2, 3, 4]);
    assert_eq!(a.norm(), 4);
    assert_eq!(a.neg().norm(), 4);
    // x ↦ x^3: 1 + 2x^3 + 3x^6 + 4x^9 = 1 + 4x - 3x^2 + 2x^3
    assert_eq!(a.auto(3).to_q_coeffs(), vec![1, 4, q - 3, 2]);
    // digits of each coefficient in base 2
    let digits = a.decompose(2, 3);
    assert_eq!(digits[0].to_q_coeffs(), vec![1, 0, 1, 0]);
    assert_eq!(digits[1].to_q_coeffs(), vec![0, 1, 1, 0]);
    assert_eq!(digits[2].to_q_coeffs(), vec![0, 0, 0, 1]);
    // deferred accumulation agrees with the reduced one
    let mut lazy = IntModCycloCRTEval::zero(&p);
    let mut eager = IntModCycloCRTEval::zero(&p);
    for _ in 0..3 {
        lazy.add_eq_mul_lazy(&a, &b);
        eager.add_eq_mul(&a, &b);
    }
    IntModCycloCRTEval::reduce_mod(&mut lazy);
    assert_eq!(lazy.p1, eager.p1);
    assert_eq!(lazy.p2, eager.p2);
    let mut c = a.duplicate();
    c.add_assign(&b);
    c.sub_assign(&b);
    assert_eq!(c.p1, a.p1);
    let signed = IntModCycloCRTEval::from_signed(&p, &vec![-1, 0, 2, -3]);
    assert_eq!(signed.to_q_coeffs(), vec![q - 1, 0, 2, q - 3]);
    assert_eq!(IntModCycloCRTEval::one(&p).to_q_coeffs(), vec![1, 0, 0, 0]);
}

#[test]
fn samplers_stay_in_range() {
    let mut rng = ChaCha20Rng::seed_from_u64(9);
    let u = uniform_vec(&mut rng, 10, 200);
    assert!(u.iter().all(|&v| v < 10));
    assert!(u.iter().any(|&v| v != u[0]));
    let z = zero_one_vec(&mut rng, 200);
    assert!(z.iter().all(|&v| v == 0 || v == 1));
    assert!(z.contains(&0) && z.contains(&1));
    let g = gaussian(9_900_000);
    let e = g.sample_vec(&mut rng, 2000);
    assert!(e.iter().all(|&v| v.unsigned_abs() <= g.bound));
    assert!(e.iter().any(|&v| v != 0));
    assert_eq!(g.value_of(0), -(g.bound as i64) + first_positive(&g.cdf) as i64);
    assert_eq!(g.value_of(u64::MAX), g.bound as i64);
    assert!(DiscreteGaussian::new(1, vec![5, 3, 9]).is_none());
    assert!(DiscreteGaussian::new(1, vec![1, 2]).is_none());
}

fn first_positive(cdf: &[u64]) -> usize {
    cdf.iter().position(|&c| c > 0).unwrap()
}

#[test]
fn respire_new_finds_the_roots() {
    let params = test_params();
    let scheme = Respire::new(&params, gaussian(params.base.ERROR_WIDTH_MILLIONTHS)).unwrap();
    assert_eq!(Some(scheme.ring.w1), find_root(2048, 268369921));
    assert_eq!(Some(scheme.ring.w2), find_root(2048, 249561089));
    assert_eq!((scheme.ring.crt.n1, scheme.ring.crt.n2, scheme.ring.d), (268369921, 249561089, 2048));
    assert!(scheme.margin_ok());
    // a modulus with no 4096-th root of unity is rejected
    let mut bad = test_factory().expand();
    bad.Q_B = 249561091;
    let bad = bad.expand().unwrap();
    assert!(Respire::new(&bad, gaussian(bad.base.ERROR_WIDTH_MILLIONTHS)).is_err());
}

#[test]
fn margin_rejects_wide_noise() {
    let base = RespireParams { Q_A: 97, Q_B: 193, D: 16, P: 100, ..test_factory().expand() };
    let params = base.expand().unwrap();
    let scheme = Respire::new(&params, gaussian(params.base.ERROR_WIDTH_MILLIONTHS)).unwrap();
    assert!(!scheme.margin_ok());
}
