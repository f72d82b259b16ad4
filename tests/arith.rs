use respire::crt::{crt_reconstruct, ConfigError, CrtParams};
use respire::cyclo::IntModCyclo;
use respire::gadget::{decompose, gadget_base};
use respire::modular::{add_mod, inv_mod, mul_mod, neg_mod, pow_mod, sub_mod};
use respire::ntt::{eval_at, ntt_forward, ntt_inverse};
use respire::params::{verify_int_params, IntParams};

#[test]
fn modular_basics() {
    assert_eq!(add_mod(5, 9, 11), 3);
    assert_eq!(sub_mod(2, 9, 11), 4);
    assert_eq!(neg_mod(0, 11), 0);
    assert_eq!(neg_mod(3, 11), 8);
    assert_eq!(mul_mod(u64::MAX - 1, u64::MAX - 1, u64::MAX), 1);
    assert_eq!(pow_mod(3, 4, 7), 4);
    assert_eq!(pow_mod(5, 0, 7), 1);
    assert_eq!(pow_mod(5, 0, 1), 0);
}

#[test]
fn inverse_exists_iff_coprime() {
    assert_eq!(inv_mod(3, 7), Some(5));
    assert_eq!(inv_mod(1, 2), Some(1));
    assert_eq!(inv_mod(4, 8), None);
    assert_eq!(inv_mod(0, 7), None);
    let n = 268369921u64;
    let x = 123456789u64;
    let y = inv_mod(x, n).unwrap();
    assert_eq!(mul_mod(x, y, n), 1);
}

#[test]
fn crt_round_trip_values() {
    let p = CrtParams::new(268369921, 249561089).unwrap();
    let q = 268369921u64 * 249561089u64;
    for x in [0u64, 1, 12345678901234, q - 1, q / 2, 268369921, 249561089 * 3 + 7] {
        assert_eq!(crt_reconstruct(x % p.n1, x % p.n2, &p), x);
    }
    let small = CrtParams::new(3, 5).unwrap();
    assert_eq!((small.n1_inv, small.n2_inv), (2, 2));
    for x in 0..15u64 {
        assert_eq!(crt_reconstruct(x % 3, x % 5, &small), x);
    }
}

#[test]
fn crt_rejects_bad_moduli() {
    assert_eq!(CrtParams::new(6, 9), Err(ConfigError::NotCoprime));
    assert_eq!(CrtParams::new(1, 9), Err(ConfigError::ModulusOutOfRange));
    assert_eq!(CrtParams::new(7, 1 << 33), Err(ConfigError::ModulusOutOfRange));
}

#[test]
fn gadget_digits_recombine() {
    let x = 987654321u64;
    let d = decompose(x, 16, 8);
    assert_eq!(d, vec![1, 11, 8, 6, 14, 13, 10, 3]);
    let mut acc = 0u64;
    let mut pw = 1u64;
    for digit in &d {
        acc += digit * pw;
        pw *= 16;
    }
    assert_eq!(acc, x);
    // too few digits keep x mod B^LEN
    let short = decompose(x, 16, 3);
    assert_eq!(short[0] + short[1] * 16 + short[2] * 256, x % 4096);
    assert_eq!(decompose(5, 2, 0), Vec::<u64>::new());
}

#[test]
fn gadget_base_is_least() {
    let q = 268369921u64 * 249561089u64;
    assert_eq!(gadget_base(q, 8), 127);
    assert_eq!(gadget_base(100, 2), 10);
    assert_eq!(gadget_base(101, 2), 11);
    assert_eq!(gadget_base(3, 5), 2);
    assert_eq!(gadget_base(1000, 1), 1000);
}

#[test]
fn ntt_round_trip_small() {
    // n = 17, D = 4: w = 2 has 2^4 = 16 = -1
    let n = 17u64;
    let w = 2u64;
    let w_inv = inv_mod(w, n).unwrap();
    let d_inv = inv_mod(4, n).unwrap();
    for c in [vec![1u64, 2, 3, 4], vec![0, 0, 0, 0], vec![16, 0, 5, 1]] {
        let p = ntt_forward(&c, w, n);
        assert_eq!(ntt_inverse(&p, w_inv, d_inv, n), c);
    }
    // the transform of 1 + x is 1 + w^(2j+1)
    assert_eq!(ntt_forward(&vec![1, 1, 0, 0], w, n), vec![3, 9, 16, 10]);
    assert_eq!(eval_at(&vec![1, 1, 1], 3, 17), 13);
}

#[test]
fn cyclo_ring_laws_on_values() {
    let n = 17u64;
    let a = IntModCyclo::from_coeffs(n, &vec![1, 2, 3, 4]);
    let b = IntModCyclo::from_coeffs(n, &vec![5, 0, 16, 2]);
    let c = IntModCyclo::from_coeffs(n, &vec![9, 9, 1, 0]);
    assert_eq!(a.add(&b).add(&c), a.add(&b.add(&c)));
    assert_eq!(a.add(&a.neg()), IntModCyclo::zero(n, 4));
    assert_eq!(a.mul(&IntModCyclo::one(n, 4)), a);
    assert_eq!(a.mul(&b), b.mul(&a));
    assert_eq!(a.sub(&b), a.add(&b.neg()));
    // x^3 · x = x^4 = -1
    let x3 = IntModCyclo::from_coeffs(n, &vec![0, 0, 0, 1]);
    let x1 = IntModCyclo::from_coeffs(n, &vec![0, 1, 0, 0]);
    assert_eq!(x3.mul(&x1).coeff, vec![16, 0, 0, 0]);
    // coefficients are reduced on the way in
    assert_eq!(IntModCyclo::from_coeffs(n, &vec![18, 34, 0, 1]).coeff, vec![1, 0, 0, 1]);
}

#[test]
fn int_params_validation() {
    let dumb = IntParams {
        N: 5,
        M: 140,
        P: 10,
        Q: 268369921,
        G_BASE: 2,
        G_LEN: 28,
        N_MINUS_1: 4,
        NOISE_WIDTH_MILLIONTHS: 6_400_000,
    };
    assert_eq!(verify_int_params(&dumb), Ok(()));
    assert_eq!(verify_int_params(&IntParams { G_LEN: 27, ..dumb }), Err(ConfigError::GadgetTooShort));
    assert_eq!(verify_int_params(&IntParams { M: 139, ..dumb }), Err(ConfigError::DimensionMismatch));
    assert_eq!(verify_int_params(&IntParams { N_MINUS_1: 3, ..dumb }), Err(ConfigError::DimensionMismatch));
    assert_eq!(verify_int_params(&IntParams { P: 268369922, ..dumb }), Err(ConfigError::PlaintextTooLarge));
    assert_eq!(verify_int_params(&IntParams { G_BASE: 1, ..dumb }), Err(ConfigError::GadgetTooShort));
}
