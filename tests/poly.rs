use respire::poly::PolyU32;

const P: u32 = PolyU32::<0>::P;

#[test]
fn test_new() {
    let p = PolyU32::<{ PolyU32::<0>::P }>::new(vec![42, 6, 1, 0, 0, 0]);
    let q = PolyU32::<{ PolyU32::<0>::P }>::new(vec![42, 6, 1, 0]);
    let r = PolyU32::<{ PolyU32::<0>::P }>::new(vec![42, 6, 1]);

    assert_eq!(p, q);
    assert_eq!(p, r);
    assert_eq!(q, r);
}

#[test]
fn test_eval() {
    let p = PolyU32::<P>::new(vec![5, 3, 1]);

    assert_eq!(p.eval(P - 3), 5);
    assert_eq!(p.eval(P - 2), 3);
    assert_eq!(p.eval(P - 1), 3);
    assert_eq!(p.eval(0), 5);
    assert_eq!(p.eval(1), 9);
    assert_eq!(p.eval(2), 15);
    assert_eq!(p.eval(3), 23);
}

#[test]
fn test_mul() {
    let p = PolyU32::<P>::new(vec![5, 3, 1]);
    let q = PolyU32::<P>::new(vec![P - 4, 2, 1]);
    let r = PolyU32::<P>::new(vec![P - 20, P - 2, 7, 5, 1]);

    assert_eq!(p.mul(&q), r);
}

#[test]
fn poly_constants_and_empty() {
    assert_eq!(P, 4294967291);
    // zero keeps its single coefficient, while `new` drops trailing zeros
    assert_ne!(PolyU32::<7>::zero(), PolyU32::<7>::new(vec![0]));
    assert_eq!(PolyU32::<7>::zero().eval(3), 0);
    assert_eq!(PolyU32::<7>::one().eval(5), 1);
    assert_eq!(PolyU32::<7>::new(vec![0, 0]), PolyU32::<7>::new(vec![]));
    // 3 + 4x at x = 2 is 11 = 4 mod 7
    assert_eq!(PolyU32::<7>::new(vec![3, 4]).eval(2), 4);
    // (1 + x)(1 + 6x) = 1 + 7x + 6x^2 = 1 + 6x^2 mod 7
    let prod = PolyU32::<7>::new(vec![1, 1]).mul(&PolyU32::<7>::new(vec![1, 6]));
    assert_eq!(prod, PolyU32::<7>::new(vec![1, 0, 6]));
    // a product with the empty polynomial is empty
    assert_eq!(PolyU32::<7>::new(vec![1, 2]).mul(&PolyU32::<7>::new(vec![])), PolyU32::<7>::new(vec![]));
}

#[test]
fn poly_mul_commutes_and_has_unit() {
    let p = PolyU32::<P>::new(vec![5, 3, 1]);
    let q = PolyU32::<P>::new(vec![P - 4, 2, 1, 9]);
    assert_eq!(p.mul(&q), q.mul(&p));
    assert_eq!(p.mul(&PolyU32::one()), p);
    assert_eq!(q.mul(&PolyU32::one()), q);
}
