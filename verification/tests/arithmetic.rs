use zk_arith::field::Fp;
use zk_arith::poly::{compute_inner_product, eval_polynomial, evaluate_vanishing_polynomial,
    kate_division, powers};
use zk_arith::interpolate::{batch_invert, lagrange_interpolate};

fn fp(v: u64) -> Fp {
    Fp::new(v)
}

fn fpvec(vs: &[u64]) -> Vec<Fp> {
    vs.iter().map(|&v| Fp::new(v)).collect()
}

#[test]
fn test_lagrange_interpolate() {
    // five fixed pairwise-distinct points with arbitrary evaluations
    let points = fpvec(&[7, 13, 101, 200, 256]);
    let evals = fpvec(&[5, 88, 31, 250, 9]);

    for coeffs in 0..5 {
        let points = points[0..coeffs].to_vec();
        let evals = evals[0..coeffs].to_vec();

        let poly = lagrange_interpolate(&points, &evals);
        assert_eq!(poly.len(), points.len());

        for (point, eval) in points.iter().zip(evals.iter()) {
            assert_eq!(eval_polynomial(&poly, *point), *eval);
        }
    }
}

#[test]
fn interpolate_squares() {
    // points 1, 2, 3 with evaluations 1, 4, 9 give exactly X^2
    let points = fpvec(&[1, 2, 3]);
    let evals = fpvec(&[1, 4, 9]);
    let poly = lagrange_interpolate(&points, &evals);
    assert_eq!(poly, fpvec(&[0, 0, 1]));
    assert_eq!(eval_polynomial(&poly, fp(5)), fp(25));
}

#[test]
fn interpolate_single_point() {
    let poly = lagrange_interpolate(&fpvec(&[42]), &fpvec(&[17]));
    assert_eq!(poly, fpvec(&[17]));
    assert_eq!(eval_polynomial(&poly, fp(9)), fp(17));
}

#[test]
fn field_ops_wrap_at_modulus() {
    assert_eq!(fp(200).add(fp(100)), fp(43));
    assert_eq!(fp(1).sub(fp(2)), fp(256));
    assert_eq!(fp(16).mul(fp(17)), fp(15)); // 272 - 257
    assert_eq!(fp(0).neg(), fp(0));
    assert_eq!(fp(5).neg(), fp(252));
    assert_eq!(Fp::new(300), fp(43));
}

#[test]
fn field_inverse_and_pow() {
    assert_eq!(fp(3).invert(), fp(86));
    assert_eq!(fp(2).invert(), fp(129));
    for v in 1..=256u64 {
        let inv = fp(v).invert();
        assert_eq!(fp(v).mul(inv), fp(1));
    }
    assert_eq!(fp(3).pow(4), fp(81));
    assert_eq!(fp(3).pow(0), fp(1));
    assert_eq!(fp(3).pow(256), fp(1));
    assert_eq!(fp(3).pow(128), fp(256));
}

#[test]
fn field_constants() {
    assert_eq!(Fp::two_inv(), fp(129));
    assert_eq!(Fp::root_of_unity(), fp(3));
    assert_eq!(Fp::root_of_unity_inv(), fp(86));
    assert_eq!(Fp::root_of_unity().mul(Fp::root_of_unity_inv()), fp(1));
}

#[test]
fn canonical_byte_layout() {
    let r = fp(43).to_repr();
    assert_eq!(r, vec![43u8, 0, 0, 0, 0, 0, 0, 0]);
    let r = fp(256).to_repr();
    assert_eq!(r, vec![0u8, 1, 0, 0, 0, 0, 0, 0]);
}

#[test]
fn eval_polynomial_exact() {
    // 1 + 2x + 3x^2 at 2 is 17
    let poly = fpvec(&[1, 2, 3]);
    assert_eq!(eval_polynomial(&poly, fp(2)), fp(17));
    // the split strategy: a longer polynomial, checked against Horner by hand
    let coeffs: Vec<u64> = (1..=10).collect();
    let poly = fpvec(&coeffs);
    let x = 3u64;
    let mut expected = 0u64;
    for &c in coeffs.iter().rev() {
        expected = (expected * x + c) % 257;
    }
    assert_eq!(eval_polynomial(&poly, fp(x)), fp(expected));
    assert_eq!(eval_polynomial(&fpvec(&[]), fp(5)), fp(0));
}

#[test]
fn inner_product_exact() {
    let a = fpvec(&[1, 2]);
    let b = fpvec(&[3, 4]);
    assert_eq!(compute_inner_product(&a, &b), fp(11));
}

#[test]
fn kate_division_divides_exactly() {
    // p = (X - 2)(X - 3) = 6 - 5X + X^2
    let p = fpvec(&[6, 252, 1]);
    let q = kate_division(&p, fp(2));
    assert_eq!(q.len(), p.len() - 1);
    // quotient is X - 3
    assert_eq!(q, fpvec(&[254, 1]));
    // spot-check p(x) == q(x) * (x - 2) at several samples
    for x in [0u64, 1, 5, 100, 256] {
        let px = eval_polynomial(&p, fp(x));
        let qx = eval_polynomial(&q, fp(x));
        assert_eq!(px, qx.mul(fp(x).sub(fp(2))));
    }
}

#[test]
fn vanishing_polynomial_zero_iff_root() {
    let roots = fpvec(&[1, 2, 3]);
    assert_eq!(evaluate_vanishing_polynomial(&roots, fp(2)), fp(0));
    // (5-1)(5-2)(5-3) = 24
    assert_eq!(evaluate_vanishing_polynomial(&roots, fp(5)), fp(24));
    // the split strategy on a longer root list
    let many: Vec<u64> = (1..=10).collect();
    let roots = fpvec(&many);
    assert_eq!(evaluate_vanishing_polynomial(&roots, fp(7)), fp(0));
    let v = evaluate_vanishing_polynomial(&roots, fp(20));
    assert_ne!(v, fp(0));
    assert_eq!(evaluate_vanishing_polynomial(&fpvec(&[]), fp(9)), fp(1));
}

#[test]
fn powers_start_at_one() {
    let p = powers(fp(2), 5);
    assert_eq!(p, fpvec(&[1, 2, 4, 8, 16]));
    assert_eq!(powers(fp(3), 0).len(), 0);
}

#[test]
fn batch_invert_inverts_everything() {
    let v = fpvec(&[2, 3, 4, 100, 256]);
    let inv = batch_invert(&v);
    assert_eq!(inv.len(), v.len());
    for (a, b) in v.iter().zip(inv.iter()) {
        assert_eq!(a.mul(*b), fp(1));
    }
}
