use gkr::field::FieldElem;
use gkr::mle::{DenseMultilinearExtension, PolyError};
use gkr::random::{next_challenge, random_mle_list};
use gkr::virtual_poly::{build_eq_x_r, build_eq_x_r_for_test, VirtualPolynomial};
use rand::rngs::StdRng;
use rand::SeedableRng;

fn random_point(nv: usize, rng: &mut StdRng) -> Vec<FieldElem> {
    let mut point = Vec::new();
    for _ in 0..nv {
        point.push(next_challenge(rng));
    }
    point
}

#[test]
fn test_virtual_polynomial_additions() {
    let mut rng = StdRng::seed_from_u64(17);
    for nv in 2..5 {
        for num_products in 2..5 {
            let base = random_point(nv, &mut rng);

            let (a, _a_sum) = VirtualPolynomial::random(nv, (2, 3), num_products, &mut rng);
            let (b, _b_sum) = VirtualPolynomial::random(nv, (2, 3), num_products, &mut rng);
            let c = a.add(&b).unwrap();

            assert_eq!(
                a.evaluate(&base).unwrap().add(b.evaluate(&base).unwrap()),
                c.evaluate(&base).unwrap()
            );
        }
    }
}

#[test]
fn test_virtual_polynomial_mul_by_mle() {
    let mut rng = StdRng::seed_from_u64(23);
    for nv in 2..5 {
        for num_products in 2..5 {
            let base = random_point(nv, &mut rng);

            let (a, _a_sum) = VirtualPolynomial::random(nv, (2, 3), num_products, &mut rng);
            let b = random_mle_list(nv, 1, &mut rng);
            let b_mle = b[0].clone();
            let coeff = next_challenge(&mut rng);
            let b_vp = VirtualPolynomial::new_from_mle(&b_mle, coeff);

            let mut c = a.clone();

            c.mul_by_mle(b_mle, coeff).unwrap();

            assert_eq!(
                a.evaluate(&base)
                    .unwrap()
                    .mul(b_vp.evaluate(&base).unwrap()),
                c.evaluate(&base).unwrap()
            );
        }
    }
}

#[test]
fn test_eq_xr() {
    let mut rng = StdRng::seed_from_u64(31);
    for nv in 4..10 {
        let r = random_point(nv, &mut rng);
        let eq_x_r = build_eq_x_r(&r);
        let eq_x_r2 = build_eq_x_r_for_test(&r);
        assert_eq!(eq_x_r.num_vars, eq_x_r2.num_vars);
        assert_eq!(eq_x_r.evaluations, eq_x_r2.evaluations);
    }
}

#[test]
fn test_eq_xr_exact_table() {
    // r = (3, 5): entry i is the product over k of r_k where bit k of i is
    // set and 1 - r_k where it is clear.
    let r = vec![FieldElem::new(3), FieldElem::new(5)];
    let eq = build_eq_x_r(&r);
    let expected = vec![
        FieldElem::new(8),  // (1-3)(1-5) = 8
        FieldElem::new(89), // 3 * (1-5) = -12
        FieldElem::new(91), // (1-3) * 5 = -10
        FieldElem::new(15), // 3 * 5
    ];
    assert_eq!(eq.evaluations, expected);
}

#[test]
fn test_mle_boolean_points_reproduce_table() {
    let table = vec![
        FieldElem::new(7),
        FieldElem::new(11),
        FieldElem::new(13),
        FieldElem::new(17),
    ];
    let mle = DenseMultilinearExtension::from_evaluations(2, table.clone()).unwrap();
    let zero = FieldElem::zero();
    let one = FieldElem::one();
    // Bit k of the index is the value of variable k.
    assert_eq!(mle.evaluate(&vec![zero, zero]).unwrap(), table[0]);
    assert_eq!(mle.evaluate(&vec![one, zero]).unwrap(), table[1]);
    assert_eq!(mle.evaluate(&vec![zero, one]).unwrap(), table[2]);
    assert_eq!(mle.evaluate(&vec![one, one]).unwrap(), table[3]);
}

#[test]
fn test_mle_interpolation_exact() {
    // One variable: v0 + x * (v1 - v0) = 2 + 10 * 3 = 32.
    let mle = DenseMultilinearExtension::from_evaluations(
        1,
        vec![FieldElem::new(2), FieldElem::new(5)],
    )
    .unwrap();
    assert_eq!(
        mle.evaluate(&vec![FieldElem::new(10)]).unwrap(),
        FieldElem::new(32)
    );
}

#[test]
fn test_mle_size_mismatch() {
    let table = vec![FieldElem::new(1), FieldElem::new(2), FieldElem::new(3)];
    assert!(matches!(
        DenseMultilinearExtension::from_evaluations(2, table),
        Err(PolyError::SizeMismatch)
    ));
}

#[test]
fn test_dimension_mismatch() {
    let mle = DenseMultilinearExtension::from_evaluations(
        1,
        vec![FieldElem::new(2), FieldElem::new(5)],
    )
    .unwrap();
    assert!(matches!(
        mle.evaluate(&vec![]),
        Err(PolyError::DimensionMismatch)
    ));
    let a = VirtualPolynomial::new_from_mle(&mle, FieldElem::one());
    let other = DenseMultilinearExtension::from_evaluations(
        2,
        vec![
            FieldElem::new(1),
            FieldElem::new(2),
            FieldElem::new(3),
            FieldElem::new(4),
        ],
    )
    .unwrap();
    let b = VirtualPolynomial::new_from_mle(&other, FieldElem::one());
    assert!(matches!(a.add(&b), Err(PolyError::DimensionMismatch)));
    let mut c = a.clone();
    assert!(matches!(
        c.mul_by_mle(other, FieldElem::one()),
        Err(PolyError::DimensionMismatch)
    ));
}

#[test]
fn test_random_polynomial_sum_is_hypercube_sum() {
    // The expected sum returned by the random constructor is the brute-force
    // sum of the polynomial over all boolean points.
    let mut rng = StdRng::seed_from_u64(41);
    for nv in 2..5 {
        let (poly, expected) = VirtualPolynomial::random(nv, (2, 3), 3, &mut rng);
        // The construction's shape: three products, each with a factor count
        // drawn from the half-open range.
        assert_eq!(poly.products.len(), 3);
        assert_eq!(poly.max_degree, 2);
        for t in 0..poly.products.len() {
            let d = poly.products[t].1.len();
            assert!(2 <= d && d < 3);
        }
        let mut sum = FieldElem::zero();
        for i in 0..(1usize << nv) {
            let mut point = Vec::new();
            for k in 0..nv {
                if (i >> k) & 1 == 1 {
                    point.push(FieldElem::one());
                } else {
                    point.push(FieldElem::zero());
                }
            }
            sum = sum.add(poly.evaluate(&point).unwrap());
        }
        assert_eq!(sum, expected);
    }
}

#[test]
fn test_next_challenge_in_field() {
    let mut rng = StdRng::seed_from_u64(47);
    for _ in 0..100 {
        let c = next_challenge(&mut rng);
        assert!(c.value() < 101);
    }
}

#[test]
fn test_eq_table_boolean_points() {
    // The eq extension rebuilt from its own table reproduces that table on
    // boolean points, at index sum over k of point[k] * 2^k.
    let r = vec![FieldElem::new(3), FieldElem::new(5)];
    let table = build_eq_x_r_for_test(&r).evaluations;
    let m = DenseMultilinearExtension::from_evaluations(2, table.clone()).unwrap();
    let zero = FieldElem::zero();
    let one = FieldElem::one();
    assert_eq!(m.evaluate(&vec![zero, zero]).unwrap(), table[0]);
    assert_eq!(m.evaluate(&vec![one, zero]).unwrap(), table[1]);
    assert_eq!(m.evaluate(&vec![zero, one]).unwrap(), table[2]);
    assert_eq!(m.evaluate(&vec![one, one]).unwrap(), table[3]);
}
