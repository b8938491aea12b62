use kzg::{Fr, Kzg, KzgError, Poly};

#[test]
fn test_multi_proof() {
    let kzg = Kzg::trusted_setup(5);
    let set = vec![
        (Fr::from_u64(1), Fr::from_u64(2)),
        (Fr::from_u64(2), Fr::from_u64(3)),
        (Fr::from_u64(3), Fr::from_u64(4)),
        (Fr::from_u64(4), Fr::from_u64(57)),
    ];
    let (p, c) = kzg.poly_commitment_from_set(&set).unwrap();

    let proof01 = kzg.prove(&p, &vec![set[0], set[1]]).unwrap();
    assert!(kzg.verify(&c, &vec![set[0], set[1]], &proof01));
    assert!(!kzg.verify(&c, &vec![set[0]], &proof01));
    assert!(!kzg.verify(&c, &vec![set[0], set[2]], &proof01));

    let proof0123 = kzg.prove(&p, &set).unwrap();
    assert!(kzg.verify(&c, &set, &proof0123));
}

// Scenario: a 4-point set committed under a setup for degree 5; a proof
// for a 2-point subset verifies with that exact subset and with nothing
// else.
#[test]
fn test_subset_proofs() {
    let kzg = Kzg::trusted_setup(6);
    let set = vec![
        (Fr::from_u64(1), Fr::from_u64(2)),
        (Fr::from_u64(2), Fr::from_u64(3)),
        (Fr::from_u64(3), Fr::from_u64(4)),
        (Fr::from_u64(4), Fr::from_u64(57)),
    ];
    let (p, c) = kzg.poly_commitment_from_set(&set).unwrap();

    let proof01 = kzg.prove(&p, &vec![set[0], set[1]]).unwrap();
    assert!(kzg.verify(&c, &vec![set[0], set[1]], &proof01));
    assert!(!kzg.verify(&c, &vec![set[0]], &proof01));
    assert!(!kzg.verify(&c, &vec![set[0], set[2]], &proof01));

    // tampering with a y-value must fail
    assert!(!kzg.verify(
        &c,
        &vec![set[0], (Fr::from_u64(2), Fr::from_u64(4))],
        &proof01
    ));
    // an x outside the committed set must fail
    assert!(!kzg.verify(
        &c,
        &vec![set[0], (Fr::from_u64(9), Fr::from_u64(3))],
        &proof01
    ));
    // a proof generated for a different subset must fail
    let proof23 = kzg.prove(&p, &vec![set[2], set[3]]).unwrap();
    assert!(!kzg.verify(&c, &vec![set[0], set[1]], &proof23));

    // the full set proves and verifies as well
    let full = kzg.prove(&p, &set).unwrap();
    assert!(kzg.verify(&c, &set, &full));
}

// Scenario: the single-point path commits to a random line through the
// opening point; only the exact pair (z, y) verifies.
#[test]
fn test_single_point() {
    let kzg = Kzg::trusted_setup(4);
    let proof = kzg.prove_one(&Fr::from_u64(5), &Fr::from_u64(9)).unwrap();
    assert!(kzg.verify_one(&Fr::from_u64(5), &Fr::from_u64(9), &proof));
    assert!(!kzg.verify_one(&Fr::from_u64(6), &Fr::from_u64(9), &proof));
    assert!(!kzg.verify_one(&Fr::from_u64(5), &Fr::from_u64(8), &proof));
}

// Interpolation through a full-size point set round-trips: committing and
// opening the whole set verifies.
#[test]
fn test_round_trip_full_set() {
    let kzg = Kzg::trusted_setup(5);
    let set = vec![
        (Fr::from_u64(10), Fr::from_u64(1)),
        (Fr::from_u64(20), Fr::from_u64(22)),
        (Fr::from_u64(30), Fr::from_u64(333)),
        (Fr::from_u64(40), Fr::from_u64(4444)),
    ];
    let (p, c) = kzg.poly_commitment_from_set(&set).unwrap();
    let proof = kzg.prove(&p, &set).unwrap();
    assert!(kzg.verify(&c, &set, &proof));
}

// Two independently sampled distinct polynomials of one bounded degree
// get distinct commitments, spot-checked over random trials.
#[test]
fn test_commitment_distinctness() {
    let kzg = Kzg::trusted_setup(4);
    for _ in 0..25 {
        let set1 = vec![
            (Fr::from_u64(1), Fr::random()),
            (Fr::from_u64(2), Fr::random()),
            (Fr::from_u64(3), Fr::random()),
            (Fr::from_u64(4), Fr::random()),
        ];
        let set2 = vec![
            (Fr::from_u64(1), Fr::random()),
            (Fr::from_u64(2), Fr::random()),
            (Fr::from_u64(3), Fr::random()),
            (Fr::from_u64(4), Fr::random()),
        ];
        let (p1, c1) = kzg.poly_commitment_from_set(&set1).unwrap();
        let (p2, c2) = kzg.poly_commitment_from_set(&set2).unwrap();
        if p1 != p2 {
            assert!(!c1.equals(&c2));
        }
    }
}

#[test]
fn test_duplicate_x_is_rejected() {
    let set = vec![
        (Fr::from_u64(1), Fr::from_u64(2)),
        (Fr::from_u64(1), Fr::from_u64(3)),
    ];
    assert_eq!(
        Poly::lagrange(&set).unwrap_err(),
        KzgError::DegenerateInterpolation
    );
    let kzg = Kzg::trusted_setup(4);
    let e = match kzg.poly_commitment_from_set(&set) {
        Ok(_) => panic!("expected an error"),
        Err(e) => e,
    };
    assert_eq!(e, KzgError::DegenerateInterpolation);
    let good = vec![
        (Fr::from_u64(1), Fr::from_u64(2)),
        (Fr::from_u64(2), Fr::from_u64(3)),
    ];
    let (p, c) = kzg.poly_commitment_from_set(&good).unwrap();
    let e = match kzg.prove(&p, &set) {
        Ok(_) => panic!("expected an error"),
        Err(e) => e,
    };
    assert_eq!(e, KzgError::DegenerateInterpolation);
    // verify never errors: duplicates simply fail
    let proof = kzg.prove(&p, &vec![good[0]]).unwrap();
    assert!(!kzg.verify(&c, &set, &proof));
}

#[test]
fn test_setup_range_is_rejected() {
    let kzg = Kzg::trusted_setup(2);
    let set = vec![
        (Fr::from_u64(1), Fr::from_u64(2)),
        (Fr::from_u64(2), Fr::from_u64(5)),
        (Fr::from_u64(3), Fr::from_u64(10)),
        (Fr::from_u64(4), Fr::from_u64(77)),
    ];
    let e = match kzg.poly_commitment_from_set(&set) {
        Ok(_) => panic!("expected an error"),
        Err(e) => e,
    };
    assert_eq!(e, KzgError::SetupRange);
}

#[test]
fn test_non_divisible_opening_is_rejected() {
    let kzg = Kzg::trusted_setup(5);
    let set = vec![
        (Fr::from_u64(1), Fr::from_u64(2)),
        (Fr::from_u64(2), Fr::from_u64(3)),
        (Fr::from_u64(3), Fr::from_u64(4)),
    ];
    let (p, _c) = kzg.poly_commitment_from_set(&set).unwrap();
    // (1, 5) is not on the committed polynomial
    let bad = vec![(Fr::from_u64(1), Fr::from_u64(5))];
    let e = match kzg.prove(&p, &bad) {
        Ok(_) => panic!("expected an error"),
        Err(e) => e,
    };
    assert_eq!(e, KzgError::NonDivisibleOpening);
}

#[test]
fn test_max_degree() {
    let kzg = Kzg::trusted_setup(6);
    assert_eq!(kzg.max_degree(), 5);
}

#[test]
fn test_eval_with_pows_matches_eval() {
    // with the powers of a point, the dot product is the evaluation
    let p = Poly::from(&vec![1, 2, 1]);
    let pows = vec![Fr::from_u64(1), Fr::from_u64(2), Fr::from_u64(4)];
    assert_eq!(p.eval_with_pows(&pows), Fr::from_u64(9));
    assert_eq!(p.eval_with_pows(&pows), p.eval(Fr::from_u64(2)));
}

#[test]
fn test_poly_basics() {
    assert!(Poly::zero().is_zero());
    assert!(!Poly::one().is_zero());
    assert_eq!(Poly::zero().degree(), 0);
    assert_eq!(Poly::from(&vec![7, 0, 3]).degree(), 2);
    assert_eq!(Poly::from(&vec![]), Poly::zero());
    assert_eq!(Poly::from(&vec![5, 1, 0, 0]), Poly::from(&vec![5, 1]));
}

// Scaling multiplies every coefficient; scaling by zero collapses to the
// zero polynomial.
#[test]
fn test_scale() {
    let p = Poly::from(&vec![1, 2, 3]);
    assert_eq!(p.scale(&Fr::from_u64(2)), Poly::from(&vec![2, 4, 6]));
    assert!(p.scale(&Fr::from_u64(0)).is_zero());
}

// Interpolation hits every input point, and a division by a non-zero
// polynomial leaves a remainder of degree below the divisor's.
#[test]
fn test_division_remainder_degree() {
    let a = Poly::from(&vec![3, 1, 4, 1, 5, 9, 2, 6]);
    let d = Poly::from(&vec![2, 7, 1]);
    let (q, r) = a.clone().div(&d);
    assert!(r.is_zero() || r.degree() < d.degree());
    let mut back = q.mul(&d);
    back.add_assign(&r);
    assert_eq!(back, a);
}
