use kzg::{Fr, Poly};

#[test]
fn test_poly_add() {
    let mut p246 = Poly::from(&vec![1, 2, 3]);
    p246.add_assign(&Poly::from(&vec![1, 2, 3]));
    assert_eq!(p246, Poly::from(&vec![2, 4, 6]));

    let mut p24645 = Poly::from(&vec![1, 2, 3]);
    p24645.add_assign(&Poly::from(&vec![1, 2, 3, 4, 5]));
    assert_eq!(p24645, Poly::from(&vec![2, 4, 6, 4, 5]));

    let mut p24646 = Poly::from(&vec![1, 2, 3, 4, 6]);
    p24646.add_assign(&Poly::from(&vec![1, 2, 3]));
    assert_eq!(p24646, Poly::from(&vec![2, 4, 6, 4, 6]));
}

#[test]
fn test_poly_sub() {
    let mut p0 = Poly::from(&vec![1, 2, 3]);
    p0.sub_assign(&Poly::from(&vec![1, 2, 3]));
    assert_eq!(p0, Poly::from(&vec![0]));

    let mut p003 = Poly::from(&vec![1, 2, 3]);
    p003.sub_assign(&Poly::from(&vec![1, 2]));
    assert_eq!(p003, Poly::from(&vec![0, 0, 3]));
}

#[test]
fn test_poly_mul() {
    assert_eq!(
        Poly::from(&vec![5, 0, 10, 6]).mul(&Poly::from(&vec![1, 2, 4])),
        Poly::from(&vec![5, 10, 30, 26, 52, 24])
    );
}

#[test]
fn test_normalize() {
    let mut p1 = Poly::from(&vec![1, 0, 0, 0]);
    p1.normalize();
    assert_eq!(p1, Poly::from(&vec![1]));
    p1.normalize();
    assert_eq!(p1, Poly::from(&vec![1]));
}

#[test]
fn test_get_set() {
    let mut p007 = Poly::zero();
    p007.set(2, Fr::from_u64(7));
    assert_eq!(p007, Poly::from(&vec![0, 0, 7]));
    assert_eq!(p007.get(2), Some(Fr::from_u64(7)));
}

#[test]
fn test_div() {
    fn do_test(n: Poly, d: Poly) {
        let (q, r) = n.clone().div(&d);
        let mut n2 = q.mul(&d);
        n2.add_assign(&r);
        assert_eq!(n, n2);
    }

    assert_eq!(
        (Poly::from(&vec![1, 1]), Poly::zero()),
        Poly::from(&vec![1, 2, 1]).div(&Poly::from(&vec![1, 1]))
    );
    do_test(Poly::from(&vec![1]), Poly::from(&vec![1, 1]));
    do_test(Poly::from(&vec![1, 1]), Poly::from(&vec![1, 1]));
    do_test(Poly::from(&vec![1, 2, 1]), Poly::from(&vec![1, 1]));
    do_test(
        Poly::from(&vec![1, 2, 1, 2, 5, 8, 1, 9]),
        Poly::from(&vec![1, 1, 5, 4]),
    );
}

#[test]
fn test_eval() {
    assert_eq!(
        Poly::from(&vec![1, 2, 1]).eval(Fr::from_u64(2)),
        Fr::from_u64(9)
    );
}

#[test]
fn test_print() {
    assert_eq!("x^2+2x+1", Poly::from(&vec![1, 2, 1]).to_string());
    assert_eq!("x^2+1", Poly::from(&vec![1, 0, 1]).to_string());
    assert_eq!("x^2", Poly::from(&vec![0, 0, 1]).to_string());
    assert_eq!("2x^2", Poly::from(&vec![0, 0, 2]).to_string());
    assert_eq!("-4", Poly::new(vec![Fr::from_u64(4).neg()]).to_string());
    assert_eq!(
        "-4x",
        Poly::new(vec![Fr::from_u64(0), Fr::from_u64(4).neg()]).to_string()
    );
    assert_eq!(
        "-x-2",
        Poly::new(vec![Fr::from_u64(2).neg(), Fr::from_u64(1).neg()]).to_string()
    );
    assert_eq!(
        "x-2",
        Poly::new(vec![Fr::from_u64(2).neg(), Fr::from_u64(1)]).to_string()
    );
}

#[test]
fn test_lagrange_minimal() {
    assert_eq!(
        Poly::lagrange(&vec![
            (Fr::from_u64(1), Fr::from_u64(1)),
            (Fr::from_u64(2), Fr::from_u64(2))
        ])
        .unwrap(),
        Poly::from(&vec![0, 1])
    );
}

#[test]
fn test_lagrange_multi() {
    let points = vec![
        (Fr::from_u64(12342), Fr::from_u64(22342)),
        (Fr::from_u64(2234), Fr::from_u64(22222)),
        (Fr::from_u64(3982394), Fr::from_u64(111114)),
        (Fr::from_u64(483838), Fr::from_u64(444444)),
    ];
    let l = Poly::lagrange(&points).unwrap();
    points.iter().for_each(|p| assert_eq!(l.eval(p.0), p.1));
}
