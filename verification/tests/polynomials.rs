use graph_cipher::{CipherError, Polynomial};

fn times(a: &Polynomial, b: &Polynomial) -> Polynomial {
    a.mult(b).unwrap()
}

#[test]
fn new_keeps_coefficients_and_modulus() {
    let p = Polynomial::new(vec![4, 0, 7], 11);
    assert_eq!(p.data, vec![4, 0, 7]);
    assert_eq!(p.p, 11);
    assert_eq!(p.deg(), 2);
    assert_eq!(Polynomial::new(vec![9], 10).deg(), 0);
}

#[test]
fn clone_is_equal_to_its_source() {
    let p = Polynomial::new(vec![4, 0, 7], 11);
    let q = p.clone();
    assert_eq!(p, q);
    assert_eq!(q.data, vec![4, 0, 7]);
    assert_eq!(q.p, 11);
}

#[test]
fn is_valid_tells_ring_elements_apart() {
    assert!(Polynomial::new(vec![0, 10], 11).is_valid());
    assert!(Polynomial::new(vec![0], 1).is_valid());
    assert!(!Polynomial::new(vec![], 11).is_valid());
    assert!(!Polynomial::new(vec![0, 11], 11).is_valid());
    assert!(!Polynomial::new(vec![-1, 3], 11).is_valid());
    assert!(!Polynomial::new(vec![0], 0).is_valid());
    assert!(!Polynomial::new(vec![0], -5).is_valid());
}

#[test]
fn coefficients_below_checks_a_bound() {
    let p = Polynomial::new(vec![0, 255, 17], 512);
    assert!(p.coefficients_below(256));
    assert!(!p.coefficients_below(255));
    assert!(!Polynomial::new(vec![-1], 512).coefficients_below(256));
    assert!(Polynomial::new(vec![], 512).coefficients_below(0));
}

#[test]
fn mult_is_the_reduced_convolution() {
    let a = Polynomial::new(vec![1, 2], 5);
    let b = Polynomial::new(vec![3, 4], 5);
    assert_eq!(a.mult(&b), Ok(Polynomial::new(vec![3, 0, 3], 5)));
    let c = Polynomial::new(vec![5, 7, 511], 512);
    let d = Polynomial::new(vec![1, 3, 5], 512);
    assert_eq!(c.mult(&d), Ok(Polynomial::new(vec![5, 22, 45, 32, 507], 512)));
    let one = Polynomial::new(vec![1], 512);
    assert_eq!(c.mult(&one), Ok(c.clone()));
}

#[test]
fn mult_has_the_sum_of_the_degrees() {
    let a = Polynomial::new(vec![1, 2, 3, 4], 512);
    let b = Polynomial::new(vec![5, 6, 7], 512);
    let prod = times(&a, &b);
    assert_eq!(prod.deg(), a.deg() + b.deg());
    assert!(prod.is_valid());
}

#[test]
fn mult_is_commutative_and_associative_on_samples() {
    let a = Polynomial::new(vec![1, 200, 3, 511], 512);
    let b = Polynomial::new(vec![509, 6, 7], 512);
    let c = Polynomial::new(vec![2, 0, 0, 400, 33], 512);
    assert_eq!(times(&a, &b), times(&b, &a));
    assert_eq!(times(&times(&a, &b), &c), times(&a, &times(&b, &c)));
}

#[test]
fn mult_works_with_a_large_modulus() {
    let m = i64::MAX;
    let a = Polynomial::new(vec![m - 1, m - 1], m);
    let b = Polynomial::new(vec![m - 1], m);
    // (m - 1)^2 = 1 modulo m
    assert_eq!(a.mult(&b), Ok(Polynomial::new(vec![1, 1], m)));
}

#[test]
fn mult_refuses_different_moduli() {
    let a = Polynomial::new(vec![1, 2], 256);
    let b = Polynomial::new(vec![3, 4], 512);
    assert_eq!(a.mult(&b), Err(CipherError::RingMismatch));
}

#[test]
fn rem_divides_from_the_highest_degree_down() {
    let a = Polynomial::new(vec![5, 7, 511, 3, 100], 512);
    let b = Polynomial::new(vec![1, 3, 5], 512);
    let (rest, quot) = a.rem(&b).unwrap();
    assert_eq!(rest, Polynomial::new(vec![371, 502, 0, 0, 0], 512));
    assert_eq!(quot, vec![146, 91, 20]);
}

#[test]
fn rem_keeps_the_division_identity() {
    let a = Polynomial::new(vec![5, 7, 511, 3, 100, 0, 12], 512);
    let b = Polynomial::new(vec![1, 3, 5], 512);
    let (rest, quot) = a.rem(&b).unwrap();
    assert_eq!(rest.data.len(), a.data.len());
    assert_eq!(quot.len(), a.deg() - b.deg() + 1);
    let back = times(&Polynomial::new(quot, 512), &b);
    for t in 0..a.data.len() {
        assert_eq!((back.data[t] + rest.data[t]) % 512, a.data[t]);
    }
    for t in b.deg()..a.data.len() {
        assert_eq!(rest.data[t], 0);
    }
}

#[test]
fn rem_takes_the_inverse_modulo_512_under_any_modulus() {
    let a = Polynomial::new(vec![10, 20, 30, 40], 64);
    let b = Polynomial::new(vec![3, 0, 7], 64);
    let (rest, quot) = a.rem(&b).unwrap();
    assert_eq!(rest, Polynomial::new(vec![52, 12, 0, 0], 64));
    assert_eq!(quot, vec![370, 152]);
    let c = Polynomial::new(vec![3, 4, 5, 1], 7);
    let d = Polynomial::new(vec![2, 3], 7);
    let (rest, quot) = c.rem(&d).unwrap();
    assert_eq!(rest, Polynomial::new(vec![3, 0, 0, 6], 7));
    assert_eq!(quot, vec![0, 2, 171]);
}

#[test]
fn rem_of_a_shorter_dividend_takes_no_step() {
    let a = Polynomial::new(vec![1, 2, 3], 512);
    let b = Polynomial::new(vec![1, 3, 5, 7], 512);
    assert_eq!(a.rem(&b), Ok((a.clone(), vec![])));
    let even = Polynomial::new(vec![1, 3, 5, 8], 512);
    assert_eq!(a.rem(&even), Ok((a.clone(), vec![])));
}

#[test]
fn rem_by_a_constant() {
    let a = Polynomial::new(vec![6, 9], 512);
    let b = Polynomial::new(vec![3], 512);
    let (rest, quot) = a.rem(&b).unwrap();
    assert_eq!(rest, Polynomial::new(vec![0, 0], 512));
    assert_eq!(quot, vec![2, 3]);
}

#[test]
fn rem_refuses_different_moduli() {
    let a = Polynomial::new(vec![1, 2, 3], 256);
    let b = Polynomial::new(vec![1, 3], 512);
    assert_eq!(a.rem(&b), Err(CipherError::RingMismatch));
}

#[test]
fn rem_refuses_an_even_leading_coefficient() {
    let a = Polynomial::new(vec![1, 2, 3], 512);
    let b = Polynomial::new(vec![1, 4], 512);
    assert_eq!(a.rem(&b), Err(CipherError::NonInvertibleLeadingCoefficient));
    let zero_lead = Polynomial::new(vec![1, 0], 512);
    assert_eq!(a.rem(&zero_lead), Err(CipherError::NonInvertibleLeadingCoefficient));
}

#[test]
fn extend_changes_the_modulus_only() {
    let mut p = Polynomial::new(vec![0, 255, 17], 256);
    assert_eq!(p.extend(512), Ok(()));
    assert_eq!(p, Polynomial::new(vec![0, 255, 17], 512));
    assert_eq!(p.extend(512), Ok(()));
    assert_eq!(p.p, 512);
    assert_eq!(p.extend(4096), Ok(()));
    assert_eq!(p.p, 4096);
}

#[test]
fn extend_refuses_what_is_no_positive_multiple() {
    let mut p = Polynomial::new(vec![0, 2, 1], 3);
    assert_eq!(p.extend(512), Err(CipherError::InvalidModulusExtension));
    assert_eq!(p, Polynomial::new(vec![0, 2, 1], 3));
    assert_eq!(p.extend(2), Err(CipherError::InvalidModulusExtension));
    assert_eq!(p.extend(0), Err(CipherError::InvalidModulusExtension));
    assert_eq!(p.extend(-3), Err(CipherError::InvalidModulusExtension));
    assert_eq!(p.p, 3);
    assert_eq!(p.extend(9), Ok(()));
}
