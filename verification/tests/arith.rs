use graph_cipher::{egcd, inv_substitute, mod_inv, substitute, CipherError};

#[test]
fn egcd_gives_the_gcd_and_its_bezout_coefficients() {
    assert_eq!(egcd(240, 46), (2, -9, 47));
    assert_eq!(egcd(3, 512), (1, 171, -1));
    assert_eq!(egcd(0, 5), (5, 0, 1));
    assert_eq!(egcd(5, 0), (5, 1, 0));
    assert_eq!(egcd(17, 17), (17, 0, 1));
    assert_eq!(egcd(0, 0), (0, 1, 0));
}

#[test]
fn egcd_coefficients_combine_to_the_gcd() {
    for x in 0..60i64 {
        for y in 0..60i64 {
            let (g, a, b) = egcd(x, y);
            assert_eq!(a * x + b * y, g);
            if g > 0 {
                assert_eq!(x % g, 0);
                assert_eq!(y % g, 0);
            }
        }
    }
}

#[test]
fn egcd_takes_the_largest_inputs() {
    let (g, a, b) = egcd(i64::MAX, i64::MAX - 1);
    assert_eq!(g, 1);
    assert_eq!((a as i128) * (i64::MAX as i128) + (b as i128) * ((i64::MAX - 1) as i128), 1);
}

#[test]
fn mod_inv_gives_known_inverses() {
    assert_eq!(mod_inv(3, 512), 171);
    assert_eq!(mod_inv(511, 512), 511);
    assert_eq!(mod_inv(7, 512), 439);
    assert_eq!(mod_inv(1, 512), 1);
    assert_eq!(mod_inv(3, 7), 5);
    assert_eq!(mod_inv(0, 1), 0);
}

#[test]
fn mod_inv_inverts_every_odd_residue_modulo_512() {
    let mut a = 1i64;
    while a < 512 {
        let inv = mod_inv(a, 512);
        assert!(0 <= inv && inv < 512);
        assert_eq!((a * inv) % 512, 1);
        a += 2;
    }
}

#[test]
fn mod_inv_of_a_non_unit_is_the_reduced_bezout_coefficient() {
    assert_eq!(mod_inv(4, 512), 1);
    assert_eq!(mod_inv(6, 9), 8);
}

#[test]
fn substitute_is_the_odd_affine_map() {
    assert_eq!(substitute(0), 1);
    assert_eq!(substitute(5), 11);
    assert_eq!(substitute(255), 511);
    assert_eq!(substitute(-2), -3);
    assert_eq!(substitute((i64::MAX - 1) / 2), i64::MAX);
}

#[test]
fn inv_substitute_undoes_substitute() {
    for x in -300..300i64 {
        assert_eq!(inv_substitute(substitute(x)), Ok(x));
    }
    assert_eq!(inv_substitute(11), Ok(5));
    assert_eq!(inv_substitute(-3), Ok(-2));
    assert_eq!(inv_substitute(i64::MAX), Ok((i64::MAX - 1) / 2));
    assert_eq!(inv_substitute(i64::MIN + 1), Ok(i64::MIN / 2));
}

#[test]
fn inv_substitute_fails_on_even_numbers() {
    assert_eq!(inv_substitute(10), Err(CipherError::OddnessViolation));
    assert_eq!(inv_substitute(0), Err(CipherError::OddnessViolation));
    assert_eq!(inv_substitute(-4), Err(CipherError::OddnessViolation));
    assert_eq!(inv_substitute(i64::MIN), Err(CipherError::OddnessViolation));
}
