use graph_cipher::{hex2poly, poly2hex, poly2string, string2poly, CipherError, Polynomial};

#[test]
fn string2poly_lists_the_character_codes() {
    assert_eq!(string2poly(String::from("AZ az")), Polynomial::new(vec![65, 90, 32, 97, 122], 256));
    assert_eq!(string2poly(String::from("\u{e9}\u{ff}")), Polynomial::new(vec![233, 255], 256));
    assert_eq!(string2poly(String::new()), Polynomial::new(vec![], 256));
}

#[test]
fn string2poly_of_a_wide_character_is_no_ring_element() {
    let p = string2poly(String::from("a\u{20ac}"));
    assert_eq!(p, Polynomial::new(vec![97, 0x20ac], 256));
    assert!(!p.is_valid());
    assert!(string2poly(String::from("a\u{ff}")).is_valid());
}

#[test]
fn poly2string_keeps_the_low_eight_bits() {
    assert_eq!(poly2string(Polynomial::new(vec![65, 90, 32], 256)), "AZ ");
    assert_eq!(poly2string(Polynomial::new(vec![0x141, 0x20ac, 255], 256)), "A\u{ac}\u{ff}");
    assert_eq!(poly2string(Polynomial::new(vec![-1, -191], 256)), "\u{ff}A");
    assert_eq!(poly2string(Polynomial::new(vec![], 256)), "");
}

#[test]
fn text_round_trip_for_single_byte_characters() {
    let mut text = String::new();
    for code in 0..256u32 {
        text.push(char::from_u32(code).unwrap());
    }
    assert_eq!(poly2string(string2poly(text.clone())), text);
}

#[test]
fn poly2hex_writes_three_lower_case_digits_for_each_coefficient() {
    assert_eq!(poly2hex(Polynomial::new(vec![0, 10, 255, 4095, 0x1b6], 4096)), "00000a0fffff1b6");
    assert_eq!(poly2hex(Polynomial::new(vec![0xabc, 0xdef, 0x123, 0x456, 0x789], 4096)), "abcdef123456789");
    assert_eq!(poly2hex(Polynomial::new(vec![], 512)), "");
}

#[test]
fn hex2poly_reads_groups_of_three_digits() {
    assert_eq!(
        hex2poly(String::from("00000a0fffff1b6"), 512),
        Ok(Polynomial::new(vec![0, 10, 255, 4095, 0x1b6], 512))
    );
    assert_eq!(hex2poly(String::from("0AB0ab0Ab"), 7), Ok(Polynomial::new(vec![171, 171, 171], 7)));
    assert_eq!(hex2poly(String::new(), 512), Ok(Polynomial::new(vec![], 512)));
}

#[test]
fn hex2poly_refuses_a_length_that_is_no_multiple_of_three() {
    assert_eq!(hex2poly(String::from("abcd"), 512), Err(CipherError::InvalidEncoding));
    assert_eq!(hex2poly(String::from("ab"), 512), Err(CipherError::InvalidEncoding));
    assert_eq!(hex2poly(String::from("a"), 512), Err(CipherError::InvalidEncoding));
}

#[test]
fn hex2poly_refuses_what_is_no_hexadecimal_digit() {
    assert_eq!(hex2poly(String::from("00g"), 512), Err(CipherError::InvalidEncoding));
    assert_eq!(hex2poly(String::from("+1a"), 512), Err(CipherError::InvalidEncoding));
    assert_eq!(hex2poly(String::from("1 2"), 512), Err(CipherError::InvalidEncoding));
    assert_eq!(hex2poly(String::from("00\u{e9}"), 512), Err(CipherError::InvalidEncoding));
    assert_eq!(hex2poly(String::from("\u{20ac}"), 512), Err(CipherError::InvalidEncoding));
    assert_eq!(hex2poly(String::from("/:@"), 512), Err(CipherError::InvalidEncoding));
    assert_eq!(hex2poly(String::from("G`g"), 512), Err(CipherError::InvalidEncoding));
}

#[test]
fn hex_round_trip_for_every_coefficient_below_4096() {
    let all: Vec<i64> = (0..4096).collect();
    let p = Polynomial::new(all, 4096);
    let text = poly2hex(p.clone());
    assert_eq!(text.len(), 3 * 4096);
    assert_eq!(hex2poly(text, 4096), Ok(p));
}
