use graph_cipher::{
    decrypt, decrypt_rounds, encrypt, encrypt_rounds, hex2poly, poly2hex, poly2string,
    string2poly, CipherError, Graph, Polynomial, ROUNDS,
};

const TEST_VECTOR: &str = "crack me plz";

#[test]
fn test_simple_encryption() {
    let mut g = Graph::new(5);
    g.add_edge(1, 2);
    g.add_edge(3, 2);
    g.add_edge(2, 4);
    g.add_edge(3, 5);
    g.add_edge(1, 3);
    let plaintext = String::from(TEST_VECTOR);
    let c = encrypt(string2poly(plaintext.clone()), g.clone()).unwrap();
    println!("Ciphertext: {}", poly2hex(c.clone()));
    assert_eq!(poly2hex(c.clone()), "1b61ae1be0d50120c404409f04218e1191dd");
    assert_eq!(c.clone(), hex2poly(poly2hex(c.clone()), c.p).unwrap());
    assert_eq!(plaintext, poly2string(decrypt(c, g).unwrap()));
}

#[test]
fn test_wrong_graph_decryption() {
    let mut g1 = Graph::new(5);
    g1.add_edge(1, 2);
    g1.add_edge(3, 2);
    g1.add_edge(2, 4);
    g1.add_edge(3, 5);
    g1.add_edge(1, 3);
    let mut g2 = Graph::new(5);
    g2.add_edge(1, 2);
    g2.add_edge(3, 2);
    g2.add_edge(2, 4);
    g2.add_edge(3, 5);
    g2.add_edge(1, 4);
    let plaintext = String::from(TEST_VECTOR);
    let c = encrypt(string2poly(plaintext.clone()), g1.clone()).unwrap();
    println!("Ciphertext: {}", poly2hex(c.clone()));
    assert_eq!(poly2hex(c.clone()), "1b61ae1be0d50120c404409f04218e1191dd");
    assert_eq!(c.clone(), hex2poly(poly2hex(c.clone()), c.p).unwrap());
    assert_ne!(plaintext, poly2string(decrypt(c.clone(), g2.clone()).unwrap()));
    println!("Decrypted1(Real): {}", poly2hex(decrypt(c.clone(), g1.clone()).unwrap()));
    println!("Decrypted2(Wrong): {}", poly2hex(decrypt(c.clone(), g2.clone()).unwrap()));
}

#[test]
fn ciphertext_is_a_state_of_the_same_length() {
    let mut g = Graph::new(5);
    g.add_edge(1, 2);
    g.add_edge(3, 2);
    g.add_edge(2, 4);
    g.add_edge(3, 5);
    g.add_edge(1, 3);
    let c = encrypt(string2poly(String::from(TEST_VECTOR)), g).unwrap();
    assert_eq!(c.p, 512);
    assert_eq!(c.data.len(), 12);
    assert!(c.is_valid());
    assert_eq!(
        c,
        Polynomial::new(
            vec![0x1b6, 0x1ae, 0x1be, 0x0d5, 0x012, 0x0c4, 0x044, 0x09f, 0x042, 0x18e, 0x119, 0x1dd],
            512
        )
    );
}

#[test]
fn decrypting_the_known_ciphertext_gives_the_plaintext() {
    let mut g = Graph::new(5);
    g.add_edge(1, 2);
    g.add_edge(3, 2);
    g.add_edge(2, 4);
    g.add_edge(3, 5);
    g.add_edge(1, 3);
    let c = hex2poly(String::from("1b61ae1be0d50120c404409f04218e1191dd"), 512).unwrap();
    let p = decrypt(c, g).unwrap();
    assert_eq!(p.p, 256);
    assert_eq!(poly2string(p), "crack me plz");
}

#[test]
fn round_trip_over_several_graphs_and_texts() {
    let texts = ["hello, world", "0123456789abcdef", "\u{e9}t\u{e9} \u{ff}\u{0}\u{1}\u{80}!"];
    let edge_lists: [&[(usize, usize)]; 4] =
        [&[(1, 1)], &[(2, 1), (1, 2)], &[(3, 3), (3, 3), (1, 2)], &[(4, 1), (2, 3), (1, 4), (4, 4)]];
    for text in texts {
        for edges in edge_lists {
            let mut g = Graph::new(4);
            for &(u, v) in edges {
                g.add_edge(u, v);
            }
            let plain = string2poly(String::from(text));
            assert!(plain.is_valid());
            let c = encrypt(plain.clone(), g.clone()).unwrap();
            assert!(c.is_valid());
            assert_eq!(c.data.len(), plain.data.len());
            assert_eq!(decrypt(c, g).unwrap(), plain);
        }
    }
}

#[test]
fn encrypt_refuses_a_modulus_that_does_not_divide_512() {
    let mut g = Graph::new(2);
    g.add_edge(1, 2);
    let p = Polynomial::new(vec![1, 2, 0, 1], 3);
    assert_eq!(encrypt(p, g), Err(CipherError::InvalidModulusExtension));
}

#[test]
fn encrypt_accepts_a_smaller_power_of_two_modulus() {
    let mut g = Graph::new(2);
    g.add_edge(1, 2);
    let p = Polynomial::new(vec![1, 2, 0, 1], 4);
    let c = encrypt(p.clone(), g.clone()).unwrap();
    let back = decrypt(c, g).unwrap();
    assert_eq!(back.data, p.data);
    assert_eq!(back.p, 256);
}

#[test]
fn encrypt_refuses_a_plaintext_shorter_than_the_key_degree() {
    let mut g = Graph::new(5);
    g.add_edge(1, 2);
    g.add_edge(3, 2);
    g.add_edge(2, 4);
    g.add_edge(3, 5);
    g.add_edge(1, 3);
    assert_eq!(
        encrypt(string2poly(String::from("too short")), g.clone()),
        Err(CipherError::LengthMismatch)
    );
    assert!(encrypt(string2poly(String::from("just right")), g).is_ok());
}

#[test]
fn plaintext_as_long_as_the_key_degree_round_trips() {
    let mut g = Graph::new(5);
    g.add_edge(1, 2);
    g.add_edge(3, 2);
    let plain = string2poly(String::from("abcd"));
    let c = encrypt(plain.clone(), g.clone()).unwrap();
    assert_eq!(decrypt(c, g).unwrap(), plain);
}

#[test]
fn decrypt_refuses_a_ciphertext_with_another_modulus() {
    let mut g = Graph::new(2);
    g.add_edge(1, 2);
    let c = Polynomial::new(vec![1, 3, 5, 7], 256);
    assert_eq!(decrypt(c, g), Err(CipherError::RingMismatch));
}

#[test]
fn decrypt_refuses_a_ciphertext_shorter_than_the_key_degree() {
    let mut g = Graph::new(2);
    g.add_edge(1, 2);
    g.add_edge(2, 1);
    let c = Polynomial::new(vec![1, 3, 5], 512);
    assert_eq!(decrypt(c, g), Err(CipherError::LengthMismatch));
}

#[test]
fn decrypt_refuses_a_state_with_an_even_coefficient() {
    let mut g = Graph::new(2);
    g.add_edge(1, 2);
    assert_eq!(
        decrypt(Polynomial::new(vec![2, 3, 5, 7], 512), g.clone()),
        Err(CipherError::OddnessViolation)
    );
    assert_eq!(
        decrypt(Polynomial::new(vec![1, 3, 5, 7], 512), g),
        Ok(Polynomial::new(vec![210, 39, 66, 187], 256))
    );
}

#[test]
fn decrypt_refuses_a_tampered_ciphertext() {
    let mut g = Graph::new(5);
    g.add_edge(1, 2);
    g.add_edge(3, 2);
    g.add_edge(2, 4);
    g.add_edge(3, 5);
    g.add_edge(1, 3);
    let mut c = encrypt(string2poly(String::from(TEST_VECTOR)), g.clone()).unwrap();
    c.data[0] ^= 1;
    assert_eq!(decrypt(c, g), Err(CipherError::OddnessViolation));
}

#[test]
fn wrong_graph_gives_another_text() {
    let mut g = Graph::new(5);
    g.add_edge(1, 2);
    g.add_edge(3, 2);
    g.add_edge(2, 4);
    g.add_edge(3, 5);
    g.add_edge(1, 4);
    let c = hex2poly(String::from("1b61ae1be0d50120c404409f04218e1191dd"), 512).unwrap();
    assert_eq!(
        decrypt(c, g),
        Ok(Polynomial::new(vec![171, 221, 81, 88, 147, 125, 91, 144, 98, 115, 222, 96], 256))
    );
}

#[test]
fn the_number_of_rounds_can_be_chosen() {
    let mut g = Graph::new(2);
    g.add_edge(1, 2);
    let p = Polynomial::new(vec![1, 2, 3, 4], 256);
    assert_eq!(
        encrypt_rounds(p.clone(), g.clone(), 0),
        Ok(Polynomial::new(vec![1, 7, 5, 11], 512))
    );
    assert_eq!(
        encrypt_rounds(p.clone(), g.clone(), 1),
        Ok(Polynomial::new(vec![411, 211, 103, 3], 512))
    );
    assert_eq!(
        encrypt_rounds(p.clone(), g.clone(), 2),
        Ok(Polynomial::new(vec![411, 185, 273, 227], 512))
    );
    assert_eq!(encrypt_rounds(p.clone(), g.clone(), ROUNDS), encrypt(p.clone(), g.clone()));
    assert_eq!(
        decrypt_rounds(Polynomial::new(vec![3, 7, 1, 11], 512), g.clone(), 0),
        Ok(Polynomial::new(vec![0, 2, 1, 4], 256))
    );
    for rounds in 0..12usize {
        let c = encrypt_rounds(p.clone(), g.clone(), rounds).unwrap();
        assert_eq!(decrypt_rounds(c, g.clone(), rounds), Ok(p.clone()));
    }
}

#[test]
fn without_rounds_no_length_is_too_short() {
    let mut g = Graph::new(2);
    g.add_edge(1, 2);
    g.add_edge(2, 1);
    let p = Polynomial::new(vec![9], 256);
    let c = encrypt_rounds(p.clone(), g.clone(), 0).unwrap();
    assert_eq!(decrypt_rounds(c, g.clone(), 0), Ok(p.clone()));
    assert_eq!(encrypt_rounds(p, g, 1), Err(CipherError::LengthMismatch));
}

#[test]
fn short_vector() {
    let mut g = Graph::new(1);
    g.add_edge(1, 1);
    let c = encrypt(string2poly(String::from("hi")), g.clone()).unwrap();
    assert_eq!(poly2hex(c.clone()), "0d30d1");
    assert_eq!(poly2string(decrypt(c, g).unwrap()), "hi");
}
