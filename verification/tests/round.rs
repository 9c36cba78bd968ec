use graph_cipher::{
    forward_round, get_round, get_round_inv, inverse_round, CipherError, Graph, Polynomial,
};

fn two_edges() -> Graph {
    let mut g = Graph::new(2);
    g.add_edge(1, 2);
    g.add_edge(2, 2);
    g
}

fn sample_state() -> Polynomial {
    Polynomial::new(vec![17, 300, 5, 0, 511, 256, 44, 1], 512)
}

#[test]
fn forward_round_with_an_even_index() {
    let next = get_round(sample_state(), two_edges(), 0).unwrap();
    assert_eq!(next, Polynomial::new(vec![209, 326, 88, 41, 322, 487, 316, 121], 512));
}

#[test]
fn forward_round_with_an_odd_index_reverses() {
    let next = get_round(sample_state(), two_edges(), 1).unwrap();
    assert_eq!(next, Polynomial::new(vec![122, 316, 484, 321, 42, 91, 326, 210], 512));
}

#[test]
fn inverse_round_on_given_values() {
    let even = get_round_inv(sample_state(), two_edges(), 0).unwrap();
    assert_eq!(even, Polynomial::new(vec![12, 23, 499, 12, 88, 109, 220, 73], 512));
    let odd = get_round_inv(sample_state(), two_edges(), 1).unwrap();
    assert_eq!(odd, Polynomial::new(vec![5, 61, 125, 77, 276, 326, 484, 402], 512));
}

#[test]
fn inverse_round_undoes_forward_round() {
    for num in 0..6usize {
        let next = get_round(sample_state(), two_edges(), num).unwrap();
        assert!(next.is_valid());
        assert_eq!(next.data.len(), sample_state().data.len());
        assert_eq!(get_round_inv(next, two_edges(), num), Ok(sample_state()));
    }
}

#[test]
fn rounds_with_key_and_keystream_given_directly() {
    let g = two_edges();
    let key = g.generate_key();
    let seq = g.expand_sequence();
    for num in 0..4usize {
        let by_graph = get_round(sample_state(), g.clone(), num).unwrap();
        let direct = forward_round(&sample_state(), &key, &seq, num).unwrap();
        assert_eq!(by_graph, direct);
        assert_eq!(inverse_round(&direct, &key, &seq, num), Ok(sample_state()));
    }
}

#[test]
fn round_trip_with_an_arbitrary_key_and_keystream() {
    let key = Polynomial::new(vec![400, 0, 13, 2, 77], 512);
    let seq = vec![511, 0, 300, 7];
    let state = Polynomial::new(vec![1, 2, 3, 4, 5, 6, 7, 8, 9, 10, 11], 512);
    for num in 0..4usize {
        let next = forward_round(&state, &key, &seq, num).unwrap();
        assert!(next.is_valid());
        assert_eq!(inverse_round(&next, &key, &seq, num), Ok(state.clone()));
    }
}

#[test]
fn state_as_long_as_the_key_degree_is_masked_and_reversed_only() {
    let g = two_edges();
    let state = Polynomial::new(vec![10, 20, 30, 40], 512);
    // keystream 1, 1, 2, 1, 2: masked twice, the state comes back
    assert_eq!(get_round(state.clone(), g.clone(), 0), Ok(state.clone()));
    let turned = get_round(state.clone(), g.clone(), 1).unwrap();
    assert_eq!(turned, Polynomial::new(vec![40 ^ 1 ^ 1, 30 ^ 2 ^ 1, 20 ^ 1 ^ 2, 10 ^ 1 ^ 1], 512));
    assert_eq!(get_round_inv(turned, g, 1), Ok(state));
}

#[test]
fn rounds_refuse_a_state_with_another_modulus() {
    let state = Polynomial::new(vec![17, 200, 5, 0, 11, 25, 44, 1], 256);
    assert_eq!(get_round(state.clone(), two_edges(), 0), Err(CipherError::RingMismatch));
    assert_eq!(get_round_inv(state, two_edges(), 0), Err(CipherError::RingMismatch));
}

#[test]
fn rounds_refuse_a_state_shorter_than_the_key_degree() {
    let state = Polynomial::new(vec![17, 300, 5], 512);
    assert_eq!(get_round(state.clone(), two_edges(), 0), Err(CipherError::LengthMismatch));
    assert_eq!(get_round_inv(state, two_edges(), 0), Err(CipherError::LengthMismatch));
}

#[test]
fn forward_round_refuses_a_key_with_an_even_leading_coefficient() {
    let key = Polynomial::new(vec![1, 3, 6], 512);
    let seq = vec![1, 2, 3];
    assert_eq!(
        forward_round(&sample_state(), &key, &seq, 0),
        Err(CipherError::NonInvertibleLeadingCoefficient)
    );
    // No division, no inverse: a state as long as the key's degree passes,
    // and so does every inverse round.
    let short = Polynomial::new(vec![5, 6], 512);
    assert!(forward_round(&short, &key, &seq, 0).is_ok());
    assert!(inverse_round(&sample_state(), &key, &seq, 0).is_ok());
}
