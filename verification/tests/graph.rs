use graph_cipher::{Graph, Polynomial};

fn graph_of(n: usize, edges: &[(usize, usize)]) -> Graph {
    let mut g = Graph::new(n);
    for &(u, v) in edges {
        g.add_edge(u, v);
    }
    g
}

#[test]
fn new_graph_has_no_edges() {
    let g = Graph::new(7);
    assert_eq!(g.n, 7);
    assert!(g.data.is_empty());
}

#[test]
fn add_edge_keeps_the_order_of_insertion() {
    let g = graph_of(3, &[(3, 1), (1, 1), (3, 1), (2, 3)]);
    assert_eq!(g.n, 3);
    assert_eq!(g.data, vec![(3, 1), (1, 1), (3, 1), (2, 3)]);
}

#[test]
fn graph_clone_is_equal_to_its_source() {
    let g = graph_of(3, &[(3, 1), (1, 2)]);
    let h = g.clone();
    assert_eq!(g, h);
    assert_eq!(h.data, vec![(3, 1), (1, 2)]);
}

#[test]
fn keystream_lists_the_sorted_edges_without_the_last_value() {
    let g = graph_of(5, &[(1, 2), (3, 2), (2, 4), (3, 5), (1, 3)]);
    assert_eq!(g.expand_sequence(), vec![1, 1, 2, 1, 1, 3, 1, 2, 4, 1, 3, 2, 1, 3]);
    assert_eq!(graph_of(2, &[(1, 2)]).expand_sequence(), vec![1, 1]);
    assert_eq!(graph_of(2, &[(2, 2), (2, 1), (2, 2)]).expand_sequence(), vec![1, 2, 1, 1, 2, 2, 1, 2]);
}

#[test]
fn keystream_has_three_values_for_each_edge_less_one() {
    let mut g = Graph::new(9);
    for e in 1..=9usize {
        g.add_edge(10 - e, e);
        assert_eq!(g.expand_sequence().len(), 3 * e - 1);
    }
}

#[test]
fn keystream_of_no_edges_is_empty() {
    assert_eq!(Graph::new(4).expand_sequence(), Vec::<i64>::new());
}

#[test]
fn keystream_reduces_node_numbers_modulo_256() {
    let g = graph_of(300, &[(300, 2), (1, 257)]);
    assert_eq!(g.expand_sequence(), vec![1, 1, 1, 1, 44]);
}

#[test]
fn keystream_does_not_depend_on_the_order_of_insertion() {
    let a = graph_of(5, &[(1, 2), (3, 2), (2, 4), (3, 5), (1, 3)]);
    let b = graph_of(5, &[(3, 5), (1, 3), (1, 2), (2, 4), (3, 2)]);
    assert_eq!(a.expand_sequence(), b.expand_sequence());
}

#[test]
fn key_is_the_product_of_the_edge_factors() {
    assert_eq!(graph_of(2, &[(1, 2)]).generate_key(), Polynomial::new(vec![1, 3, 5], 512));
    assert_eq!(
        graph_of(3, &[(1, 2), (3, 2)]).generate_key(),
        Polynomial::new(vec![1, 10, 31, 50, 25], 512)
    );
    assert_eq!(
        graph_of(5, &[(1, 2), (3, 2), (2, 4), (3, 5), (1, 3)]).generate_key(),
        Polynomial::new(vec![1, 25, 279, 326, 129, 43, 333, 146, 279, 261, 429], 512)
    );
}

#[test]
fn key_of_no_edges_is_one() {
    assert_eq!(Graph::new(4).generate_key(), Polynomial::new(vec![1], 512));
}

#[test]
fn key_reduces_the_odd_map_modulo_512() {
    // 2 * 255 + 1 = 511 and 2 * 256 + 1 = 513 = 1 modulo 512
    assert_eq!(graph_of(256, &[(255, 256)]).generate_key(), Polynomial::new(vec![1, 511, 1], 512));
}

#[test]
fn key_has_twice_as_many_degrees_as_edges_and_an_odd_leading_coefficient() {
    let mut g = Graph::new(6);
    for e in 1..=12usize {
        g.add_edge(1 + e % 6, 1 + (5 * e) % 6);
        let key = g.generate_key();
        assert_eq!(key.deg(), 2 * e);
        assert_eq!(key.data[2 * e] % 2, 1);
        assert!(key.is_valid());
        assert_eq!(key.p, 512);
    }
}

#[test]
fn equal_edge_lists_give_equal_key_and_keystream() {
    let a = graph_of(5, &[(1, 2), (3, 2), (2, 4)]);
    let b = graph_of(9, &[(1, 2), (3, 2), (2, 4)]);
    assert_eq!(a.generate_key(), b.generate_key());
    assert_eq!(a.expand_sequence(), b.expand_sequence());
    assert_eq!(a.generate_key(), a.clone().generate_key());
    assert_eq!(a.expand_sequence(), a.clone().expand_sequence());
}

#[test]
fn key_of_the_same_edges_in_another_order() {
    // The factors are multiplied in the order of insertion; their product
    // is the same in any order, since the ring is commutative.
    let a = graph_of(3, &[(1, 2), (3, 2)]);
    let b = graph_of(3, &[(3, 2), (1, 2)]);
    assert_eq!(a.generate_key(), b.generate_key());
}

#[test]
fn another_edge_gives_another_key() {
    let a = graph_of(5, &[(1, 2), (3, 2), (2, 4), (3, 5), (1, 3)]);
    let b = graph_of(5, &[(1, 2), (3, 2), (2, 4), (3, 5), (1, 4)]);
    assert_ne!(a.generate_key(), b.generate_key());
    assert_ne!(a.expand_sequence(), b.expand_sequence());
}
