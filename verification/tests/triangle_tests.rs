use bezier::triangle::{neighbor_triples, row_start_index, triangle_num_nodes};

#[test]
fn node_counts_are_triangular_numbers() {
    assert_eq!(triangle_num_nodes(0), 1);
    assert_eq!(triangle_num_nodes(1), 3);
    assert_eq!(triangle_num_nodes(2), 6);
    assert_eq!(triangle_num_nodes(3), 10);
    assert_eq!(triangle_num_nodes(10), 66);
}

#[test]
fn neighbor_triples_of_degree_zero_and_one() {
    assert!(neighbor_triples(0).is_empty());
    assert_eq!(neighbor_triples(1), vec![(0, 1, 2)]);
}

#[test]
fn neighbor_triples_of_quadratic() {
    // Rows of a quadratic: [0, 1, 2], [3, 4], [5].
    assert_eq!(neighbor_triples(2), vec![(0, 1, 3), (1, 2, 4), (3, 4, 5)]);
}

#[test]
fn neighbor_triples_of_cubic() {
    // Rows of a cubic: [0, 1, 2, 3], [4, 5, 6], [7, 8], [9].
    assert_eq!(
        neighbor_triples(3),
        vec![(0, 1, 4), (1, 2, 5), (2, 3, 6), (4, 5, 7), (5, 6, 8), (7, 8, 9)]
    );
}

#[test]
fn neighbor_triples_count_matches_lower_degree() {
    for degree in 1..12 {
        assert_eq!(neighbor_triples(degree).len(), triangle_num_nodes(degree - 1));
        for (a, b, c) in neighbor_triples(degree) {
            assert!(a < triangle_num_nodes(degree));
            assert_eq!(b, a + 1);
            assert!(c < triangle_num_nodes(degree));
        }
    }
}

#[test]
fn row_starts_follow_the_row_lengths() {
    assert_eq!(row_start_index(3, 0), 0);
    assert_eq!(row_start_index(3, 1), 4);
    assert_eq!(row_start_index(3, 2), 7);
    assert_eq!(row_start_index(3, 3), 9);
    assert_eq!(row_start_index(3, 3) + 1, triangle_num_nodes(3));
    assert_eq!(row_start_index(1, 1), 2);
    assert_eq!(row_start_index(0, 0), 0);
}
