use fem_assembly::assembly::get_data_indices_from_block_positions_binary_search;
use fem_assembly::assembly::initialize_nonlinear_stiffness_matrix;
use fem_assembly::assembly::initialize_stiffness_matrix;
use fem_assembly::ranking::binomial;
use fem_assembly::ranking::element_block_size;
use fem_assembly::ranking::locate_block_column;
use fem_assembly::ranking::number_of_columns;
use fem_assembly::ranking::tetrahedral;

#[test]
fn test_initialize_stiffness_matrix() {
    let num_node: usize = 3;
    let elements: Vec<Vec<usize>> = vec![vec![0, 1], vec![1, 2]]; // list of nodes of each element
    let dimension: usize = 2;
    let order: usize = 2;

    let matrix =
        initialize_nonlinear_stiffness_matrix(num_node, &elements, dimension, order).unwrap();

    assert_eq!(
        matrix.shape(),
        (num_node * dimension, binomial((num_node + order - 1) as u64, order as u64) as usize
            * dimension.pow(order as u32))
    );
    assert_eq!(matrix.block_size(), (dimension, dimension.pow(order as u32)));
}

#[test]
fn test_linear_structure_round_trip() {
    let num_node: usize = 3;
    let elements: Vec<Vec<usize>> = vec![vec![0, 1], vec![1, 2]];
    let matrix = initialize_stiffness_matrix(num_node, &elements, 2).unwrap();

    let queries = vec![(0, 0), (0, 1), (1, 0), (1, 1), (1, 2), (2, 2), (0, 2), (5, 0)];
    let found = get_data_indices_from_block_positions_binary_search(
        &matrix.row_pointer,
        &matrix.block_column_index,
        &queries,
    );

    assert_eq!(found.len(), queries.len());
    // Every pair that co-occurs in some element is found.
    assert!(found[0].is_some());
    assert!(found[1].is_some());
    assert!(found[2].is_some());
    assert!(found[3].is_some());
    assert!(found[4].is_some());
    assert!(found[5].is_some());
    // Nodes 0 and 2 never share an element; row 5 does not exist.
    assert!(found[6].is_none());
    assert!(found[7].is_none());

    // The offsets address the flat block array through the row pointers.
    for (q, hit) in found.iter().enumerate() {
        if let Some(p) = hit {
            let (i, j) = queries[q];
            assert!(matrix.row_pointer[i] <= *p && *p < matrix.row_pointer[i + 1]);
            assert_eq!(matrix.block_column_index[*p][0], j);
        }
    }
}

#[test]
fn test_ranking_bijection_exhaustive() {
    // For each small mesh size and order, the ranks of all sorted
    // combinations-with-replacement must cover 0 .. C(n + order - 1, order)
    // with no collisions.
    for n in 1usize..=6 {
        // order 1
        let expected = number_of_columns(n, 1);
        let mut seen = vec![false; expected];
        for i in 0..n {
            let rank = locate_block_column(n, &vec![i]);
            assert!(rank < expected);
            assert!(!seen[rank]);
            seen[rank] = true;
        }
        assert!(seen.iter().all(|&s| s));

        // order 2
        let expected = number_of_columns(n, 2);
        let mut seen = vec![false; expected];
        for i in 0..n {
            for j in i..n {
                let rank = locate_block_column(n, &vec![i, j]);
                assert!(rank < expected);
                assert!(!seen[rank]);
                seen[rank] = true;
            }
        }
        assert!(seen.iter().all(|&s| s));

        // order 3
        let expected = number_of_columns(n, 3);
        let mut seen = vec![false; expected];
        for i in 0..n {
            for j in i..n {
                for k in j..n {
                    let rank = locate_block_column(n, &vec![i, j, k]);
                    assert!(rank < expected);
                    assert!(!seen[rank]);
                    seen[rank] = true;
                }
            }
        }
        assert!(seen.iter().all(|&s| s));
    }
}

#[test]
fn test_ranking_bijection_general_order() {
    // The general recursive scheme at order 4.
    for n in 1usize..=4 {
        let expected = number_of_columns(n, 4);
        let mut seen = vec![false; expected];
        for i in 0..n {
            for j in i..n {
                for k in j..n {
                    for l in k..n {
                        let rank = locate_block_column(n, &vec![i, j, k, l]);
                        assert!(rank < expected);
                        assert!(!seen[rank]);
                        seen[rank] = true;
                    }
                }
            }
        }
        assert!(seen.iter().all(|&s| s));
    }
}

#[test]
fn test_column_counts() {
    assert_eq!(number_of_columns(3, 1), 3);
    assert_eq!(number_of_columns(3, 2), 6);
    assert_eq!(number_of_columns(3, 3), 10);
    assert_eq!(number_of_columns(3, 4), 15);
    assert_eq!(tetrahedral(4), 20);
    assert_eq!(element_block_size(3, 2), 18);
    assert_eq!(binomial(6, 3), 20);
    assert_eq!(binomial(62, 31), 465428353255261088);
}

#[test]
fn test_nonlinear_structure_orders() {
    // Order 1 reduces to the plain node-to-node coupling.
    let elements: Vec<Vec<usize>> = vec![vec![0, 1], vec![1, 2]];
    let m1 = initialize_nonlinear_stiffness_matrix(3, &elements, 2, 1).unwrap();
    assert_eq!(m1.shape(), (6, 6));
    assert_eq!(m1.block_size(), (2, 2));

    // Order 3 on one element.
    let single: Vec<Vec<usize>> = vec![vec![0, 1]];
    let m3 = initialize_nonlinear_stiffness_matrix(2, &single, 2, 3).unwrap();
    assert_eq!(m3.shape(), (4, number_of_columns(2, 3) * 8));
    assert_eq!(m3.block_size(), (2, 8));
}

#[test]
fn test_empty_mesh_structure() {
    let elements: Vec<Vec<usize>> = Vec::new();
    let matrix = initialize_stiffness_matrix(4, &elements, 3).unwrap();
    assert_eq!(matrix.shape(), (12, 12));
    assert_eq!(matrix.total_blocks(), 0);

    let queries = vec![(0, 0), (3, 3)];
    let found = get_data_indices_from_block_positions_binary_search(
        &matrix.row_pointer,
        &matrix.block_column_index,
        &queries,
    );
    assert!(found.iter().all(|r| r.is_none()));
}

#[test]
fn test_duplicate_node_in_element() {
    // A node repeated inside one element couples to itself.
    let elements: Vec<Vec<usize>> = vec![vec![1, 1]];
    let matrix = initialize_stiffness_matrix(3, &elements, 1).unwrap();
    let queries = vec![(1, 1), (0, 0)];
    let found = get_data_indices_from_block_positions_binary_search(
        &matrix.row_pointer,
        &matrix.block_column_index,
        &queries,
    );
    assert!(found[0].is_some());
    assert!(found[1].is_none());
}

#[test]
fn test_nonlinear_structure_columns() {
    // One element [0, 1] in a three-node mesh, order 2: its combinations
    // [0,0], [0,1], [1,1] rank to columns 0, 1 and 3, while column 2 (the
    // rank of [0,2]) stays absent.
    let elements: Vec<Vec<usize>> = vec![vec![0, 1]];
    let matrix = initialize_nonlinear_stiffness_matrix(3, &elements, 1, 2).unwrap();

    assert_eq!(locate_block_column(3, &vec![0, 0]), 0);
    assert_eq!(locate_block_column(3, &vec![0, 1]), 1);
    assert_eq!(locate_block_column(3, &vec![0, 2]), 2);
    assert_eq!(locate_block_column(3, &vec![1, 1]), 3);

    let queries = vec![(0, 0), (0, 1), (0, 2), (0, 3), (1, 0), (1, 3), (2, 0)];
    let found = get_data_indices_from_block_positions_binary_search(
        &matrix.row_pointer,
        &matrix.block_column_index,
        &queries,
    );
    assert!(found[0].is_some());
    assert!(found[1].is_some());
    assert!(found[2].is_none());
    assert!(found[3].is_some());
    assert!(found[4].is_some());
    assert!(found[5].is_some());
    // Node 2 belongs to no element: its row is empty.
    assert!(found[6].is_none());
}
