use fem_assembly::locate_nodes_o_log_n as sorted_mesh;
use fem_assembly::locate_nodes_o_n as linear_mesh;

fn simple_entries() -> Vec<(u32, Vec<u32>)> {
    vec![
        (0, vec![10, 11, 12]),
        (1, vec![11, 12, 13]),
        (2, vec![12, 13, 14]),
    ]
}

#[test]
fn test_sorted_converter_basics() {
    let converter = sorted_mesh::MeshNodeConverter::new(simple_entries()).unwrap();

    assert_eq!(converter.max_node_id(), 14);
    assert_eq!(converter.num_elements(), 3);

    assert_eq!(converter.local_to_global(0, 0).unwrap(), 10);
    assert_eq!(converter.local_to_global(0, 1).unwrap(), 11);
    assert_eq!(converter.local_to_global(0, 2).unwrap(), 12);
    assert_eq!(converter.local_to_global(1, 0).unwrap(), 11);
    assert_eq!(converter.local_to_global(2, 2).unwrap(), 14);

    assert!(matches!(
        converter.local_to_global(0, 3),
        Err(sorted_mesh::MeshError::NodeOutOfRange(3))
    ));
    assert!(matches!(
        converter.local_to_global(99, 0),
        Err(sorted_mesh::MeshError::ElementNotFound(99))
    ));
}

#[test]
fn test_sorted_converter_sorts_by_id() {
    // Elements arrive with non-sequential ids and are answered by id.
    let entries = vec![
        (100, vec![1, 2, 3]),
        (50, vec![4, 5, 6]),
        (200, vec![7, 8, 9]),
    ];
    let converter = sorted_mesh::MeshNodeConverter::new(entries).unwrap();

    let result = converter.get_global_nodes_for_elements(&vec![50, 100, 200]).unwrap();
    assert_eq!(result[0], (50, vec![4, 5, 6]));
    assert_eq!(result[1], (100, vec![1, 2, 3]));
    assert_eq!(result[2], (200, vec![7, 8, 9]));
}

#[test]
fn test_sorted_converter_pairs() {
    let converter = sorted_mesh::MeshNodeConverter::new(simple_entries()).unwrap();

    let pairs = converter.get_all_local_pairs(0).unwrap();
    assert_eq!(pairs.len(), 6); // 3 nodes: 3 mixed pairs plus 3 self-pairs
    assert!(pairs.contains(&(0, 1)));
    assert!(pairs.contains(&(0, 2)));
    assert!(pairs.contains(&(1, 2)));
    assert!(pairs.contains(&(0, 0)));
    assert!(pairs.contains(&(1, 1)));
    assert!(pairs.contains(&(2, 2)));

    let pairs = converter.get_all_global_pairs(0).unwrap();
    assert_eq!(pairs.len(), 6);
    assert!(pairs.contains(&(10, 11)));
    assert!(pairs.contains(&(10, 12)));
    assert!(pairs.contains(&(11, 12)));
    assert!(pairs.contains(&(10, 10)));
    assert!(pairs.contains(&(11, 11)));
    assert!(pairs.contains(&(12, 12)));
}

#[test]
fn test_sorted_converter_pair_queries() {
    let converter = sorted_mesh::MeshNodeConverter::new(simple_entries()).unwrap();

    assert_eq!(converter.local_pair_to_global(0, 0, 1).unwrap(), (10, 11));
    assert_eq!(converter.local_pair_to_global(1, 1, 2).unwrap(), (12, 13));
    assert_eq!(converter.local_pair_to_global(2, 0, 2).unwrap(), (12, 14));
    assert!(matches!(
        converter.local_pair_to_global(0, 0, 3),
        Err(sorted_mesh::MeshError::NodeOutOfRange(3))
    ));

    let result = converter.get_global_nodes_for_elements(&vec![0, 1]).unwrap();
    assert_eq!(result.len(), 2);
    assert_eq!(result[0], (0, vec![10, 11, 12]));
    assert_eq!(result[1], (1, vec![11, 12, 13]));
    assert!(matches!(
        converter.get_global_nodes_for_elements(&vec![0, 99]),
        Err(sorted_mesh::MeshError::ElementNotFound(99))
    ));
}

#[test]
fn test_sorted_converter_empty() {
    let converter = sorted_mesh::MeshNodeConverter::new(Vec::new()).unwrap();
    assert_eq!(converter.num_elements(), 0);
    assert_eq!(converter.max_node_id(), 0);
}

#[test]
fn test_linear_converter_basics() {
    let converter = linear_mesh::MeshNodeConverter::new(simple_entries()).unwrap();

    assert_eq!(converter.num_elements(), 3);
    assert_eq!(converter.max_node_id(), 14);

    assert_eq!(converter.local_to_global(0, 0).unwrap(), 10);
    assert_eq!(converter.local_to_global(0, 1).unwrap(), 11);
    assert_eq!(converter.local_to_global(0, 2).unwrap(), 12);
    assert_eq!(converter.local_to_global(1, 0).unwrap(), 11);

    assert!(matches!(
        converter.local_to_global(99, 0),
        Err(linear_mesh::MeshError::ElementNotFound(99))
    ));
    assert!(matches!(
        converter.local_to_global(0, 3),
        Err(linear_mesh::MeshError::NodeOutOfRange(3))
    ));
}

#[test]
fn test_linear_converter_ordered_pairs() {
    let converter = linear_mesh::MeshNodeConverter::new(simple_entries()).unwrap();

    let pairs = converter.get_all_local_pairs(0).unwrap();
    assert_eq!(pairs, vec![(0, 0), (0, 1), (0, 2), (1, 1), (1, 2), (2, 2)]);

    let pairs = converter.get_all_global_pairs(0).unwrap();
    assert_eq!(
        pairs,
        vec![(10, 10), (10, 11), (10, 12), (11, 11), (11, 12), (12, 12)]
    );

    let result = converter.get_global_pairs_for_elements(&vec![0, 1]).unwrap();
    assert_eq!(result.len(), 2);
    assert_eq!(result[0].0, 0);
    assert_eq!(
        result[0].1,
        vec![(10, 10), (10, 11), (10, 12), (11, 11), (11, 12), (12, 12)]
    );
    assert_eq!(result[1].0, 1);
    assert_eq!(
        result[1].1,
        vec![(11, 11), (11, 12), (11, 13), (12, 12), (12, 13), (13, 13)]
    );
}

#[test]
fn test_linear_converter_pair_errors() {
    let converter = linear_mesh::MeshNodeConverter::new(simple_entries()).unwrap();

    assert_eq!(converter.local_pair_to_global(0, 0, 1).unwrap(), (10, 11));
    assert_eq!(converter.local_pair_to_global(0, 1, 2).unwrap(), (11, 12));
    assert_eq!(converter.local_pair_to_global(1, 0, 2).unwrap(), (11, 13));
    assert!(matches!(
        converter.local_pair_to_global(99, 0, 1),
        Err(linear_mesh::MeshError::ElementNotFound(99))
    ));
    assert!(matches!(
        converter.local_pair_to_global(0, 3, 0),
        Err(linear_mesh::MeshError::NodeOutOfRange(3))
    ));
}
