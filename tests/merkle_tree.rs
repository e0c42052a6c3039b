use merkle_tree::{verify_tree_element, MerkleTree};

#[test]
fn test01_check_key_is_inside_tree() {
    let merkle = MerkleTree::new_from(vec!["hey", "hey2"]).unwrap();
    let proof_vec = merkle.proof_of("hey".to_string());
    assert!(verify_tree_element(&merkle, "hey".to_string(), proof_vec));
}

#[test]
fn test02_check_key_is_not_inside_tree() {
    let merkle = MerkleTree::new_from(vec!["hey", "hey2"]).unwrap();
    let proof_vec = merkle.proof_of("hey3".to_string());
    assert!(!verify_tree_element(&merkle, "hey3".to_string(), proof_vec));
}

#[test]
fn test03_building_a_merkle_tree_out_of_a_vector_of_size_not_a_power_of_two_should_build_it_with_a_power_of_two_node_count(
) {
    // Given a non power of two input vector size
    let input_elements = vec!["hey", "hey2", "hey3"];
    let input_elements_size: u32 = input_elements.len() as u32;
    let two: u32 = 2;
    let expected_nodes_count = two.pow(input_elements_size);

    // When building a Merkle tree with the input elements
    let tree = MerkleTree::new_from(input_elements).unwrap();

    // Then the nodes count should be two to the power of the input elements count
    assert_eq!(tree.nodes_count_equals(expected_nodes_count), true);
}

#[test]
fn test04_adding_an_element_to_a_two_to_the_power_of_k_elements_tree_should_duplicate_the_node_count(
) {
    let k: u32 = 3;
    let two: u32 = 2;
    let two_to_the_power_of_k = two.pow(k);
    let expected_node_count_before_adding = 2 * two_to_the_power_of_k;
    let expected_node_count_after_adding = 2 * expected_node_count_before_adding;
    let input_elements = (0..two_to_the_power_of_k)
        .map(|e| format!("{}", e))
        .collect();

    let tree = MerkleTree::new_from(input_elements).unwrap();
    let tree = tree.add("hey");

    assert_eq!(tree.has_size(two_to_the_power_of_k + 1), true);
    assert!(tree.nodes_count_equals(expected_node_count_after_adding));
}

#[test]
fn test05_deleting_an_element_to_a_two_to_the_power_of_k_elements_tree_should_maintain_the_node_count_and_reduce_the_tree_size(
) {
    let k: u32 = 3;
    let two: u32 = 2;
    let two_to_the_power_of_k = two.pow(k);
    let expected_node_count_before_removing = 2 * two_to_the_power_of_k;
    let expected_node_count_after_removing = expected_node_count_before_removing;
    let input_elements = (0..two_to_the_power_of_k)
        .map(|e| format!("{}", e))
        .collect();

    let tree = MerkleTree::new_from(input_elements).unwrap();
    let tree = tree
        .delete_element(format!("{}", two_to_the_power_of_k - 1))
        .unwrap();

    assert_eq!(tree.has_size(two_to_the_power_of_k - 1), true);
    assert!(tree.nodes_count_equals(expected_node_count_after_removing));
}

#[test]
fn test06_removing_an_element_to_a_two_to_the_power_of_k_plus_one_elements_tree_should_reduce_by_half_the_node_count(
) {
    let k: u32 = 3;
    let two: u32 = 2;
    let two_to_the_power_of_k_plus_one = two.pow(k) + 1;
    let expected_node_count_before_removing = 4 * (two_to_the_power_of_k_plus_one - 1);
    let expected_node_count_after_removing = expected_node_count_before_removing / 2;
    let input_elements = (0..two_to_the_power_of_k_plus_one)
        .map(|e| format!("{}", e))
        .collect();

    let tree = MerkleTree::new_from(input_elements).unwrap();
    let tree_deleted = tree
        .delete_element(format!("{}", two_to_the_power_of_k_plus_one - 1))
        .unwrap();

    assert_eq!(
        tree_deleted.has_size(two_to_the_power_of_k_plus_one - 1),
        true
    );
    assert!(tree_deleted.nodes_count_equals(expected_node_count_after_removing));
}

#[test]
fn test07_adding_an_element_to_a_two_to_the_power_of_k_plus_one_elements_tree_should_maintain_the_node_count(
) {
    let k: u32 = 3;
    let two: u32 = 2;
    let two_to_the_power_of_k_plus_one = two.pow(k) + 1;
    let expected_node_count_before_adding = 4 * (two_to_the_power_of_k_plus_one - 1);
    let expected_node_count_after_adding = expected_node_count_before_adding;
    let input_elements = (0..two_to_the_power_of_k_plus_one)
        .map(|e| format!("{}", e))
        .collect();

    let tree = MerkleTree::new_from(input_elements).unwrap();
    let tree = tree.add(format!("{}", two_to_the_power_of_k_plus_one));

    assert_eq!(tree.has_size(two_to_the_power_of_k_plus_one + 1), true);
    assert!(tree.nodes_count_equals(expected_node_count_after_adding));
}

#[test]
fn test08_the_memory_space_occupied_grows_linearly() {
    let k: u32 = 10;
    let two: u32 = 2;
    let two_to_the_power_of_k = two.pow(k);
    let two_to_the_power_of_k_plus_one = two.pow(k + 1);
    let k_input_elements = (0..two_to_the_power_of_k)
        .map(|e| format!("{}", e))
        .collect();
    let k_plus_one_input_elements = (0..two_to_the_power_of_k_plus_one)
        .map(|e| format!("{}", e))
        .collect();

    let k_tree = MerkleTree::new_from(k_input_elements).unwrap();
    let k_plus_one_tree = MerkleTree::new_from(k_plus_one_input_elements).unwrap();

    // std::mem::size_of_val(&k_tree) is subtracted because it is duplicated in the multiplication
    assert_eq!(
        (2 * k_tree.size_in_bytes()) - std::mem::size_of_val(&k_tree),
        k_plus_one_tree.size_in_bytes()
    );
}
