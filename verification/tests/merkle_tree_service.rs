use zk_rust_api::field::Fe;
use zk_rust_api::merkle::MerkleTree;
use zk_rust_api::merkle_tree_service::MerkleTreeService;

#[test]
fn test_add_to_tree_and_verify() {
    let mut service = MerkleTreeService::new();

    let initial_contains_90 = service.with_tree(|tree: &MerkleTree| {
        tree.leaves().iter().any(|&leaf| leaf == Fe::from_u64(90))
    });
    assert!(!initial_contains_90, "Value 90 should not be in tree initially");

    let response = service.add_to_tree(90);

    assert!(!response.data.is_empty(), "Response should contain root hash");

    let now_contains_90 = service.with_tree(|tree: &MerkleTree| {
        tree.leaves().iter().any(|&leaf| leaf == Fe::from_u64(90))
    });
    assert!(now_contains_90, "Value 90 should be in the tree after adding");

    let leaf_index = service.with_tree(|tree: &MerkleTree| {
        tree.leaves().iter().position(|&leaf| leaf == Fe::from_u64(90))
    });
    assert!(leaf_index.is_some(), "Should be able to find index of value 90");

    let proof_result = service.with_tree(|tree: &MerkleTree| tree.generate_proof(leaf_index.unwrap()));
    assert!(proof_result.is_some(), "Should be able to generate proof for value 90");
}

#[test]
fn test_add_many_to_tree_and_verify() {
    let mut service = MerkleTreeService::new();

    let initial_contains_90 = service.with_tree(|tree: &MerkleTree| {
        tree.leaves().iter().any(|&leaf| leaf == Fe::from_u64(90))
    });
    assert!(!initial_contains_90, "Value 90 should not be in tree initially");

    let _response = service.add_to_tree(410);
    let _response = service.add_to_tree(190);
    let _response = service.add_to_tree(90);
    let _response = service.add_to_tree(290);
    let response = service.add_to_tree(240);

    assert!(!response.data.is_empty(), "Response should contain root hash");

    let now_contains_90 = service.with_tree(|tree: &MerkleTree| {
        tree.leaves().iter().any(|&leaf| leaf == Fe::from_u64(90))
    });
    assert!(now_contains_90, "Value 90 should be in the tree after adding");

    let leaf_index = service.with_tree(|tree: &MerkleTree| {
        tree.leaves().iter().position(|&leaf| leaf == Fe::from_u64(90))
    });
    assert!(leaf_index.is_some(), "Should be able to find index of value 90");

    let proof_result = service.with_tree(|tree: &MerkleTree| tree.generate_proof(leaf_index.unwrap()));
    assert!(proof_result.is_some(), "Should be able to generate proof for value 90");
}

#[test]
fn test_add_multiple_values() {
    let mut service = MerkleTreeService::new();

    service.add_to_tree(90);
    service.add_to_tree(100);
    service.add_to_tree(110);

    service.with_tree(|tree: &MerkleTree| {
        let leaves_contain_90 = tree.leaves().iter().any(|&l| l == Fe::from_u64(90));
        let leaves_contain_100 = tree.leaves().iter().any(|&l| l == Fe::from_u64(100));
        let leaves_contain_110 = tree.leaves().iter().any(|&l| l == Fe::from_u64(110));

        assert!(leaves_contain_90, "Tree should contain 90");
        assert!(leaves_contain_100, "Tree should contain 100");
        assert!(leaves_contain_110, "Tree should contain 110");
    });
}

#[test]
fn merkle_tree_service_test_root_changes_after_add() {
    let mut service = MerkleTreeService::new();

    let initial_root = service.with_tree(|tree: &MerkleTree| tree.root());

    service.add_to_tree(90);

    let new_root = service.with_tree(|tree: &MerkleTree| tree.root());

    assert_ne!(initial_root, new_root, "Root should change after adding a value");
}

#[test]
fn test_with_tree_mut_appends() {
    let mut service = MerkleTreeService::new();
    let before = service.current_root();

    let tree = service.with_tree_mut();
    tree.add(zk_rust_api::merkle::LeafValue::Unhashed(123));

    assert!(service.with_tree(|t: &MerkleTree| {
        t.leaves().iter().any(|&l| l == Fe::from_u64(123))
    }));
    assert_ne!(before, service.current_root());
}
