use merkle_sum_tree::merkle::{
    leaf_commitment, ExclusiveAllotmentProof, MerkleError, MerkleTree, MyExclusiveAllotmentProof,
    MyMerkleTree, MySumCommitment, SumCommitment,
};
use sha2::{Digest, Sha256};

fn build(values: Vec<u64>) -> MyMerkleTree {
    MyMerkleTree::build(values).expect("build should succeed")
}

fn root(t: &MyMerkleTree) -> MySumCommitment {
    t.commit()
}

#[test]
fn sum_conservation_across_leaf_counts() {
    let lists: Vec<Vec<u64>> = vec![
        vec![42],
        vec![10, 20],
        vec![5, 7, 9],
        vec![1, 2, 3, 4, 5],
        vec![11, 22, 33, 44, 55, 66, 77],
        vec![10, 20, 90, 40, 50, 60, 86, 66],
    ];
    for values in lists {
        let expected: u64 = values.iter().sum();
        let tree = build(values);
        assert_eq!(root(&tree).amount(), expected);
    }
}

#[test]
fn determinism_same_balance_list() {
    let t1 = build(vec![10, 20, 90, 40]);
    let t2 = build(vec![10, 20, 90, 40]);
    assert_eq!(root(&t1).amount(), root(&t2).amount());
    assert_eq!(root(&t1).digest(), root(&t2).digest());
}

#[test]
fn leaf_order_changes_root_digest() {
    let t1 = build(vec![10, 20]);
    let t2 = build(vec![20, 10]);
    assert_eq!(root(&t1).amount(), root(&t2).amount());
    assert_ne!(root(&t1).digest(), root(&t2).digest());
}

#[test]
fn proof_roundtrip_every_position() {
    let lists: Vec<Vec<u64>> = vec![
        vec![42],
        vec![10, 20],
        vec![5, 7, 9],
        vec![10, 20, 30, 40, 50, 60],
        vec![1, 2, 3, 4, 5, 6, 7],
        vec![10, 20, 90, 40, 50, 60, 86, 66],
    ];
    for values in lists {
        let n = values.len();
        let tree = build(values);
        let commitment = root(&tree);
        for i in 0..n {
            let proof = tree.prove_at(i).expect("position is in range");
            assert!(proof.verify(&commitment), "proof for position {} must verify", i);
        }
    }
}

#[test]
fn cross_tree_proof_rejected() {
    let t1 = build(vec![10, 20, 30, 40, 50, 60]);
    let t2 = build(vec![1, 2, 3, 4, 5, 6]);
    let p1 = t1.prove_at(0).unwrap();
    let p2 = t2.prove_at(0).unwrap();
    assert!(p1.verify(&root(&t1)));
    assert!(p2.verify(&root(&t2)));
    assert!(!p1.verify(&root(&t2)));
    assert!(!p2.verify(&root(&t1)));
}

#[test]
fn odd_duplication_counts_once() {
    let tree = build(vec![5, 7, 9]);
    assert_eq!(root(&tree).amount(), 21);
}

#[test]
fn tampered_amount_fails_verification() {
    let tree = build(vec![10, 20, 30]);
    let commitment = root(&tree);
    let proof = tree.prove_at(1).unwrap();
    assert!(proof.verify(&commitment));
    let leaf = proof.leaf_commitment();
    let tampered_leaf = MySumCommitment::new(leaf.amount() + 1, leaf.digest());
    let tampered =
        MyExclusiveAllotmentProof::new(tampered_leaf, proof.position(), proof.path.clone());
    assert!(!tampered.verify(&commitment));
}

#[test]
fn single_leaf_tree() {
    let tree = build(vec![42]);
    let commitment = root(&tree);
    assert_eq!(commitment.amount(), 42);
    let proof = tree.prove_at(0).unwrap();
    assert_eq!(proof.path.len(), 0);
    assert!(proof.verify(&commitment));
}

#[test]
fn empty_input_rejected() {
    match MyMerkleTree::build(vec![]) {
        Err(MerkleError::InvalidInput) => {}
        other => panic!("expected InvalidInput, got {:?}", other.map(|_| ())),
    }
}

#[test]
fn overflowing_total_rejected() {
    match MyMerkleTree::build(vec![u64::MAX, 1]) {
        Err(MerkleError::InvalidInput) => {}
        other => panic!("expected InvalidInput, got {:?}", other.map(|_| ())),
    }
}

#[test]
fn maximal_single_balance_accepted() {
    let tree = build(vec![u64::MAX]);
    assert_eq!(root(&tree).amount(), u64::MAX);
}

#[test]
fn position_out_of_range_rejected() {
    let tree = build(vec![1, 2, 3]);
    match tree.prove_at(3) {
        Err(MerkleError::PositionOutOfRange) => {}
        other => panic!("expected PositionOutOfRange, got {:?}", other.map(|_| ())),
    }
}

#[test]
fn wrong_height_is_malformed() {
    let tree = build(vec![1, 2, 3, 4]);
    let commitment = root(&tree);
    let proof = tree.prove_at(2).unwrap();
    match proof.verify_for_height(&commitment, 2) {
        Err(MerkleError::MalformedProof) => {}
        other => panic!("expected MalformedProof, got {:?}", other),
    }
    assert_eq!(proof.verify_for_height(&commitment, tree.height()), Ok(true));
}

#[test]
fn leaf_digest_matches_sha256() {
    let c = leaf_commitment(42);
    let expected: [u8; 32] = Sha256::digest(42u64.to_be_bytes()).into();
    assert_eq!(c.amount(), 42);
    assert_eq!(c.digest(), expected);
}

#[test]
fn internal_digest_matches_sha256_of_children() {
    let tree = build(vec![10, 20]);
    let left: [u8; 32] = Sha256::digest(10u64.to_be_bytes()).into();
    let right: [u8; 32] = Sha256::digest(20u64.to_be_bytes()).into();
    let mut hasher = Sha256::new();
    hasher.update(left);
    hasher.update(right);
    let expected: [u8; 32] = hasher.finalize().into();
    assert_eq!(root(&tree).digest(), expected);
    assert_eq!(root(&tree).amount(), 30);
}

#[test]
fn trait_surface_build_commit_prove() {
    let tree = <MyMerkleTree as MerkleTree<MySumCommitment, MyExclusiveAllotmentProof>>::new(
        vec![10, 20, 30],
    );
    let commitment = MerkleTree::commit(&tree);
    assert_eq!(commitment.amount(), 60);
    let proof = MerkleTree::prove(&tree, 1);
    assert_eq!(proof.position(), 1);
    let sib0 = proof.sibling(0).expect("leaf 1 has a sibling at the leaf level");
    assert_eq!(sib0.amount(), 10);
    let sib1 = proof.sibling(1).expect("the promoted node is disclosed one level up");
    assert_eq!(sib1.amount(), 30);
    assert!(proof.verify(&commitment));
}

#[test]
fn promoted_leaf_has_no_sibling_entry() {
    let tree = build(vec![5, 7, 9]);
    let proof = tree.prove_at(2).unwrap();
    assert!(proof.sibling(0).is_none());
    let sib1 = proof.sibling(1).expect("the combined pair is the sibling one level up");
    assert_eq!(sib1.amount(), 12);
    assert!(proof.verify(&root(&tree)));
}

#[test]
fn commitment_equality_is_exact() {
    let a = leaf_commitment(7);
    let b = leaf_commitment(7);
    let c = leaf_commitment(8);
    assert!(a.equals(&b));
    assert!(!a.equals(&c));
    let bumped = MySumCommitment::new(a.amount() + 1, a.digest());
    assert!(!a.equals(&bumped));
}
