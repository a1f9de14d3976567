use fri_ldt::field::FieldElement;
use fri_ldt::hash::field_leaf_digest;
use fri_ldt::merkle::MerkleTree;
use fri_ldt::transcript::derive_challenge;
use fri_ldt::domain::{check_pow2, check_domain};
use fri_ldt::fri::FRIProver;

fn fe(v: u64, m: u64) -> FieldElement {
    FieldElement::new(v, m)
}

fn leaves_for(values: &[u64], m: u64) -> Vec<Vec<u8>> {
    values.iter().map(|&v| field_leaf_digest(&fe(v, m))).collect()
}

#[test]
fn leaf_digest_is_a_real_digest() {
    let a = field_leaf_digest(&fe(10, 97));
    let b = field_leaf_digest(&fe(11, 97));
    assert_eq!(a.len(), 32);
    assert_eq!(b.len(), 32);
    assert_ne!(a, b);
}

#[test]
fn merkle_round_trip_every_index() {
    let m = 97u64;
    let tree = MerkleTree::new(leaves_for(&[10, 20, 30, 40], m));
    let root = tree.get_root();
    for i in 0..4usize {
        let proof = tree.prove(i);
        assert!(proof.verify(&root));
    }
}

#[test]
fn merkle_round_trip_odd_leaf_count() {
    let m = 97u64;
    let tree = MerkleTree::new(leaves_for(&[1, 2, 3], m));
    let root = tree.get_root();
    for i in 0..3usize {
        assert!(tree.prove(i).verify(&root));
    }
    let single = MerkleTree::new(leaves_for(&[42], m));
    let root1 = single.get_root();
    assert!(single.prove(0).verify(&root1));
}

#[test]
fn merkle_rejects_tampered_sibling() {
    let m = 97u64;
    let tree = MerkleTree::new(leaves_for(&[10, 20, 30, 40], m));
    let root = tree.get_root();
    for i in 0..4usize {
        for level in 0..2usize {
            for byte in 0..32usize {
                let mut proof = tree.prove(i);
                proof.sibling_hashes[level][byte] ^= 1;
                assert!(!proof.verify(&root));
            }
        }
    }
}

#[test]
fn merkle_rejects_tampered_leaf_value() {
    let m = 97u64;
    let tree = MerkleTree::new(leaves_for(&[10, 20, 30, 40], m));
    let root = tree.get_root();
    for byte in 0..32usize {
        let mut proof = tree.prove(2);
        proof.leaf_value[byte] ^= 0x80;
        assert!(!proof.verify(&root));
    }
}

#[test]
fn merkle_rejects_wrong_root() {
    let m = 97u64;
    let tree = MerkleTree::new(leaves_for(&[10, 20, 30, 40], m));
    let other = MerkleTree::new(leaves_for(&[10, 20, 30, 41], m));
    let proof = tree.prove(1);
    assert!(!proof.verify(&other.get_root()));
}

#[test]
fn build_tree_matches_kept_tree() {
    let m = 97u64;
    let leaves = leaves_for(&[5, 6, 7, 8], m);
    let root_only = MerkleTree::build_tree(leaves.clone());
    let tree = MerkleTree::new(leaves);
    assert_eq!(root_only, tree.get_root());
}

#[test]
fn transcript_is_deterministic() {
    let m = 1_000_000_007u64;
    let roots = vec![
        field_leaf_digest(&fe(1, 97)),
        field_leaf_digest(&fe(2, 97)),
        field_leaf_digest(&fe(3, 97)),
    ];
    for i in 0..3usize {
        let a = derive_challenge(&roots, i, m);
        let b = derive_challenge(&roots, i, m);
        assert_eq!(a.value, b.value);
        assert!(a.value < m);
    }
}

#[test]
fn transcript_changes_with_any_root() {
    let m = 1_000_000_007u64;
    let roots = vec![
        field_leaf_digest(&fe(1, 97)),
        field_leaf_digest(&fe(2, 97)),
        field_leaf_digest(&fe(3, 97)),
    ];
    let mut altered = roots.clone();
    altered[0] = field_leaf_digest(&fe(9, 97));
    // changing root 0 changes every later challenge too
    for i in 0..3usize {
        assert_ne!(
            derive_challenge(&roots, i, m).value,
            derive_challenge(&altered, i, m).value
        );
    }
    // a counter change also changes the challenge
    assert_ne!(
        derive_challenge(&roots, 1, m).value,
        derive_challenge(&roots, 2, m).value
    );
}

#[test]
fn pow2_checker() {
    assert!(check_pow2(1));
    assert!(check_pow2(2));
    assert!(check_pow2(64));
    assert!(!check_pow2(0));
    assert!(!check_pow2(3));
    assert!(!check_pow2(12));
}

#[test]
fn generated_domain_is_paired_and_foldable() {
    let d = FRIProver::generate_domain(4, 97).unwrap();
    let values: Vec<u64> = d.iter().map(|e| e.value).collect();
    assert_eq!(values, vec![1, 22, 96, 75]);
    // second half is the negation of the first
    assert_eq!(values[2], 97 - values[0]);
    assert_eq!(values[3], 97 - values[1]);
    assert!(check_domain(&d, 97));
}

#[test]
fn domain_squares_dedupe_to_half() {
    for (size, m) in [(4usize, 97u64), (8, 97), (2, 5), (16, 257)] {
        let d = FRIProver::generate_domain(size, m).unwrap();
        assert_eq!(d.len(), size);
        let mut squares: Vec<u64> = d.iter().map(|e| e.value * e.value % m).collect();
        squares.sort();
        squares.dedup();
        assert_eq!(squares.len(), size / 2);
    }
}

#[test]
fn domain_of_size_one() {
    let d = FRIProver::generate_domain(1, 97).unwrap();
    assert_eq!(d.len(), 1);
    assert_eq!(d[0].value, 1);
}
