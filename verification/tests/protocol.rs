use fri_ldt::field::FieldElement;
use fri_ldt::polynomial::Polynomial;
use fri_ldt::hash::field_leaf_digest;
use fri_ldt::merkle::MerkleTree;
use fri_ldt::transcript::derive_challenge;
use fri_ldt::domain::halve_domain;
use fri_ldt::fri::{FRIProver, FRIVerifier, FRIQueryProof, LayerQueryProof, FriError,
    opposite_index};

fn fe(v: u64, m: u64) -> FieldElement {
    FieldElement::new(v, m)
}

fn test_poly(m: u64) -> Polynomial {
    // 2x^2 + x + 3
    Polynomial::new(vec![fe(3, m), fe(1, m), fe(2, m)])
}

#[test]
fn end_to_end_acceptance() {
    let m = 97u64;
    let mut prover = FRIProver::new(test_poly(m), m, 4).unwrap();
    let roots = prover.commit();
    assert_eq!(roots.len(), 2);
    let verifier = FRIVerifier::new(m, roots, 4);
    for q in 0..4usize {
        let proof = verifier.query(&prover, q).unwrap();
        assert!(verifier.verify_query(q, &proof));
    }
}

#[test]
fn query_rejects_out_of_range_index() {
    let m = 97u64;
    let mut prover = FRIProver::new(test_poly(m), m, 4).unwrap();
    let roots = prover.commit();
    let verifier = FRIVerifier::new(m, roots, 4);
    assert!(verifier.query(&prover, 4).is_none());
    assert!(verifier.query(&prover, 1000).is_none());
}

#[test]
fn verify_rejects_wrong_layer_count() {
    let m = 97u64;
    let mut prover = FRIProver::new(test_poly(m), m, 4).unwrap();
    let roots = prover.commit();
    let verifier = FRIVerifier::new(m, roots, 4);
    let mut proof = verifier.query(&prover, 0).unwrap();
    proof.layer_proofs.pop();
    assert!(!verifier.verify_query(0, &proof));
}

#[test]
fn verify_rejects_tampered_revealed_value() {
    let m = 97u64;
    let mut prover = FRIProver::new(test_poly(m), m, 4).unwrap();
    let roots = prover.commit();
    let verifier = FRIVerifier::new(m, roots, 4);
    let mut proof = verifier.query(&prover, 2).unwrap();
    let old = proof.layer_proofs[0].value;
    proof.layer_proofs[0].value = fe(old.value + 1, m);
    assert!(!verifier.verify_query(2, &proof));
}

#[test]
fn verify_rejects_tampered_final_constant() {
    let m = 97u64;
    let mut prover = FRIProver::new(test_poly(m), m, 4).unwrap();
    let roots = prover.commit();
    let verifier = FRIVerifier::new(m, roots, 4);
    let mut proof = verifier.query(&prover, 1).unwrap();
    proof.final_constant = fe(proof.final_constant.value + 1, m);
    assert!(!verifier.verify_query(1, &proof));
}

fn err_of(r: Result<FRIProver, FriError>) -> FriError {
    match r {
        Ok(_) => panic!("expected an error"),
        Err(e) => e,
    }
}

#[test]
fn constructor_reports_each_error() {
    let m = 97u64;
    assert_eq!(err_of(FRIProver::new(test_poly(4), 4, 4)), FriError::InvalidModulus);
    assert_eq!(err_of(FRIProver::new(test_poly(m), m, 2)), FriError::InvalidDomainSize);
    assert_eq!(err_of(FRIProver::new(test_poly(m), m, 6)), FriError::InvalidDomainSize);
    // 6 is not a quadratic residue mod 7, so no element has order 4
    assert_eq!(err_of(FRIProver::new(test_poly(7), 7, 4)), FriError::NoRootOfUnity);
}

/// Replays the commit phase by hand with one round-0 evaluation tampered
/// before its tree is built, then answers queries from the tampered tables:
/// the tampered index must be rejected while untouched ones still verify.
#[test]
fn end_to_end_rejection_of_tampered_evaluation() {
    let m = 97u64;
    let poly = test_poly(m);
    let domain0 = FRIProver::generate_domain(4, m).unwrap();
    let tampered_index = 1usize;

    // round 0, with one evaluation altered before commitment
    let mut evals0: Vec<FieldElement> = domain0.iter().map(|&x| poly.evaluate(x)).collect();
    evals0[tampered_index] = fe(evals0[tampered_index].value + 1, m);
    let leaves0: Vec<Vec<u8>> = evals0.iter().map(field_leaf_digest).collect();
    let tree0 = MerkleTree::new(leaves0);
    let mut roots = vec![tree0.get_root()];
    let alpha0 = derive_challenge(&roots, 0, m);

    // round 1: fold the true polynomial and halve the domain
    let poly1 = poly.fold(alpha0);
    let domain1 = halve_domain(&domain0, m);
    let evals1: Vec<FieldElement> = domain1.iter().map(|&x| poly1.evaluate(x)).collect();
    let leaves1: Vec<Vec<u8>> = evals1.iter().map(field_leaf_digest).collect();
    let tree1 = MerkleTree::new(leaves1);
    roots.push(tree1.get_root());
    let alpha1 = derive_challenge(&roots, 1, m);

    let poly2 = poly1.fold(alpha1);
    let final_constant = poly2.evaluate(fe(0, m));

    let answer = |q: usize| -> FRIQueryProof {
        let idx0 = q % 4;
        let opp0 = opposite_index(idx0, 4);
        let idx1 = q % 2;
        let opp1 = opposite_index(idx1, 2);
        FRIQueryProof {
            layer_proofs: vec![
                LayerQueryProof {
                    layer_index: 0,
                    point: domain0[idx0],
                    value: evals0[idx0],
                    opposite_point: domain0[opp0],
                    opposite_value: evals0[opp0],
                    merkle_proof: tree0.prove(idx0),
                    opposite_merkle_proof: tree0.prove(opp0),
                },
                LayerQueryProof {
                    layer_index: 1,
                    point: domain1[idx1],
                    value: evals1[idx1],
                    opposite_point: domain1[opp1],
                    opposite_value: evals1[opp1],
                    merkle_proof: tree1.prove(idx1),
                    opposite_merkle_proof: tree1.prove(opp1),
                },
            ],
            final_constant,
        }
    };

    let verifier = FRIVerifier::new(m, roots, 4);
    // the tampered value breaks the folding identity at its own index and
    // wherever it is revealed as the opposite value
    assert!(!verifier.verify_query(tampered_index, &answer(tampered_index)));
    assert!(!verifier.verify_query(3, &answer(3)));
    // untouched indices still verify
    assert!(verifier.verify_query(0, &answer(0)));
    assert!(verifier.verify_query(2, &answer(2)));
}

#[test]
fn constant_polynomial_commits_no_rounds() {
    let m = 97u64;
    let mut prover = FRIProver::new(Polynomial::new(vec![fe(7, m)]), m, 1).unwrap();
    let roots = prover.commit();
    assert_eq!(roots.len(), 0);
}

#[test]
fn shape_check_tells_malformed_shape_from_wrong_values() {
    let m = 97u64;
    let mut prover = FRIProver::new(test_poly(m), m, 4).unwrap();
    let roots = prover.commit();
    let verifier = FRIVerifier::new(m, roots, 4);

    // a proof with a missing layer fails the shape check already
    let mut short = verifier.query(&prover, 0).unwrap();
    short.layer_proofs.pop();
    assert!(!verifier.check_query_shape(0, &short));

    // an out-of-range index is a shape failure too
    let fine = verifier.query(&prover, 0).unwrap();
    assert!(!verifier.check_query_shape(7, &fine));

    // a tampered value keeps the shape but fails verification
    let mut tampered = verifier.query(&prover, 0).unwrap();
    let old = tampered.layer_proofs[0].value;
    tampered.layer_proofs[0].value = fe(old.value + 1, m);
    assert!(verifier.check_query_shape(0, &tampered));
    assert!(!verifier.verify_query(0, &tampered));
}
