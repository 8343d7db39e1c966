use esa_rust::{
    accumulator_value_of, element_to_field, AccumulatorError, DynamicAccumulator, QueryResult,
};

#[test]
fn test_dynamic_accumulator_add() {
    let mut dyn_acc = DynamicAccumulator::new();
    let add_proof1 = dyn_acc.add(&1i64).unwrap();
    let add_proof2 = dyn_acc.add(&2i64).unwrap();
    let add_proof3_res = dyn_acc.add(&1i64); // Add 1 again

    assert!(add_proof1.verify());
    assert!(add_proof2.verify());
    assert!(add_proof3_res.is_err());

    let static_acc = accumulator_value_of(&vec![1i64, 2]);

    assert_eq!(dyn_acc.acc_value, static_acc);
    assert_eq!(dyn_acc.len(), 2);
    assert!(dyn_acc.contains(&1i64));
    assert!(dyn_acc.contains(&2i64));
}

#[test]
fn test_dynamic_accumulator_delete() {
    let mut dyn_acc = DynamicAccumulator::new();
    dyn_acc.add(&1i64).unwrap();
    dyn_acc.add(&2i64).unwrap();

    let delete_proof1 = dyn_acc.delete(&1i64).unwrap();
    assert!(delete_proof1.verify());

    let static_acc1 = accumulator_value_of(&vec![2i64]);
    assert_eq!(dyn_acc.acc_value, static_acc1);
    assert!(!dyn_acc.contains(&1i64));

    assert!(dyn_acc.delete(&1i64).is_err());

    let delete_proof2 = dyn_acc.delete(&2i64).unwrap();
    assert!(delete_proof2.verify());

    let static_acc2 = accumulator_value_of(&vec![]);
    assert_eq!(dyn_acc.acc_value, static_acc2);
    assert_eq!(dyn_acc.len(), 0);

    assert!(dyn_acc.delete(&3i64).is_err());
}

#[test]
fn test_membership_proof() {
    let mut dyn_acc = DynamicAccumulator::new();
    dyn_acc.add(&100).unwrap();
    dyn_acc.add(&200).unwrap();
    dyn_acc.add(&300).unwrap();

    let proof = dyn_acc.prove_membership(&200).unwrap();
    assert!(dyn_acc.verify_membership(&proof));
    assert!(proof.verify(&dyn_acc.acc_value));

    let witness_static = accumulator_value_of(&vec![100i64, 300]);
    assert_eq!(proof.witness, witness_static);

    let mut wrong_proof = proof.clone();
    wrong_proof.element = element_to_field(&999i64);
    assert!(!dyn_acc.verify_membership(&wrong_proof));

    assert!(dyn_acc.prove_membership(&999i64).is_err());
}

#[test]
fn test_non_membership_proof() {
    let mut dyn_acc = DynamicAccumulator::new();
    dyn_acc.add(&100).unwrap();
    dyn_acc.add(&200).unwrap();

    let proof = dyn_acc.prove_non_membership(&300).unwrap();
    assert!(dyn_acc.verify_non_membership(&proof));

    assert!(dyn_acc.prove_non_membership(&100).is_err());

    let mut tampered_proof = proof.clone();
    tampered_proof.element = element_to_field(&400i64);
    assert!(!dyn_acc.verify_non_membership(&tampered_proof));

    let empty_acc = DynamicAccumulator::new();
    let proof_for_empty = empty_acc.prove_non_membership(&100).unwrap();
    assert!(empty_acc.verify_non_membership(&proof_for_empty));
}

#[test]
fn test_update_and_query() {
    let mut dyn_acc = DynamicAccumulator::new();
    dyn_acc.add(&100).unwrap();
    dyn_acc.add(&200).unwrap();

    let (delete_proof, add_proof) = dyn_acc.update(&100, &150).unwrap();
    assert!(delete_proof.verify());
    assert!(add_proof.verify());

    match dyn_acc.query(&100).unwrap() {
        QueryResult::NonMembership(proof) => {
            assert!(dyn_acc.verify_non_membership(&proof));
        }
        _ => panic!("Should have been a non-membership proof for 100"),
    }

    match dyn_acc.query(&150).unwrap() {
        QueryResult::Membership(proof) => {
            assert!(dyn_acc.verify_membership(&proof));
        }
        _ => panic!("Should have been a membership proof for 150"),
    }

    match dyn_acc.query(&200).unwrap() {
        QueryResult::Membership(proof) => {
            assert!(dyn_acc.verify_membership(&proof));
        }
        _ => panic!("Should have been a membership proof for 200"),
    }

    assert!(dyn_acc.update(&999, &1000).is_err());
}

#[test]
fn scenario_add_two_and_prove_membership() {
    let mut acc = DynamicAccumulator::new();
    acc.add(&1).unwrap();
    acc.add(&2).unwrap();
    let proof = acc.prove_membership(&2).unwrap();
    assert!(acc.verify_membership(&proof));
    assert_eq!(acc.acc_value, accumulator_value_of(&vec![1i64, 2]));
    assert_eq!(proof.witness, accumulator_value_of(&vec![1i64]));
}

#[test]
fn scenario_old_membership_proof_fails_after_delete() {
    let mut acc = DynamicAccumulator::new();
    acc.add(&100).unwrap();
    acc.add(&200).unwrap();
    let proof = acc.prove_membership(&200).unwrap();
    assert!(acc.verify_membership(&proof));
    acc.delete(&200).unwrap();
    assert!(!acc.verify_membership(&proof));
    assert_eq!(acc.acc_value, accumulator_value_of(&vec![100i64]));
}

#[test]
fn scenario_non_membership_of_absent_element() {
    let mut acc = DynamicAccumulator::new();
    acc.add(&100).unwrap();
    acc.add(&200).unwrap();
    let proof = acc.prove_non_membership(&300).unwrap();
    assert!(acc.verify_non_membership(&proof));
    assert_eq!(proof.element, element_to_field(&300));
}

#[test]
fn scenario_non_membership_in_empty_accumulator() {
    let acc = DynamicAccumulator::new();
    assert_eq!(acc.acc_value, accumulator_value_of(&vec![]));
    let proof = acc.prove_non_membership(&100).unwrap();
    assert!(acc.verify_non_membership(&proof));
}

#[test]
fn add_then_delete_restores_value() {
    let mut acc = DynamicAccumulator::new();
    acc.add(&7).unwrap();
    acc.add(&8).unwrap();
    let before = acc.acc_value.clone();
    let p = acc.add(&9).unwrap();
    assert!(acc.acc_value != before);
    assert_eq!(p.new_acc_value, acc.acc_value);
    acc.delete(&9).unwrap();
    assert_eq!(acc.acc_value, before);
    assert_eq!(acc.len(), 2);
    assert!(!acc.contains(&9));
}

#[test]
fn commitment_is_independent_of_insertion_order() {
    let mut a = DynamicAccumulator::new();
    a.add_batch(&vec![5, 6, 7]).unwrap();
    let mut b = DynamicAccumulator::new();
    b.add_batch(&vec![7, 5, 6]).unwrap();
    assert_eq!(a.acc_value, b.acc_value);
    assert_eq!(a.acc_value, accumulator_value_of(&vec![6i64, 7, 5]));
}

#[test]
fn membership_proof_is_portable_across_equal_values() {
    let mut a = DynamicAccumulator::new();
    a.add_batch(&vec![10, 20]).unwrap();
    let mut b = DynamicAccumulator::new();
    b.add_batch(&vec![20, 10]).unwrap();
    let proof = a.prove_membership(&10).unwrap();
    assert!(b.verify_membership(&proof));
    b.add(&30).unwrap();
    assert!(!b.verify_membership(&proof));
}

#[test]
fn transition_proofs_reject_swapped_values() {
    let mut acc = DynamicAccumulator::new();
    let p = acc.add(&42).unwrap();
    let mut swapped = p.clone();
    swapped.old_acc_value = p.new_acc_value.clone();
    swapped.new_acc_value = p.old_acc_value.clone();
    assert!(!swapped.verify());
    let d = acc.delete(&42).unwrap();
    assert!(d.verify());
    let mut wrong = d.clone();
    wrong.element = element_to_field(&43);
    assert!(!wrong.verify());
}

#[test]
fn tampered_non_membership_witness_is_rejected() {
    let mut acc = DynamicAccumulator::new();
    acc.add_batch(&vec![1, 2, 3]).unwrap();
    let proof = acc.prove_non_membership(&4).unwrap();
    assert!(acc.verify_non_membership(&proof));
    let other = acc.prove_non_membership(&5).unwrap();
    let mut tampered = proof.clone();
    tampered.g1_a = other.g1_a.clone();
    assert!(!acc.verify_non_membership(&tampered));
    let mut tampered = proof.clone();
    tampered.witness = other.witness.clone();
    assert!(!acc.verify_non_membership(&tampered));
}

#[test]
fn error_variants() {
    let mut acc = DynamicAccumulator::new();
    acc.add(&1).unwrap();
    assert_eq!(acc.add(&1).unwrap_err(), AccumulatorError::Duplicate);
    assert_eq!(acc.delete(&2).unwrap_err(), AccumulatorError::NotFound);
    assert_eq!(acc.prove_membership(&2).unwrap_err(), AccumulatorError::NotFound);
    assert_eq!(acc.prove_non_membership(&1).unwrap_err(), AccumulatorError::Present);
    assert_eq!(acc.update(&2, &3).unwrap_err(), AccumulatorError::NotFound);
}

#[test]
fn update_is_not_atomic() {
    let mut acc = DynamicAccumulator::new();
    acc.add_batch(&vec![1, 2]).unwrap();
    assert_eq!(acc.update(&1, &2).unwrap_err(), AccumulatorError::Duplicate);
    assert!(!acc.contains(&1));
    assert!(acc.contains(&2));
    assert_eq!(acc.len(), 1);
    assert_eq!(acc.acc_value, accumulator_value_of(&vec![2i64]));
}

#[test]
fn add_batch_keeps_prefix_on_duplicate() {
    let mut acc = DynamicAccumulator::new();
    acc.add(&3).unwrap();
    assert_eq!(acc.add_batch(&vec![1, 2, 3, 4]).unwrap_err(), AccumulatorError::Duplicate);
    assert_eq!(acc.len(), 3);
    assert!(acc.contains(&1));
    assert!(acc.contains(&2));
    assert!(!acc.contains(&4));
    assert_eq!(acc.acc_value, accumulator_value_of(&vec![3i64, 1, 2]));
}

#[test]
fn element_map_is_deterministic_and_separates_values() {
    assert_eq!(element_to_field(&12345), element_to_field(&12345));
    assert_ne!(element_to_field(&1), element_to_field(&2));
    assert_ne!(element_to_field(&0), esa_rust::Scalar::zero());
}

#[test]
fn empty_set_non_membership_proof_is_trivial_bezout() {
    let acc = DynamicAccumulator::new();
    let proof = acc.prove_non_membership(&100).unwrap();
    assert_eq!(proof.witness, esa_rust::G2Point::generator_pow(&esa_rust::Scalar::one()));
    assert_eq!(proof.g1_a, esa_rust::G1Point::generator_pow(&esa_rust::Scalar::zero()));
}

#[test]
fn snapshot_restores_state_after_failed_update() {
    let mut acc = DynamicAccumulator::new();
    acc.add_batch(&vec![1, 2]).unwrap();
    let snapshot = acc.clone();
    assert!(acc.update(&1, &2).is_err());
    assert!(acc != snapshot);
    acc = snapshot.clone();
    assert!(acc == snapshot);
    assert!(acc.contains(&1));
    assert_eq!(acc.acc_value(), accumulator_value_of(&vec![1i64, 2]));
}

#[test]
fn accumulators_with_same_set_are_equal() {
    let mut a = DynamicAccumulator::new();
    a.add_batch(&vec![3, 4]).unwrap();
    let mut b = DynamicAccumulator::new();
    b.add_batch(&vec![4, 3]).unwrap();
    assert!(a == b);
    let pa = a.prove_membership(&3).unwrap();
    let pb = b.prove_membership(&3).unwrap();
    assert_eq!(pa, pb);
}

#[test]
fn update_proofs_chain_through_intermediate_value() {
    let mut acc = DynamicAccumulator::new();
    acc.add_batch(&vec![10, 20]).unwrap();
    let (d, a) = acc.update(&10, &30).unwrap();
    assert_eq!(d.new_acc_value, a.old_acc_value);
    assert_eq!(d.new_acc_value, accumulator_value_of(&vec![20i64]));
    assert!(d.verify());
    assert!(a.verify());
}
