use esa_rust::{accumulator_value_of, DynamicAccumulator};

fn accumulator_of(values: &[i64]) -> DynamicAccumulator {
    let mut acc = DynamicAccumulator::new();
    acc.add_batch(&values.to_vec()).unwrap();
    acc
}

#[test]
fn scenario_intersection_of_overlapping_sets() {
    let acc1 = accumulator_of(&[100, 200, 300]);
    let acc2 = accumulator_of(&[200, 300, 400]);
    let (inter, proof) = acc1.prove_intersection(&acc2).unwrap();
    assert_eq!(inter.len(), 2);
    assert!(inter.contains(&200));
    assert!(inter.contains(&300));
    assert!(!inter.contains(&100));
    assert!(!inter.contains(&400));
    assert_eq!(inter.acc_value, accumulator_value_of(&vec![200i64, 300]));
    assert!(DynamicAccumulator::verify_intersection(
        &acc1.acc_value,
        &acc2.acc_value,
        &inter.acc_value,
        &proof
    ));
    let wrong = accumulator_value_of(&vec![200i64]);
    assert!(!DynamicAccumulator::verify_intersection(
        &acc1.acc_value,
        &acc2.acc_value,
        &wrong,
        &proof
    ));
}

#[test]
fn scenario_union_of_overlapping_sets() {
    let acc1 = accumulator_of(&[100, 200, 300]);
    let acc2 = accumulator_of(&[200, 300, 400]);
    let (union, proof) = acc1.prove_union(&acc2).unwrap();
    assert_eq!(union.len(), 4);
    for v in [100i64, 200, 300, 400] {
        assert!(union.contains(&v));
    }
    assert_eq!(union.acc_value, accumulator_value_of(&vec![100i64, 200, 300, 400]));
    assert!(DynamicAccumulator::verify_union(
        &acc1.acc_value,
        &acc2.acc_value,
        &union.acc_value,
        &proof
    ));
    let wrong = accumulator_value_of(&vec![100i64, 200, 300]);
    assert!(!DynamicAccumulator::verify_union(
        &acc1.acc_value,
        &acc2.acc_value,
        &wrong,
        &proof
    ));
}

#[test]
fn intersection_of_disjoint_sets_is_empty() {
    let acc3 = accumulator_of(&[500, 600]);
    let acc4 = accumulator_of(&[700, 800]);
    let (inter, proof) = acc3.prove_intersection(&acc4).unwrap();
    assert_eq!(inter.len(), 0);
    assert_eq!(inter.acc_value, DynamicAccumulator::new().acc_value);
    assert!(DynamicAccumulator::verify_intersection(
        &acc3.acc_value,
        &acc4.acc_value,
        &inter.acc_value,
        &proof
    ));
}

#[test]
fn intersection_proof_rejects_swapped_accumulators() {
    let acc1 = accumulator_of(&[1, 2, 3]);
    let acc2 = accumulator_of(&[3, 4]);
    let (inter, proof) = acc1.prove_intersection(&acc2).unwrap();
    assert!(!DynamicAccumulator::verify_intersection(
        &acc2.acc_value,
        &acc1.acc_value,
        &inter.acc_value,
        &proof
    ));
    let mut tampered = proof.clone();
    tampered.u_g1 = proof.v_g1.clone();
    assert!(!DynamicAccumulator::verify_intersection(
        &acc1.acc_value,
        &acc2.acc_value,
        &inter.acc_value,
        &tampered
    ));
}

#[test]
fn union_with_subset_is_the_larger_set() {
    let acc1 = accumulator_of(&[1, 2, 3]);
    let acc2 = accumulator_of(&[2]);
    let (union, proof) = acc1.prove_union(&acc2).unwrap();
    assert_eq!(union.acc_value, acc1.acc_value);
    assert!(DynamicAccumulator::verify_union(
        &acc1.acc_value,
        &acc2.acc_value,
        &union.acc_value,
        &proof
    ));
}

#[test]
fn union_with_values_discloses_union_and_intersection() {
    let set1_values = vec![100i64, 200, 300];
    let set2_values = vec![200i64, 300, 400];
    let mut acc1 = DynamicAccumulator::new();
    acc1.add_batch(&set1_values).unwrap();
    let mut acc2 = DynamicAccumulator::new();
    acc2.add_batch(&set2_values).unwrap();
    let (union_values, intersection_values, union_acc, union_proof) = acc1
        .prove_union_with_values(&acc2, &set1_values, &set2_values)
        .unwrap();
    assert_eq!(union_values, vec![100, 200, 300, 400]);
    assert_eq!(intersection_values, vec![200, 300]);
    assert_eq!(union_acc.acc_value, accumulator_value_of(&union_values));
    assert!(DynamicAccumulator::verify_union_with_values(
        &acc1.acc_value,
        &acc2.acc_value,
        &union_values,
        &intersection_values,
        &union_proof
    ));
    assert!(!DynamicAccumulator::verify_union_with_values(
        &acc1.acc_value,
        &acc2.acc_value,
        &vec![100, 200, 300],
        &intersection_values,
        &union_proof
    ));
    assert!(!DynamicAccumulator::verify_union_with_values(
        &acc1.acc_value,
        &acc2.acc_value,
        &union_values,
        &vec![200],
        &union_proof
    ));
}

#[test]
fn intersection_with_values_lists_common_values() {
    let values1 = vec![1i64, 2, 3, 4];
    let acc1 = accumulator_of(&values1);
    let acc2 = accumulator_of(&[3, 4, 5]);
    let (vals, inter, proof) = acc1.prove_intersection_with_values(&acc2, &values1).unwrap();
    assert_eq!(vals, vec![3, 4]);
    assert_eq!(inter.acc_value, accumulator_value_of(&vals));
    assert!(DynamicAccumulator::verify_intersection(
        &acc1.acc_value,
        &acc2.acc_value,
        &inter.acc_value,
        &proof
    ));
}

#[test]
fn default_is_empty() {
    let acc = DynamicAccumulator::default();
    assert_eq!(acc.len(), 0);
    assert_eq!(acc.acc_value, DynamicAccumulator::new().acc_value);
}
