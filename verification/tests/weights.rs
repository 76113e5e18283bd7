use kompyle::algebra::BoolSemiring;
use kompyle::circuit::weights::{literal_index, PosNegWeights, PosOnlyWeights, Weights};

#[test]
fn index_of_a_literal() {
    assert_eq!(literal_index(1), 0);
    assert_eq!(literal_index(-1), 0);
    assert_eq!(literal_index(7), 6);
    assert_eq!(literal_index(i32::MIN), 2147483647);
}

#[test]
fn new_tables_hold_zeros() {
    let table: PosNegWeights<i32> = PosNegWeights::new(3);
    assert_eq!(table.len(), 3);
    assert_eq!(table.into_vecs(), (vec![0, 0, 0], vec![0, 0, 0]));
    let table: PosOnlyWeights<i32> = PosOnlyWeights::new(2);
    assert_eq!(table.len(), 2);
    assert_eq!(table.into_vec(), vec![0, 0]);
    let empty: PosOnlyWeights<i32> = PosOnlyWeights::new(0);
    assert_eq!(empty.len(), 0);
}

#[test]
fn pos_neg_weights_look_up_by_polarity() {
    let table: PosNegWeights<i32> = PosNegWeights::from_vecs(vec![10, 20], vec![30, 40]);
    assert_eq!(table.val(1), Some(10));
    assert_eq!(table.val(2), Some(20));
    assert_eq!(table.val(-1), Some(30));
    assert_eq!(table.val(-2), Some(40));
    assert_eq!(table.into_vecs(), (vec![10, 20], vec![30, 40]));
}

#[test]
fn pos_only_weights_negate_for_negative_literals() {
    let table: PosOnlyWeights<i32> = PosOnlyWeights::from_vec(vec![10, 20]);
    assert_eq!(table.val(2), Some(20));
    assert_eq!(table.val(-2), Some(-19));
    let table: PosOnlyWeights<BoolSemiring> =
        PosOnlyWeights::from_vec(vec![BoolSemiring(true), BoolSemiring(false)]);
    assert_eq!(table.val(-1), Some(BoolSemiring(false)));
    assert_eq!(table.val(-2), Some(BoolSemiring(true)));
    assert_eq!(table.into_vec(), vec![BoolSemiring(true), BoolSemiring(false)]);
}

#[test]
fn unknown_literals_have_no_weight() {
    let table: PosNegWeights<i32> = PosNegWeights::from_vecs(vec![10], vec![30]);
    assert_eq!(table.val(2), None);
    assert_eq!(table.val(-2), None);
    assert_eq!(table.val(0), None);
    assert_eq!(table.val(i32::MIN), None);
    let table: PosOnlyWeights<i32> = PosOnlyWeights::from_vec(vec![]);
    assert_eq!(table.val(1), None);
    assert_eq!(table.val(-1), None);
    assert_eq!(table.val(0), None);
}

#[test]
fn pos_neg_weights_accumulate_by_polarity() {
    let mut table: PosNegWeights<i32> = PosNegWeights::from_vecs(vec![10, 20], vec![30, 40]);
    table.add(2, &5);
    table.add(-1, &7);
    table.add(-1, &1);
    assert_eq!(table.into_vecs(), (vec![10, 25], vec![38, 40]));
}

#[test]
fn pos_only_weights_subtract_for_negative_literals() {
    let mut table: PosOnlyWeights<i32> = PosOnlyWeights::from_vec(vec![10, 20]);
    table.add(1, &5);
    table.add(-2, &7);
    assert_eq!(table.into_vec(), vec![15, 13]);
}
