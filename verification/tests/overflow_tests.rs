use circuit_gadgets::overflow::{
    check_row, check_witness, decompose_value, OverflowChipV2, OverflowRow, OverflowWitness,
    ValueCell,
};
use circuit_gadgets::ChipError;

// The Goldilocks prime, a 64-bit field modulus.
const P: u64 = 18446744069414584321;

fn chip(max_bits: u8, acc_cols: usize) -> OverflowChipV2 {
    OverflowChipV2::construct(OverflowChipV2::configure(P, max_bits, acc_cols).unwrap())
}

#[test]
fn scenario_b_accepts_correct_limbs() {
    // value = 5, MAX_BITS = 8, ACC_COLS = 2: big-endian limbs [0, 5]
    // under weights [256, 1] reconstruct 0 * 256 + 5 * 1 = 5.
    let c = chip(8, 2);
    let mut w = OverflowWitness::new();
    c.assign(&mut w, 5).unwrap();
    assert_eq!(w.rows.len(), 1);
    assert_eq!(w.rows[0].value, 5);
    assert_eq!(w.rows[0].limbs, vec![0, 5]);
    let instance: Vec<u64> = Vec::new();
    assert_eq!(check_witness(&c.config, &w, &instance), true);
}

#[test]
fn scenario_b_rejects_tampered_limbs() {
    // Tampering the limbs to [1, 5] reconstructs 1 * 256 + 5 = 261,
    // which no longer matches the value 5.
    let c = chip(8, 2);
    let row = OverflowRow { value: 5, limbs: vec![1, 5] };
    assert_eq!(check_row(&c.config, &row), false);
    assert_eq!(1 * 256 + 5 * 1, 261);
}

#[test]
fn range_check_is_not_redundant() {
    // With MAX_BITS = 8 and ACC_COLS = 4, the limbs [0, 0, 0, 256]
    // satisfy the reconstruction identity for the value 256, yet the
    // out-of-range limb 256 must still fail the range check.
    let c = chip(8, 4);
    let honest = OverflowRow { value: 256, limbs: vec![0, 0, 1, 0] };
    assert_eq!(check_row(&c.config, &honest), true);
    let out_of_range = OverflowRow { value: 256, limbs: vec![0, 0, 0, 256] };
    assert_eq!(check_row(&c.config, &out_of_range), false);
}

#[test]
fn decompose_then_reconstruct_is_exact() {
    // The helper returns little-endian limbs; the weighted sum gives
    // the value back exactly.
    let limbs = decompose_value(0xABCD, 8, 4).unwrap();
    assert_eq!(limbs, vec![0xCD, 0xAB, 0, 0]);
    let value: u64 = limbs
        .iter()
        .enumerate()
        .map(|(i, l)| l << (8 * i as u32))
        .sum();
    assert_eq!(value, 0xABCD);

    let limbs2 = decompose_value(65535, 8, 2).unwrap();
    assert_eq!(limbs2, vec![255, 255]);
}

#[test]
fn oversized_value_fails_decomposition() {
    assert_eq!(
        decompose_value(65536, 8, 2).unwrap_err(),
        ChipError::DecompositionOverflow
    );
    let c = chip(8, 2);
    let mut w = OverflowWitness::new();
    assert_eq!(
        c.assign(&mut w, 65536).unwrap_err(),
        ChipError::DecompositionOverflow
    );
    assert_eq!(w.rows.len(), 0);
}

#[test]
fn assign_populates_most_significant_first() {
    let c = chip(8, 4);
    let mut w = OverflowWitness::new();
    c.assign(&mut w, 0xABCD).unwrap();
    assert_eq!(w.rows[0].limbs, vec![0, 0, 0xAB, 0xCD]);
    let instance: Vec<u64> = Vec::new();
    assert_eq!(check_witness(&c.config, &w, &instance), true);
}

#[test]
fn full_width_budget_decomposes_exactly() {
    // Eight limbs of eight bits cover the whole 64-bit range.
    let limbs = decompose_value(u64::MAX, 8, 8).unwrap();
    assert_eq!(limbs, vec![255; 8]);
    // The largest field element below the modulus still assigns and
    // checks with the full column budget.
    let c = chip(8, 8);
    let mut w = OverflowWitness::new();
    c.assign(&mut w, 0xFFFFFFFF00000000).unwrap();
    assert_eq!(w.rows[0].limbs, vec![255, 255, 255, 255, 0, 0, 0, 0]);
    let instance: Vec<u64> = Vec::new();
    assert_eq!(check_witness(&c.config, &w, &instance), true);
}

#[test]
fn configure_rejects_bad_parameters() {
    assert_eq!(
        OverflowChipV2::configure(P, 0, 2).unwrap_err(),
        ChipError::InvalidConfiguration
    );
    assert_eq!(
        OverflowChipV2::configure(P, 9, 2).unwrap_err(),
        ChipError::InvalidConfiguration
    );
    assert_eq!(
        OverflowChipV2::configure(P, 8, 0).unwrap_err(),
        ChipError::InvalidConfiguration
    );
    // A field too small for the limb domain is rejected too.
    assert_eq!(
        OverflowChipV2::configure(100, 8, 2).unwrap_err(),
        ChipError::InvalidConfiguration
    );
    assert!(OverflowChipV2::configure(P, 8, 2).is_ok());
}

#[test]
fn expose_public_binds_value_cell() {
    let c = chip(8, 2);
    let mut w = OverflowWitness::new();
    let cell = c.assign(&mut w, 5).unwrap();
    c.expose_public(&mut w, &cell, 0).unwrap();
    let good = vec![5];
    assert_eq!(check_witness(&c.config, &w, &good), true);
    let bad = vec![6];
    assert_eq!(check_witness(&c.config, &w, &bad), false);
}

#[test]
fn dangling_value_cell_is_structural_error() {
    let c = chip(8, 2);
    let mut w = OverflowWitness::new();
    let fake = ValueCell { row: 3, value: 5 };
    assert_eq!(
        c.expose_public(&mut w, &fake, 0).unwrap_err(),
        ChipError::InvalidCell
    );
}
