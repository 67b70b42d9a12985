use circuit_gadgets::merkle::{
    check_region, check_witness, AssignedCell, LevelRegion, MerkleTreeV1Chip, MerkleWitness,
    PathStep,
};
use circuit_gadgets::ChipError;

// The Goldilocks prime, a 64-bit field modulus.
const P: u64 = 18446744069414584321;

fn chip() -> MerkleTreeV1Chip {
    MerkleTreeV1Chip::construct(MerkleTreeV1Chip::configure(P))
}

#[test]
fn scenario_a_accepts_correct_root() {
    // leaf = 5, path = [(sibling = 99, direction = 0)]:
    // digest 0 is the leaf, row 1 holds (5, 99, 104).
    let c = chip();
    let path = vec![PathStep { sibling: 99, direction: 0 }];
    let (witness, cell) = c.assign_merkle_path(5, &path).unwrap();
    assert_eq!(witness.regions.len(), 1);
    assert_eq!(witness.regions[0].row0_a, 5);
    assert_eq!(witness.regions[0].row0_b, 99);
    assert_eq!(witness.regions[0].row0_c, 0);
    assert_eq!(witness.regions[0].row1_a, 5);
    assert_eq!(witness.regions[0].row1_b, 99);
    assert_eq!(witness.regions[0].row1_c, 104);
    assert_eq!(cell.value, 104);

    assert_eq!(c.verify_merkle_path(5, &path, 104).unwrap(), true);
}

#[test]
fn scenario_a_rejects_wrong_root() {
    let c = chip();
    let path = vec![PathStep { sibling: 99, direction: 0 }];
    assert_eq!(c.verify_merkle_path(5, &path, 105).unwrap(), false);
}

#[test]
fn swap_gate_concrete_witnesses() {
    // For a != b the honest assignment orders the children by the bit:
    // bit = 0 keeps (a, b), bit = 1 yields (b, a); both satisfy the
    // gates.
    let c = chip();
    let mut w = MerkleWitness::new();
    let cell = c
        .assign_hashing_region(&mut w, 7, 11, 0, None, 0)
        .unwrap();
    assert_eq!(w.regions[0].row1_a, 7);
    assert_eq!(w.regions[0].row1_b, 11);
    assert_eq!(cell.value, 18);
    assert!(check_region(P, &w.regions[0]));

    let mut w2 = MerkleWitness::new();
    let cell2 = c
        .assign_hashing_region(&mut w2, 7, 11, 1, None, 0)
        .unwrap();
    assert_eq!(w2.regions[0].row1_a, 11);
    assert_eq!(w2.regions[0].row1_b, 7);
    assert_eq!(cell2.value, 18);
    assert!(check_region(P, &w2.regions[0]));
}

#[test]
fn boolean_gate_rejects_non_boolean_bit() {
    // A direction value outside {0, 1} is assigned verbatim and only
    // fails the satisfaction check.
    let c = chip();
    let mut w = MerkleWitness::new();
    c.assign_hashing_region(&mut w, 7, 11, 5, None, 0).unwrap();
    let instance: Vec<u64> = Vec::new();
    assert_eq!(check_witness(P, &w, &instance), false);
}

#[test]
fn non_boolean_bit_rejected_end_to_end() {
    // The digest chain still combines 5 and 99, but the boolean gate
    // rejects the witness whatever root is declared.
    let c = chip();
    let path = vec![PathStep { sibling: 99, direction: 5 }];
    assert_eq!(c.verify_merkle_path(5, &path, 104).unwrap(), false);
}

#[test]
fn multi_level_digest_chain() {
    // leaf = 1, path = [(2, 0), (3, 1)]: digest 1 = 1 + 2 = 3,
    // digest 2 = 3 + 3 = 6.
    let c = chip();
    let path = vec![
        PathStep { sibling: 2, direction: 0 },
        PathStep { sibling: 3, direction: 1 },
    ];
    let (w, cell) = c.assign_merkle_path(1, &path).unwrap();
    assert_eq!(w.regions.len(), 2);
    // The second region's first cell is copied from the first digest.
    assert_eq!(w.regions[1].row0_a, 3);
    assert_eq!(w.regions[1].row1_a, 3);
    assert_eq!(w.regions[1].row1_b, 3);
    assert_eq!(cell.value, 6);
    assert_eq!(c.verify_merkle_path(1, &path, 6).unwrap(), true);
    assert_eq!(c.verify_merkle_path(1, &path, 7).unwrap(), false);
}

#[test]
fn tampered_sibling_invalidates_proof() {
    let c = chip();
    let path = vec![
        PathStep { sibling: 41, direction: 1 },
        PathStep { sibling: 17, direction: 0 },
    ];
    let root = {
        let (_, cell) = c.assign_merkle_path(9, &path).unwrap();
        cell.value
    };
    assert_eq!(c.verify_merkle_path(9, &path, root).unwrap(), true);
    let tampered = vec![
        PathStep { sibling: 42, direction: 1 },
        PathStep { sibling: 17, direction: 0 },
    ];
    assert_eq!(c.verify_merkle_path(9, &tampered, root).unwrap(), false);
}

#[test]
fn missing_predecessor_is_structural_error() {
    let c = chip();
    let mut w = MerkleWitness::new();
    let res = c.assign_hashing_region(&mut w, 7, 11, 0, None, 1);
    assert_eq!(res.unwrap_err(), ChipError::MissingPredecessor);
    assert_eq!(w.regions.len(), 0);
}

#[test]
fn dangling_cell_is_structural_error() {
    let c = chip();
    let mut w = MerkleWitness::new();
    let fake = AssignedCell { region: 5, value: 0 };
    let res = c.assign_hashing_region(&mut w, 7, 11, 0, Some(&fake), 1);
    assert_eq!(res.unwrap_err(), ChipError::InvalidCell);

    let res2 = c.expose_public(&mut w, &fake, 0);
    assert_eq!(res2.unwrap_err(), ChipError::InvalidCell);
}

#[test]
fn binding_outside_instance_column_fails_check() {
    let c = chip();
    let mut w = MerkleWitness::new();
    let cell = c
        .assign_hashing_region(&mut w, 7, 11, 0, None, 0)
        .unwrap();
    c.expose_public(&mut w, &cell, 3).unwrap();
    let instance = vec![18];
    assert_eq!(check_witness(P, &w, &instance), false);
}

#[test]
fn broken_copy_constraint_fails_check() {
    // Chain two levels honestly, then overwrite the copied cell: the
    // permutation check must reject the witness.
    let c = chip();
    let path = vec![
        PathStep { sibling: 2, direction: 0 },
        PathStep { sibling: 3, direction: 0 },
    ];
    let (mut w, _) = c.assign_merkle_path(1, &path).unwrap();
    let instance: Vec<u64> = Vec::new();
    assert_eq!(check_witness(P, &w, &instance), true);
    // The replacement region satisfies every gate on its own; only
    // the copy constraint to the previous digest is broken.
    let broken = LevelRegion {
        row0_a: 4,
        row0_b: 3,
        row0_c: 0,
        row1_a: 4,
        row1_b: 3,
        row1_c: 7,
    };
    assert!(check_region(P, &broken));
    w.regions[1] = broken;
    assert_eq!(check_witness(P, &w, &instance), false);
}
