//! A Merkle-path membership gadget: a two-row region per tree level,
//! with a boolean gate on the direction bit, a swap gate ordering the
//! two children, and a combine gate deriving the level digest.
//!
//! The module models the witness table the constraint-system backend
//! holds, the copy constraints that chain one level's digest into the
//! next, the permutation binding of a cell to a public-input row, and
//! the backend's exhaustive constraint-satisfaction check.

use vstd::prelude::*;
use vstd::arithmetic::div_mod::{
    lemma_add_mod_noop_right, lemma_mod_twice, lemma_mul_mod_noop, lemma_small_mod,
    lemma_sub_mod_noop,
};

use crate::field::{
    add_f, add_mod, lemma_add_cancel, lemma_mul_f_zero, lemma_sub_f_zero, mul_f, mul_mod,
    prime_modulus, sub_f, sub_mod,
};
use crate::ChipError;

verus! {

/// One level of an authentication path: the sibling digest and the
/// direction bit (0: the running digest is the left child, 1: right).
#[derive(Clone, Copy, Debug, PartialEq, Eq, Structural)]
pub struct PathStep {
    pub sibling: u64,
    pub direction: u64,
}

/// The two-row region one chip activation fills.  Row 0 holds
/// (incoming digest, sibling, direction bit) under the boolean and
/// swap selectors; row 1 holds (left child, right child, digest) under
/// the combine selector.
#[derive(Clone, Copy, Debug, PartialEq, Eq, Structural)]
pub struct LevelRegion {
    pub row0_a: u64,
    pub row0_b: u64,
    pub row0_c: u64,
    pub row1_a: u64,
    pub row1_b: u64,
    pub row1_c: u64,
}

/// A handle to the digest cell produced by one region, used to chain
/// levels by copy constraint and to bind the root to a public input.
#[derive(Clone, Copy, Debug, PartialEq, Eq, Structural)]
pub struct AssignedCell {
    pub region: usize,
    pub value: u64,
}

/// The witness table: the regions in assignment order, the copy
/// constraints (source region whose digest is copied, destination
/// region whose first cell receives it), and the public bindings
/// (region whose digest is bound, public-input row).
pub struct MerkleWitness {
    pub regions: Vec<LevelRegion>,
    pub copies: Vec<(usize, usize)>,
    pub bindings: Vec<(usize, usize)>,
}

/// The immutable configuration: the modulus of the field the advice
/// columns range over.  Columns and selectors are fixed by the model's
/// two-row layout.
#[derive(Clone, Copy, Debug, PartialEq, Eq, Structural)]
pub struct MerkleTreeV1Config {
    pub modulus: u64,
}

/// The chip: stateless, sharing one configuration across activations.
pub struct MerkleTreeV1Chip {
    pub config: MerkleTreeV1Config,
}

/// The boolean gate polynomial at a row: `c * (1 - c)` in the field.
/// It vanishes exactly on the booleans.
pub open spec fn bool_gate(p: int, c: int) -> int {
    mul_f(p, c, sub_f(p, 1, c))
}

/// The swap gate polynomial relating row 0's `(a, b, c)` to row 1's
/// `(l, r)`: `2c(b - a) - (l - a) - (b - r)` in the field.
pub open spec fn swap_gate(p: int, a: int, b: int, c: int, l: int, r: int) -> int {
    sub_f(p, sub_f(p, mul_f(p, mul_f(p, 2int % p, c), sub_f(p, b, a)), sub_f(p, l, a)), sub_f(p, b, r))
}

/// The combine gate polynomial at row 1: `a + b - c` in the field,
/// the placeholder two-to-one round function.
pub open spec fn hash_gate(p: int, a: int, b: int, c: int) -> int {
    sub_f(p, add_f(p, a, b), c)
}

/// Every cell of the region holds a field element.
pub open spec fn region_wf(p: int, reg: LevelRegion) -> bool {
    &&& reg.row0_a < p
    &&& reg.row0_b < p
    &&& reg.row0_c < p
    &&& reg.row1_a < p
    &&& reg.row1_b < p
    &&& reg.row1_c < p
}

/// All three gates vanish on the region, with the selectors enabled as
/// the chip enables them: boolean and swap on row 0, combine on row 1.
pub open spec fn region_satisfied(p: int, reg: LevelRegion) -> bool {
    &&& bool_gate(p, reg.row0_c as int) == 0
    &&& swap_gate(
        p,
        reg.row0_a as int,
        reg.row0_b as int,
        reg.row0_c as int,
        reg.row1_a as int,
        reg.row1_b as int,
    ) == 0
    &&& hash_gate(p, reg.row1_a as int, reg.row1_b as int, reg.row1_c as int) == 0
}

/// The region an honest activation writes for an incoming digest, a
/// sibling and a direction value: children swapped exactly when the
/// direction is nonzero, digest the field sum of the children.
pub open spec fn honest_region(p: int, incoming: u64, sibling: u64, dir: u64) -> LevelRegion {
    let l = if dir != 0 {
        sibling
    } else {
        incoming
    };
    let r = if dir != 0 {
        incoming
    } else {
        sibling
    };
    (LevelRegion {
        row0_a: incoming,
        row0_b: sibling,
        row0_c: dir,
        row1_a: l,
        row1_b: r,
        row1_c: add_f(p, l as int, r as int) as u64,
    })
}

/// The digest one level derives from the running digest `d` and a
/// (sibling, direction) pair, per the swap rule and the combine gate.
pub open spec fn level_digest(p: int, d: int, sibling: int, dir: int) -> int {
    if dir != 0 {
        add_f(p, sibling, d)
    } else {
        add_f(p, d, sibling)
    }
}

/// The digest chain: digest 0 is the leaf, and each level combines the
/// previous digest with its sibling in the order the direction picks.
pub open spec fn merkle_digest(p: int, leaf: int, path: Seq<PathStep>) -> int
    decreases path.len(),
{
    if path.len() == 0 {
        leaf
    } else {
        level_digest(
            p,
            merkle_digest(p, leaf, path.drop_last()),
            path.last().sibling as int,
            path.last().direction as int,
        )
    }
}

/// Every sibling and direction value of the path is a field element.
pub open spec fn path_wf(p: int, path: Seq<PathStep>) -> bool {
    forall|i: int|
        0 <= i < path.len() ==> (#[trigger] path[i]).sibling < p && path[i].direction < p
}

/// Every direction value of the path is a boolean.
pub open spec fn path_boolean(path: Seq<PathStep>) -> bool {
    forall|i: int|
        0 <= i < path.len() ==> ((#[trigger] path[i]).direction == 0 || path[i].direction == 1)
}

/// Every region of the witness holds field elements.
pub open spec fn witness_wf(p: int, w: MerkleWitness) -> bool {
    forall|i: int| 0 <= i < w.regions@.len() ==> region_wf(p, #[trigger] w.regions@[i])
}

/// Every region satisfies its gates.
pub open spec fn gates_ok(p: int, w: MerkleWitness) -> bool {
    forall|i: int| 0 <= i < w.regions@.len() ==> region_satisfied(p, #[trigger] w.regions@[i])
}

/// One copy constraint holds: both regions exist and the destination's
/// first cell equals the source's digest cell.
pub open spec fn copy_ok(w: MerkleWitness, c: (usize, usize)) -> bool {
    &&& c.0 < w.regions@.len()
    &&& c.1 < w.regions@.len()
    &&& w.regions@[c.1 as int].row0_a == w.regions@[c.0 as int].row1_c
}

/// Every recorded copy constraint holds.
pub open spec fn copies_ok(w: MerkleWitness) -> bool {
    forall|i: int| 0 <= i < w.copies@.len() ==> copy_ok(w, #[trigger] w.copies@[i])
}

/// One public binding holds: the region exists, the public-input row
/// exists, and the bound digest equals the declared public value.
pub open spec fn binding_ok(w: MerkleWitness, instance: Seq<u64>, b: (usize, usize)) -> bool {
    &&& b.0 < w.regions@.len()
    &&& b.1 < instance.len()
    &&& w.regions@[b.0 as int].row1_c == instance[b.1 as int]
}

/// Every recorded public binding holds.
pub open spec fn bindings_ok(w: MerkleWitness, instance: Seq<u64>) -> bool {
    forall|i: int| 0 <= i < w.bindings@.len() ==> binding_ok(w, instance, #[trigger] w.bindings@[i])
}

/// The backend accepts the witness against the declared public inputs:
/// every gate vanishes, every copy constraint and public binding holds.
pub open spec fn witness_accepted(p: int, w: MerkleWitness, instance: Seq<u64>) -> bool {
    &&& gates_ok(p, w)
    &&& copies_ok(w)
    &&& bindings_ok(w, instance)
}

/// The relation between the witness before and after one successful
/// activation: one honest region appended, one copy recorded when the
/// incoming value was copied from an earlier digest cell, and a handle
/// to the new digest cell returned.
pub open spec fn level_assigned(
    p: int,
    old_w: MerkleWitness,
    new_w: MerkleWitness,
    incoming: u64,
    sibling: u64,
    dir: u64,
    copied_from: Option<usize>,
    cell: AssignedCell,
) -> bool {
    &&& new_w.regions@ == old_w.regions@.push(honest_region(p, incoming, sibling, dir))
    &&& new_w.bindings@ == old_w.bindings@
    &&& (match copied_from {
        Some(src) => new_w.copies@ == old_w.copies@.push(
            (src, old_w.regions@.len() as usize),
        ),
        None => new_w.copies@ == old_w.copies@,
    })
    &&& cell.region == old_w.regions@.len()
    &&& cell.value == honest_region(p, incoming, sibling, dir).row1_c
    &&& cell.value == level_digest(p, incoming as int, sibling as int, dir as int)
}

impl MerkleWitness {
    /// An empty witness table.
    pub fn new() -> (w: MerkleWitness)
        ensures
            w.regions@ == Seq::<LevelRegion>::empty(),
            w.copies@ == Seq::<(usize, usize)>::empty(),
            w.bindings@ == Seq::<(usize, usize)>::empty(),
    {
        MerkleWitness { regions: Vec::new(), copies: Vec::new(), bindings: Vec::new() }
    }
}

/// The boolean gate vanishes on 0 and 1 in any ring of residues.
pub proof fn lemma_bool_gate_on_booleans(p: int, c: int)
    requires
        p >= 2,
        c == 0 || c == 1,
    ensures
        bool_gate(p, c) == 0,
{
    lemma_small_mod(0, p as nat);
    if c == 0 {
        assert(0 * sub_f(p, 1, 0) == 0);
    } else {
        assert(sub_f(p, 1, 1) == 0);
        assert(1 * 0 == 0);
    }
}

/// Boolean gate: over a prime field the identity `c * (1 - c) = 0`
/// holds exactly when `c` is 0 or 1; every other residue violates it.
pub proof fn lemma_boolean_gate(p: int, c: int)
    requires
        prime_modulus(p),
        0 <= c < p,
    ensures
        bool_gate(p, c) == 0 <==> (c == 0 || c == 1),
{
    if c == 0 || c == 1 {
        lemma_bool_gate_on_booleans(p, c);
    }
    if bool_gate(p, c) == 0 {
        let s = sub_f(p, 1, c);
        assert(0 <= s < p);
        lemma_mul_f_zero(p, c, s);
        if s == 0 {
            lemma_sub_f_zero(p, 1, c);
        }
    }
}

/// Swap gate: for boolean `c` the identity vanishes on exactly the
/// pair the swap rule produces, `(a, b)` for `c = 0` and `(b, a)` for
/// `c = 1`.
pub proof fn lemma_swap_gate(p: int, a: int, b: int, c: int)
    requires
        p >= 2,
        0 <= a < p,
        0 <= b < p,
    ensures
        c == 0 ==> swap_gate(p, a, b, c, a, b) == 0,
        c == 1 ==> swap_gate(p, a, b, c, b, a) == 0,
{
    lemma_small_mod(0, p as nat);
    if c == 0 {
        assert(mul_f(p, 2int % p, 0) == 0) by {
            assert((2int % p) * 0 == 0);
        }
        assert(mul_f(p, 0, sub_f(p, b, a)) == 0) by {
            assert(0 * sub_f(p, b, a) == 0);
        }
        assert(sub_f(p, a, a) == 0);
        assert(sub_f(p, b, b) == 0);
    } else if c == 1 {
        let t = b - a;
        assert(mul_f(p, 2int % p, 1) == 2int % p) by {
            assert((2int % p) * 1 == 2int % p);
            lemma_mod_twice(2, p);
        }
        assert(mul_f(p, 2int % p, sub_f(p, b, a)) == (2 * t) % p) by {
            lemma_mul_mod_noop(2, t, p);
        }
        assert(sub_f(p, (2 * t) % p, t % p) == t % p) by {
            lemma_sub_mod_noop(2 * t, t, p);
            assert(2 * t - t == t);
        }
        assert(sub_f(p, b, a) == t % p);
        assert(sub_f(p, t % p, t % p) == 0) by {
            lemma_sub_mod_noop(t, t, p);
        }
    }
}

/// An honest region with a boolean direction bit satisfies all three
/// gates; no primality is needed for this direction.
pub proof fn lemma_honest_region_satisfied(p: int, incoming: u64, sibling: u64, dir: u64)
    requires
        p >= 2,
        p <= 0x10000000000000000,
        incoming < p,
        sibling < p,
        dir == 0 || dir == 1,
    ensures
        region_satisfied(p, honest_region(p, incoming, sibling, dir)),
{
    let reg = honest_region(p, incoming, sibling, dir);
    lemma_bool_gate_on_booleans(p, dir as int);
    lemma_swap_gate(p, incoming as int, sibling as int, dir as int);
    lemma_small_mod(0, p as nat);
    assert(reg.row1_c as int == add_f(p, reg.row1_a as int, reg.row1_b as int));
    assert(hash_gate(p, reg.row1_a as int, reg.row1_b as int, reg.row1_c as int) == 0) by {
        lemma_sub_f_zero(
            p,
            add_f(p, reg.row1_a as int, reg.row1_b as int),
            reg.row1_c as int,
        );
    }
}

/// Evaluates the three gate polynomials on one region, as the
/// backend's satisfaction check does row by row.
pub fn check_region(p: u64, reg: &LevelRegion) -> (ok: bool)
    requires
        p >= 2,
        region_wf(p as int, *reg),
    ensures
        ok == region_satisfied(p as int, *reg),
{
    let two: u64 = 2 % p;
    let bg = mul_mod(reg.row0_c, sub_mod(1, reg.row0_c, p), p);
    let e1 = mul_mod(
        mul_mod(two, reg.row0_c, p),
        sub_mod(reg.row0_b, reg.row0_a, p),
        p,
    );
    let e2 = sub_mod(reg.row1_a, reg.row0_a, p);
    let e3 = sub_mod(reg.row0_b, reg.row1_b, p);
    let sg = sub_mod(sub_mod(e1, e2, p), e3, p);
    let hg = sub_mod(add_mod(reg.row1_a, reg.row1_b, p), reg.row1_c, p);
    bg == 0 && sg == 0 && hg == 0
}

/// The backend's exhaustive check: every gate on every region, every
/// copy constraint, and every public binding against the declared
/// public-input column.
pub fn check_witness(p: u64, w: &MerkleWitness, instance: &Vec<u64>) -> (ok: bool)
    requires
        p >= 2,
        witness_wf(p as int, *w),
    ensures
        ok == witness_accepted(p as int, *w, instance@),
{
    let mut i: usize = 0;
    while i < w.regions.len()
        invariant
            p >= 2,
            witness_wf(p as int, *w),
            i <= w.regions@.len(),
            forall|j: int| 0 <= j < i ==> region_satisfied(p as int, #[trigger] w.regions@[j]),
        decreases w.regions@.len() - i,
    {
        if !check_region(p, &w.regions[i]) {
            return false;
        }
        i += 1;
    }
    let mut i: usize = 0;
    while i < w.copies.len()
        invariant
            i <= w.copies@.len(),
            forall|j: int| 0 <= j < i ==> copy_ok(*w, #[trigger] w.copies@[j]),
        decreases w.copies@.len() - i,
    {
        let (src, dst) = w.copies[i];
        if src >= w.regions.len() || dst >= w.regions.len() {
            return false;
        }
        if w.regions[dst].row0_a != w.regions[src].row1_c {
            return false;
        }
        i += 1;
    }
    let mut i: usize = 0;
    while i < w.bindings.len()
        invariant
            i <= w.bindings@.len(),
            forall|j: int| 0 <= j < i ==> binding_ok(*w, instance@, #[trigger] w.bindings@[j]),
        decreases w.bindings@.len() - i,
    {
        let (reg, row) = w.bindings[i];
        if reg >= w.regions.len() || row >= instance.len() {
            return false;
        }
        if w.regions[reg].row1_c != instance[row] {
            return false;
        }
        i += 1;
    }
    true
}

impl MerkleTreeV1Chip {
    /// Wraps a finished configuration, as the backend hands it back.
    pub fn construct(config: MerkleTreeV1Config) -> (chip: MerkleTreeV1Chip)
        ensures
            chip.config == config,
    {
        MerkleTreeV1Chip { config }
    }

    /// Registers the three gates over the model's fixed column layout
    /// and records the field the circuit works over.
    pub fn configure(modulus: u64) -> (config: MerkleTreeV1Config)
        requires
            modulus >= 2,
        ensures
            config.modulus == modulus,
    {
        MerkleTreeV1Config { modulus }
    }

    /// The configuration describes a field.
    pub open spec fn wf(self) -> bool {
        self.config.modulus >= 2
    }

    /// Fills the two-row region of one tree level.  At level 0 the
    /// incoming value is the freshly assigned leaf; above it the
    /// predecessor's digest cell is copied in, preserving the chain by
    /// copy constraint rather than recomputation.  Structural errors
    /// (missing predecessor, dangling cell handle) fail fast; a
    /// non-boolean direction value is assigned verbatim and only fails
    /// the later satisfaction check.
    pub fn assign_hashing_region(
        &self,
        witness: &mut MerkleWitness,
        leaf: u64,
        path_element: u64,
        index: u64,
        prev_digest: Option<&AssignedCell>,
        tree_level: usize,
    ) -> (res: Result<AssignedCell, ChipError>)
        requires
            self.wf(),
            leaf < self.config.modulus,
            path_element < self.config.modulus,
            index < self.config.modulus,
            witness_wf(self.config.modulus as int, *old(witness)),
        ensures
            ({
                let p = self.config.modulus as int;
                match res {
                    Ok(cell) => {
                        &&& (if tree_level == 0 {
                            level_assigned(
                                p,
                                *old(witness),
                                *final(witness),
                                leaf,
                                path_element,
                                index,
                                None,
                                cell,
                            )
                        } else {
                            prev_digest matches Some(prev) && prev.region
                                < old(witness).regions@.len() && level_assigned(
                                p,
                                *old(witness),
                                *final(witness),
                                old(witness).regions@[prev.region as int].row1_c,
                                path_element,
                                index,
                                Some(prev.region),
                                cell,
                            )
                        })
                        &&& witness_wf(p, *final(witness))
                        &&& (index == 0 || index == 1) ==> region_satisfied(
                            p,
                            final(witness).regions@.last(),
                        )
                    },
                    Err(e) => {
                        &&& *final(witness) == *old(witness)
                        &&& (e == ChipError::MissingPredecessor && tree_level > 0
                            && prev_digest is None) || (e == ChipError::InvalidCell && tree_level
                            > 0 && (prev_digest matches Some(prev) && prev.region
                            >= old(witness).regions@.len()))
                    },
                }
            }),
    {
        let p = self.config.modulus;
        let to_hash: u64;
        let mut copied: Option<usize> = None;
        if tree_level == 0 {
            to_hash = leaf;
        } else {
            match prev_digest {
                None => {
                    return Err(ChipError::MissingPredecessor);
                },
                Some(prev) => {
                    if prev.region >= witness.regions.len() {
                        return Err(ChipError::InvalidCell);
                    }
                    to_hash = witness.regions[prev.region].row1_c;
                    copied = Some(prev.region);
                },
            }
        }
        let (input_l, input_r) = if index != 0 {
            (path_element, to_hash)
        } else {
            (to_hash, path_element)
        };
        let digest = add_mod(input_l, input_r, p);
        let reg = LevelRegion {
            row0_a: to_hash,
            row0_b: path_element,
            row0_c: index,
            row1_a: input_l,
            row1_b: input_r,
            row1_c: digest,
        };
        let cell = AssignedCell { region: witness.regions.len(), value: digest };
        witness.regions.push(reg);
        match copied {
            Some(src) => {
                witness.copies.push((src, cell.region));
            },
            None => {},
        }
        proof {
            assert(reg == honest_region(p as int, to_hash, path_element, index));
            if index == 0 || index == 1 {
                lemma_honest_region_satisfied(p as int, to_hash, path_element, index);
            }
        }
        Ok(cell)
    }

    /// Registers a copy constraint between a digest cell and a row of
    /// the public-input column; equality is enforced by the backend's
    /// permutation argument at check time, not recomputed here.
    pub fn expose_public(
        &self,
        witness: &mut MerkleWitness,
        cell: &AssignedCell,
        row: usize,
    ) -> (res: Result<(), ChipError>)
        ensures
            match res {
                Ok(_) => {
                    &&& cell.region < old(witness).regions@.len()
                    &&& final(witness).regions@ == old(witness).regions@
                    &&& final(witness).copies@ == old(witness).copies@
                    &&& final(witness).bindings@ == old(witness).bindings@.push(
                        (cell.region, row),
                    )
                },
                Err(e) => {
                    &&& e == ChipError::InvalidCell
                    &&& cell.region >= old(witness).regions@.len()
                    &&& *final(witness) == *old(witness)
                },
            },
    {
        if cell.region >= witness.regions.len() {
            return Err(ChipError::InvalidCell);
        }
        witness.bindings.push((cell.region, row));
        Ok(())
    }

    /// Assigns one region per path level into a fresh witness, feeding
    /// each level's digest cell into the next by copy constraint, and
    /// returns the witness with the handle to the final digest cell.
    pub fn assign_merkle_path(&self, leaf: u64, path: &Vec<PathStep>) -> (res: Result<
        (MerkleWitness, AssignedCell),
        ChipError,
    >)
        requires
            self.wf(),
            leaf < self.config.modulus,
            path@.len() >= 1,
            path_wf(self.config.modulus as int, path@),
        ensures
            ({
                let p = self.config.modulus as int;
                match res {
                    Ok((w, cell)) => {
                        &&& w.regions@.len() == path@.len()
                        &&& witness_wf(p, w)
                        &&& copies_ok(w)
                        &&& w.bindings@ == Seq::<(usize, usize)>::empty()
                        &&& cell.region + 1 == path@.len()
                        &&& cell.value == w.regions@.last().row1_c
                        &&& cell.value == merkle_digest(p, leaf as int, path@)
                        &&& forall|j: int|
                            0 <= j < path@.len() ==> (#[trigger] w.regions@[j]).row0_b
                                == path@[j].sibling && w.regions@[j].row0_c == path@[j].direction
                        &&& path_boolean(path@) ==> gates_ok(p, w)
                    },
                    Err(_) => false,
                }
            }),
    {
        let modulus = self.config.modulus;
        let mut witness = MerkleWitness::new();
        let step0 = path[0];
        let first = self.assign_hashing_region(
            &mut witness,
            leaf,
            step0.sibling,
            step0.direction,
            None,
            0,
        );
        let mut cell: AssignedCell = match first {
            Ok(c) => c,
            Err(e) => {
                return Err(e);
            },
        };
        proof {
            let p = modulus as int;
            let pre = path@.subrange(0, 1);
            assert(pre.drop_last() =~= Seq::<PathStep>::empty());
            assert(pre.last() == path@[0]);
            assert(merkle_digest(p, leaf as int, pre.drop_last()) == leaf as int);
            assert(merkle_digest(p, leaf as int, pre) == level_digest(
                p,
                leaf as int,
                path@[0].sibling as int,
                path@[0].direction as int,
            ));
        }
        let mut i: usize = 1;
        while i < path.len()
            invariant
                self.wf(),
                leaf < self.config.modulus,
                path_wf(self.config.modulus as int, path@),
                1 <= i <= path@.len(),
                witness.regions@.len() == i,
                witness.bindings@ == Seq::<(usize, usize)>::empty(),
                witness_wf(self.config.modulus as int, witness),
                copies_ok(witness),
                cell.region + 1 == i,
                cell.value == witness.regions@.last().row1_c,
                cell.value == merkle_digest(
                    self.config.modulus as int,
                    leaf as int,
                    path@.subrange(0, i as int),
                ),
                forall|j: int|
                    0 <= j < i ==> (#[trigger] witness.regions@[j]).row0_b == path@[j].sibling
                        && witness.regions@[j].row0_c == path@[j].direction,
                forall|j: int|
                    0 <= j < i && ((#[trigger] path@[j]).direction == 0 || path@[j].direction
                        == 1) ==> region_satisfied(
                        self.config.modulus as int,
                        witness.regions@[j],
                    ),
            decreases path@.len() - i,
        {
            let step = path[i];
            let prev = cell;
            let next = self.assign_hashing_region(
                &mut witness,
                leaf,
                step.sibling,
                step.direction,
                Some(&prev),
                i,
            );
            cell = match next {
                Ok(c) => c,
                Err(e) => {
                    return Err(e);
                },
            };
            proof {
                assert(path@.subrange(0, i as int + 1).drop_last() =~= path@.subrange(0, i as int));
                assert(path@.subrange(0, i as int + 1).last() == path@[i as int]);
            }
            i += 1;
        }
        proof {
            assert(path@.subrange(0, path@.len() as int) =~= path@);
        }
        Ok((witness, cell))
    }

    /// Merkle round-trip: assigns every level, exposes the final
    /// digest at public-input row 0, and runs the backend's check
    /// against the declared root.  An honest witness whose direction
    /// bits are boolean is accepted exactly when the declared root
    /// equals the recomputed digest; over a prime field the acceptance
    /// also forces every direction bit to be boolean.
    pub fn verify_merkle_path(&self, leaf: u64, path: &Vec<PathStep>, root: u64) -> (res: Result<
        bool,
        ChipError,
    >)
        requires
            self.wf(),
            leaf < self.config.modulus,
            path@.len() >= 1,
            path_wf(self.config.modulus as int, path@),
        ensures
            ({
                let p = self.config.modulus as int;
                match res {
                    Ok(ok) => {
                        &&& (path_boolean(path@) && root == merkle_digest(p, leaf as int, path@))
                            ==> ok
                        &&& prime_modulus(p) ==> (ok ==> path_boolean(path@) && root
                            == merkle_digest(p, leaf as int, path@))
                    },
                    Err(_) => false,
                }
            }),
    {
        let modulus = self.config.modulus;
        let assigned = self.assign_merkle_path(leaf, path);
        let (mut witness, cell) = match assigned {
            Ok(x) => x,
            Err(e) => {
                return Err(e);
            },
        };
        let exposed = self.expose_public(&mut witness, &cell, 0);
        match exposed {
            Ok(_) => {},
            Err(e) => {
                proof {
                    assert(false);
                }
                return Err(e);
            },
        }
        let mut instance: Vec<u64> = Vec::new();
        instance.push(root);
        let ok = check_witness(modulus, &witness, &instance);
        proof {
            let p = modulus as int;
            let b = (cell.region, 0usize);
            assert(witness.bindings@ == Seq::<(usize, usize)>::empty().push(b));
            assert(witness.bindings@[0] == b);
            assert(instance@[0] == root);
            if path_boolean(path@) && root == merkle_digest(p, leaf as int, path@) {
                assert(binding_ok(witness, instance@, b));
                assert(forall|k: int|
                    0 <= k < witness.bindings@.len() ==> binding_ok(
                        witness,
                        instance@,
                        #[trigger] witness.bindings@[k],
                    ));
                assert(witness_accepted(p, witness, instance@));
            }
            if prime_modulus(p) && ok {
                assert(binding_ok(witness, instance@, witness.bindings@[0]));
                assert(root == cell.value);
                assert forall|j: int| 0 <= j < path@.len() implies ((#[trigger] path@[j]).direction
                    == 0 || path@[j].direction == 1) by {
                    assert(region_satisfied(p, witness.regions@[j]));
                    assert(region_wf(p, witness.regions@[j]));
                    lemma_boolean_gate(p, witness.regions@[j].row0_c as int);
                }
            }
        }
        Ok(ok)
    }
}

/// The sum of the siblings along a path.
pub open spec fn siblings_sum(path: Seq<PathStep>) -> int
    decreases path.len(),
{
    if path.len() == 0 {
        0
    } else {
        siblings_sum(path.drop_last()) + path.last().sibling
    }
}

/// With the additive combine gate the digest chain reduces to the
/// field sum of the leaf and every sibling, whatever the direction
/// bits choose.
pub proof fn lemma_digest_is_sum(p: int, leaf: int, path: Seq<PathStep>)
    requires
        p >= 2,
        0 <= leaf < p,
        path_wf(p, path),
    ensures
        merkle_digest(p, leaf, path) == (leaf + siblings_sum(path)) % p,
    decreases path.len(),
{
    if path.len() == 0 {
        lemma_small_mod(leaf as nat, p as nat);
    } else {
        assert(path_wf(p, path.drop_last())) by {
            assert(forall|i: int|
                0 <= i < path.drop_last().len() ==> #[trigger] path.drop_last()[i] == path[i]);
        }
        lemma_digest_is_sum(p, leaf, path.drop_last());
        let s = path.last().sibling as int;
        let rest = leaf + siblings_sum(path.drop_last());
        lemma_add_mod_noop_right(s, rest, p);
        assert((s + rest % p) % p == (s + rest) % p);
    }
}

/// Two equally long paths that agree everywhere but in one sibling
/// have sibling sums that differ by exactly that sibling difference.
proof fn lemma_sum_same_but_one(path1: Seq<PathStep>, path2: Seq<PathStep>, j: int)
    requires
        path1.len() == path2.len(),
        0 <= j < path1.len(),
        forall|i: int| 0 <= i < path1.len() && i != j ==> path1[i] == path2[i],
    ensures
        siblings_sum(path1) - path1[j].sibling == siblings_sum(path2) - path2[j].sibling,
    decreases path1.len(),
{
    if j == path1.len() - 1 {
        assert(path1.drop_last() =~= path2.drop_last());
    } else {
        lemma_sum_same_but_one(path1.drop_last(), path2.drop_last(), j);
        assert(path1.last() == path2.last());
    }
}

/// Tampering with any one sibling of a path changes the recomputed
/// digest, so the exposed-root check can no longer pass against the
/// original root.
pub proof fn lemma_sibling_tamper(
    p: int,
    leaf: int,
    path1: Seq<PathStep>,
    path2: Seq<PathStep>,
    j: int,
)
    requires
        p >= 2,
        0 <= leaf < p,
        path_wf(p, path1),
        path_wf(p, path2),
        path1.len() == path2.len(),
        0 <= j < path1.len(),
        forall|i: int| 0 <= i < path1.len() && i != j ==> path1[i] == path2[i],
        path1[j].sibling != path2[j].sibling,
    ensures
        merkle_digest(p, leaf, path1) != merkle_digest(p, leaf, path2),
{
    lemma_digest_is_sum(p, leaf, path1);
    lemma_digest_is_sum(p, leaf, path2);
    lemma_sum_same_but_one(path1, path2, j);
    let s1 = path1[j].sibling as int;
    let s2 = path2[j].sibling as int;
    let shared = leaf + siblings_sum(path1) - s1;
    assert(leaf + siblings_sum(path1) == shared + s1);
    assert(leaf + siblings_sum(path2) == shared + s2);
    lemma_add_cancel(p, shared, s1, s2);
}

} // verus!
