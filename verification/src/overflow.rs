//! A bounded-integer overflow gadget: a single-row region holding a
//! value and its fixed number of fixed-width limbs, with one compound
//! gate asserting the big-endian weighted limb sum reconstructs the
//! value and a vanishing-polynomial range check bounding every limb.

use vstd::prelude::*;
use vstd::arithmetic::div_mod::{
    lemma_add_mod_noop_right, lemma_fundamental_div_mod, lemma_mul_mod_noop, lemma_small_mod,
};
use vstd::arithmetic::power2::{
    lemma2_to64, lemma2_to64_rest, lemma_pow2_adds, lemma_pow2_pos, lemma_pow2_strictly_increases,
    lemma_pow2_unfold, pow2,
};

use crate::field::{
    add_f, add_mod, lemma_mul_f_zero, lemma_sub_f_zero, mul_f, mul_mod, prime_modulus, sub_f,
    sub_mod,
};
use crate::ChipError;

verus! {

broadcast use vstd::arithmetic::mul::lemma_mul_is_commutative;

/// The single-row region one activation fills: the value cell and the
/// limb cells, most-significant limb first.
#[derive(Clone, Debug)]
pub struct OverflowRow {
    pub value: u64,
    pub limbs: Vec<u64>,
}

/// A handle to the value cell of one assigned row, used to bind the
/// value to a public-input row.
#[derive(Clone, Copy, Debug, PartialEq, Eq, Structural)]
pub struct ValueCell {
    pub row: usize,
    pub value: u64,
}

/// The witness table: the assigned rows and the public bindings
/// (row whose value cell is bound, public-input row).
pub struct OverflowWitness {
    pub rows: Vec<OverflowRow>,
    pub bindings: Vec<(usize, usize)>,
}

/// The immutable configuration: the field modulus, the limb width in
/// bits, and the number of limb columns.
#[derive(Clone, Copy, Debug, PartialEq, Eq, Structural)]
pub struct OverflowCheckV2Config {
    pub modulus: u64,
    pub max_bits: u8,
    pub acc_cols: usize,
}

/// The chip: stateless, sharing one configuration across activations.
pub struct OverflowChipV2 {
    pub config: OverflowCheckV2Config,
}

/// The configuration is accepted: the modulus describes a field large
/// enough for the limb domain, the limb width keeps the vanishing
/// polynomial of the range check tractable, and there is at least one
/// limb column.
pub open spec fn config_wf(cfg: OverflowCheckV2Config) -> bool {
    &&& cfg.modulus >= 2
    &&& 1 <= cfg.max_bits <= 8
    &&& cfg.acc_cols >= 1
    &&& pow2(cfg.max_bits as nat) < cfg.modulus
}

/// The value of a little-endian limb sequence: limb 0 carries weight
/// one, each following limb one factor `2^bits` more.
pub open spec fn le_value(limbs: Seq<u64>, bits: nat) -> int
    decreases limbs.len(),
{
    if limbs.len() == 0 {
        0
    } else {
        limbs[0] + pow2(bits) * le_value(limbs.subrange(1, limbs.len() as int), bits)
    }
}

/// The value of a big-endian limb sequence: the weighted sum
/// `sum limbs[i] * 2^(bits * (len - 1 - i))`, written in Horner form.
pub open spec fn reconstruct(limbs: Seq<u64>, bits: nat) -> int
    decreases limbs.len(),
{
    if limbs.len() == 0 {
        0
    } else {
        pow2(bits) * reconstruct(limbs.drop_last(), bits) + limbs.last()
    }
}

/// The limb reconstruction computed in the field: the big-endian
/// weighted sum reduced modulo `p`, the quantity the compound
/// identity compares against the value cell.
pub open spec fn reconstruct_f(p: int, limbs: Seq<u64>, bits: nat) -> int
    decreases limbs.len(),
{
    if limbs.len() == 0 {
        0
    } else {
        add_f(
            p,
            mul_f(p, reconstruct_f(p, limbs.drop_last(), bits), pow2(bits) as int % p),
            limbs.last() as int,
        )
    }
}

/// The range-check vanishing polynomial `prod_{k < r} (x - k)` in the
/// field: it vanishes exactly on `{0, ..., r - 1}` when `p` is prime.
pub open spec fn range_product(p: int, x: int, r: nat) -> int
    decreases r,
{
    if r == 0 {
        1int % p
    } else {
        mul_f(p, range_product(p, x, (r - 1) as nat), sub_f(p, x, r as int - 1))
    }
}

/// Every cell of the row holds a field element.
pub open spec fn row_wf(p: int, row: OverflowRow) -> bool {
    &&& row.value < p
    &&& forall|i: int| 0 <= i < row.limbs@.len() ==> (#[trigger] row.limbs@[i]) < p
}

/// The compound gate vanishes on the row: the limb count matches the
/// configuration, the in-field weighted limb sum equals the value, and
/// the range-check polynomial vanishes on every limb.
pub open spec fn row_satisfied(p: int, bits: nat, cols: nat, row: OverflowRow) -> bool {
    &&& row.limbs@.len() == cols
    &&& reconstruct_f(p, row.limbs@, bits) == row.value
    &&& forall|i: int|
        0 <= i < row.limbs@.len() ==> range_product(
            p,
            (#[trigger] row.limbs@[i]) as int,
            pow2(bits),
        ) == 0
}

/// Every row of the witness holds field elements.
pub open spec fn witness_wf(p: int, w: OverflowWitness) -> bool {
    forall|i: int| 0 <= i < w.rows@.len() ==> row_wf(p, #[trigger] w.rows@[i])
}

/// Every row satisfies the compound gate.
pub open spec fn rows_ok(p: int, bits: nat, cols: nat, w: OverflowWitness) -> bool {
    forall|i: int| 0 <= i < w.rows@.len() ==> row_satisfied(p, bits, cols, #[trigger] w.rows@[i])
}

/// One public binding holds: the row exists, the public-input row
/// exists, and the bound value equals the declared public value.
pub open spec fn binding_ok(w: OverflowWitness, instance: Seq<u64>, b: (usize, usize)) -> bool {
    &&& b.0 < w.rows@.len()
    &&& b.1 < instance.len()
    &&& w.rows@[b.0 as int].value == instance[b.1 as int]
}

/// Every recorded public binding holds.
pub open spec fn bindings_ok(w: OverflowWitness, instance: Seq<u64>) -> bool {
    forall|i: int| 0 <= i < w.bindings@.len() ==> binding_ok(w, instance, #[trigger] w.bindings@[i])
}

/// The backend accepts the witness against the declared public inputs.
pub open spec fn witness_accepted(
    p: int,
    bits: nat,
    cols: nat,
    w: OverflowWitness,
    instance: Seq<u64>,
) -> bool {
    &&& rows_ok(p, bits, cols, w)
    &&& bindings_ok(w, instance)
}

impl OverflowWitness {
    /// An empty witness table.
    pub fn new() -> (w: OverflowWitness)
        ensures
            w.rows@ == Seq::<OverflowRow>::empty(),
            w.bindings@ == Seq::<(usize, usize)>::empty(),
    {
        OverflowWitness { rows: Vec::new(), bindings: Vec::new() }
    }
}

/// Computes `2^e` for a small exponent.
fn pow2_u64(e: u64) -> (r: u64)
    requires
        e <= 63,
    ensures
        r as nat == pow2(e as nat),
        r >= 1,
{
    proof {
        lemma2_to64();
        lemma2_to64_rest();
    }
    let mut r: u64 = 1;
    let mut i: u64 = 0;
    while i < e
        invariant
            i <= e,
            e <= 63,
            r as nat == pow2(i as nat),
        decreases e - i,
    {
        proof {
            lemma2_to64_rest();
            lemma_pow2_strictly_increases(i as nat, 63);
            lemma_pow2_unfold(i as nat + 1);
        }
        r = r * 2;
        i = i + 1;
    }
    proof {
        lemma_pow2_pos(e as nat);
    }
    r
}

/// Appending a limb to a little-endian sequence adds it at the next
/// weight.
proof fn lemma_le_push(s: Seq<u64>, x: u64, bits: nat)
    ensures
        le_value(s.push(x), bits) == le_value(s, bits) + x * pow2(bits * s.len()),
    decreases s.len(),
{
    if s.len() == 0 {
        assert(s.push(x)[0] == x);
        assert(s.push(x).subrange(1, 1) =~= Seq::<u64>::empty());
        assert(pow2(0) == 1) by {
            lemma2_to64();
        }
        assert(le_value(s.push(x).subrange(1, 1), bits) == 0);
        assert(le_value(s.push(x), bits) == x + pow2(bits) * le_value(
            s.push(x).subrange(1, 1),
            bits,
        ));
        assert(pow2(bits) * le_value(s.push(x).subrange(1, 1), bits) == 0) by (nonlinear_arith)
            requires
                le_value(s.push(x).subrange(1, 1), bits) == 0,
        ;
        assert(le_value(s, bits) == 0);
        assert(bits * s.len() == 0);
        assert(x * pow2(0) == x);
    } else {
        let t = s.subrange(1, s.len() as int);
        assert(s.push(x).subrange(1, s.len() as int + 1) =~= t.push(x));
        assert(s.push(x)[0] == s[0]);
        assert(le_value(s.push(x), bits) == s[0] + pow2(bits) * le_value(t.push(x), bits));
        assert(le_value(s, bits) == s[0] + pow2(bits) * le_value(t, bits));
        lemma_le_push(t, x, bits);
        lemma_pow2_adds(bits, bits * t.len());
        assert(bits + bits * t.len() == bits * s.len()) by (nonlinear_arith)
            requires
                t.len() + 1 == s.len(),
        ;
        assert(pow2(bits) * pow2(bits * t.len()) == pow2(bits * s.len()));
        assert(le_value(s.push(x), bits) == le_value(s, bits) + x * pow2(bits * s.len()))
            by (nonlinear_arith)
            requires
                le_value(s.push(x), bits) == s[0] + pow2(bits) * le_value(t.push(x), bits),
                le_value(t.push(x), bits) == le_value(t, bits) + x * pow2(bits * t.len()),
                le_value(s, bits) == s[0] + pow2(bits) * le_value(t, bits),
                pow2(bits) * pow2(bits * t.len()) == pow2(bits * s.len()),
        ;
    }
}

/// A little-endian sequence of limbs below `2^bits` has a value below
/// `2^(bits * len)`.
proof fn lemma_le_bound(s: Seq<u64>, bits: nat)
    requires
        forall|i: int| 0 <= i < s.len() ==> (#[trigger] s[i]) < pow2(bits),
    ensures
        0 <= le_value(s, bits) < pow2(bits * s.len()),
    decreases s.len(),
{
    if s.len() == 0 {
        lemma_pow2_pos(0);
    } else {
        let t = s.subrange(1, s.len() as int);
        assert(forall|i: int| 0 <= i < t.len() ==> #[trigger] t[i] == s[i + 1]);
        lemma_le_bound(t, bits);
        lemma_pow2_adds(bits, bits * t.len());
        assert(bits + bits * t.len() == bits * s.len()) by (nonlinear_arith)
            requires
                t.len() + 1 == s.len(),
        ;
        lemma_pow2_pos(bits);
        assert(s[0] + pow2(bits) * le_value(t, bits) < pow2(bits) * pow2(bits * t.len()))
            by (nonlinear_arith)
            requires
                s[0] < pow2(bits),
                0 <= le_value(t, bits) < pow2(bits * t.len()),
                pow2(bits) >= 1,
        ;
        assert(0 <= pow2(bits) * le_value(t, bits)) by (nonlinear_arith)
            requires
                0 <= le_value(t, bits),
                pow2(bits) >= 1,
        ;
    }
}

/// The in-field reconstruction is the residue of the exact one.
pub proof fn lemma_reconstruct_f_mod(p: int, limbs: Seq<u64>, bits: nat)
    requires
        p >= 2,
    ensures
        reconstruct_f(p, limbs, bits) == reconstruct(limbs, bits) % p,
    decreases limbs.len(),
{
    if limbs.len() == 0 {
        lemma_small_mod(0, p as nat);
    } else {
        lemma_reconstruct_f_mod(p, limbs.drop_last(), bits);
        let rprev = reconstruct(limbs.drop_last(), bits);
        let base = pow2(bits) as int;
        let last = limbs.last() as int;
        lemma_mul_mod_noop(rprev, base, p);
        assert(mul_f(p, rprev % p, base % p) == (rprev * base) % p);
        lemma_add_mod_noop_right(last, rprev * base, p);
        assert((last + (rprev * base) % p) % p == (last + rprev * base) % p);
        assert(add_f(p, (rprev * base) % p, last) == (rprev * base + last) % p);
        assert(reconstruct(limbs, bits) == base * rprev + last);
    }
}

/// The range-check polynomial vanishes on every limb inside the
/// domain; no primality is needed for this direction.
pub proof fn lemma_range_product_zero(p: int, x: int, r: nat)
    requires
        p >= 2,
        0 <= x < r,
    ensures
        range_product(p, x, r) == 0,
    decreases r,
{
    lemma_small_mod(0, p as nat);
    if x == r - 1 {
        assert(sub_f(p, x, r as int - 1) == 0);
        assert(range_product(p, x, (r - 1) as nat) * 0 == 0);
    } else {
        lemma_range_product_zero(p, x, (r - 1) as nat);
        assert(0 * sub_f(p, x, r as int - 1) == 0);
    }
}

/// Range-check necessity: over a prime field the vanishing polynomial
/// `prod_{k < r} (x - k)` is zero exactly when `x` lies in
/// `{0, ..., r - 1}`; any residue outside the domain leaves every
/// factor nonzero, hence the product nonzero.
pub proof fn lemma_range_check(p: int, x: int, r: nat)
    requires
        prime_modulus(p),
        0 <= x < p,
        r <= p,
    ensures
        range_product(p, x, r) == 0 <==> x < r,
    decreases r,
{
    if r == 0 {
        lemma_small_mod(1, p as nat);
    } else {
        lemma_range_check(p, x, (r - 1) as nat);
        let prev = range_product(p, x, (r - 1) as nat);
        let f = sub_f(p, x, r as int - 1);
        lemma_mul_f_zero(p, prev, f);
        lemma_sub_f_zero(p, x, r as int - 1);
    }
}

/// A row accepted over a prime field really is in range: every limb
/// lies below `2^bits` and the exact weighted sum is congruent to the
/// value.
pub proof fn lemma_row_soundness(p: int, bits: nat, cols: nat, row: OverflowRow)
    requires
        prime_modulus(p),
        pow2(bits) <= p,
        row_wf(p, row),
        row_satisfied(p, bits, cols, row),
    ensures
        forall|i: int| 0 <= i < row.limbs@.len() ==> (#[trigger] row.limbs@[i]) < pow2(bits),
        reconstruct(row.limbs@, bits) % p == row.value,
{
    lemma_reconstruct_f_mod(p, row.limbs@, bits);
    assert forall|i: int| 0 <= i < row.limbs@.len() implies (#[trigger] row.limbs@[i]) < pow2(
        bits,
    ) by {
        lemma_range_check(p, row.limbs@[i] as int, pow2(bits));
    }
}

/// Splits a value into `acc_cols` little-endian limbs of `max_bits`
/// bits each; fails exactly when the value needs more bits than the
/// columns provide, rather than truncating.
pub fn decompose_value(value: u64, max_bits: u8, acc_cols: usize) -> (res: Result<
    Vec<u64>,
    ChipError,
>)
    requires
        max_bits <= 63,
    ensures
        ({
            let bits = max_bits as nat;
            match res {
                Ok(limbs) => {
                    &&& limbs@.len() == acc_cols
                    &&& forall|i: int| 0 <= i < limbs@.len() ==> (#[trigger] limbs@[i]) < pow2(bits)
                    &&& le_value(limbs@, bits) == value
                    &&& value < pow2(bits * acc_cols as nat)
                },
                Err(e) => {
                    &&& e == ChipError::DecompositionOverflow
                    &&& value >= pow2(bits * acc_cols as nat)
                },
            }
        }),
{
    let ghost bits = max_bits as nat;
    let base = pow2_u64(max_bits as u64);
    let mut v: u64 = value;
    let mut limbs: Vec<u64> = Vec::new();
    let mut i: usize = 0;
    proof {
        assert(limbs@ =~= Seq::<u64>::empty());
        assert(pow2(bits * 0) == 1) by {
            lemma2_to64();
        }
    }
    while i < acc_cols
        invariant
            base as nat == pow2(bits),
            base >= 1,
            i <= acc_cols,
            limbs@.len() == i,
            forall|k: int| 0 <= k < limbs@.len() ==> (#[trigger] limbs@[k]) < pow2(bits),
            value == le_value(limbs@, bits) + v * pow2(bits * i as nat),
        decreases acc_cols - i,
    {
        let limb = v % base;
        proof {
            lemma_le_push(limbs@, limb, bits);
            lemma_fundamental_div_mod(v as int, base as int);
            lemma_pow2_adds(bits * i as nat, bits);
            assert(bits * i as nat + bits == bits * (i + 1) as nat) by (nonlinear_arith);
            assert((base * (v as int / base as int) + (v as int % base as int)) * pow2(
                bits * i as nat,
            ) == (v as int % base as int) * pow2(bits * i as nat) + (v as int / base as int) * (
            base * pow2(bits * i as nat))) by (nonlinear_arith);
        }
        limbs.push(limb);
        v = v / base;
        i += 1;
    }
    if v != 0 {
        proof {
            lemma_le_bound(limbs@, bits);
            assert(v as int * pow2(bits * acc_cols as nat) >= pow2(bits * acc_cols as nat))
                by (nonlinear_arith)
                requires
                    v >= 1,
                    pow2(bits * acc_cols as nat) >= 1,
            ;
            lemma_pow2_pos(bits * acc_cols as nat);
        }
        return Err(ChipError::DecompositionOverflow);
    }
    proof {
        lemma_le_bound(limbs@, bits);
    }
    Ok(limbs)
}

/// Evaluates the compound gate on one row, as the backend's
/// satisfaction check does: the limb count, the in-field weighted
/// reconstruction, and the range-check product of every limb.
pub fn check_row(config: &OverflowCheckV2Config, row: &OverflowRow) -> (ok: bool)
    requires
        config_wf(*config),
        row_wf(config.modulus as int, *row),
    ensures
        ok == row_satisfied(
            config.modulus as int,
            config.max_bits as nat,
            config.acc_cols as nat,
            *row,
        ),
{
    let p = config.modulus;
    let ghost bits = config.max_bits as nat;
    if row.limbs.len() != config.acc_cols {
        return false;
    }
    let base = pow2_u64(config.max_bits as u64);
    let base_f = base % p;
    let mut acc: u64 = 0;
    let mut i: usize = 0;
    proof {
        assert(row.limbs@.subrange(0, 0) =~= Seq::<u64>::empty());
    }
    while i < row.limbs.len()
        invariant
            config_wf(*config),
            row_wf(config.modulus as int, *row),
            p == config.modulus,
            bits == config.max_bits as nat,
            base as nat == pow2(bits),
            base_f == base % p,
            base_f < p,
            i <= row.limbs@.len(),
            acc < p,
            acc == reconstruct_f(p as int, row.limbs@.subrange(0, i as int), bits),
        decreases row.limbs@.len() - i,
    {
        let limb = row.limbs[i];
        acc = add_mod(mul_mod(acc, base_f, p), limb, p);
        proof {
            let pre = row.limbs@.subrange(0, i as int + 1);
            assert(pre.drop_last() =~= row.limbs@.subrange(0, i as int));
            assert(pre.last() == row.limbs@[i as int]);
        }
        i += 1;
    }
    proof {
        assert(row.limbs@.subrange(0, row.limbs@.len() as int) =~= row.limbs@);
    }
    if acc != row.value {
        return false;
    }
    let mut i: usize = 0;
    while i < row.limbs.len()
        invariant
            config_wf(*config),
            row_wf(config.modulus as int, *row),
            p == config.modulus,
            bits == config.max_bits as nat,
            base as nat == pow2(bits),
            i <= row.limbs@.len(),
            forall|j: int|
                0 <= j < i ==> range_product(
                    p as int,
                    (#[trigger] row.limbs@[j]) as int,
                    pow2(bits),
                ) == 0,
        decreases row.limbs@.len() - i,
    {
        let x = row.limbs[i];
        let mut prod: u64 = 1 % p;
        let mut k: u64 = 0;
        while k < base
            invariant
                p >= 2,
                x < p,
                base < p,
                base as nat == pow2(bits),
                k <= base,
                prod < p,
                prod == range_product(p as int, x as int, k as nat),
            decreases base - k,
        {
            prod = mul_mod(prod, sub_mod(x, k, p), p);
            k += 1;
        }
        if prod != 0 {
            return false;
        }
        i += 1;
    }
    true
}

/// The backend's exhaustive check: the compound gate on every row and
/// every public binding against the declared public-input column.
pub fn check_witness(
    config: &OverflowCheckV2Config,
    w: &OverflowWitness,
    instance: &Vec<u64>,
) -> (ok: bool)
    requires
        config_wf(*config),
        witness_wf(config.modulus as int, *w),
    ensures
        ok == witness_accepted(
            config.modulus as int,
            config.max_bits as nat,
            config.acc_cols as nat,
            *w,
            instance@,
        ),
{
    let mut i: usize = 0;
    while i < w.rows.len()
        invariant
            config_wf(*config),
            witness_wf(config.modulus as int, *w),
            i <= w.rows@.len(),
            forall|j: int|
                0 <= j < i ==> row_satisfied(
                    config.modulus as int,
                    config.max_bits as nat,
                    config.acc_cols as nat,
                    #[trigger] w.rows@[j],
                ),
        decreases w.rows@.len() - i,
    {
        if !check_row(config, &w.rows[i]) {
            return false;
        }
        i += 1;
    }
    let mut i: usize = 0;
    while i < w.bindings.len()
        invariant
            i <= w.bindings@.len(),
            forall|j: int| 0 <= j < i ==> binding_ok(*w, instance@, #[trigger] w.bindings@[j]),
        decreases w.bindings@.len() - i,
    {
        let (r, irow) = w.bindings[i];
        if r >= w.rows.len() || irow >= instance.len() {
            return false;
        }
        if w.rows[r].value != instance[irow] {
            return false;
        }
        i += 1;
    }
    true
}

impl OverflowChipV2 {
    /// Wraps a finished configuration, as the backend hands it back.
    pub fn construct(config: OverflowCheckV2Config) -> (chip: OverflowChipV2)
        ensures
            chip.config == config,
    {
        OverflowChipV2 { config }
    }

    /// The chip's configuration was accepted.
    pub open spec fn wf(self) -> bool {
        config_wf(self.config)
    }

    /// Validates and records the configuration, registering the
    /// compound gate over the model's fixed row layout.  Parameters
    /// whose range-check domain is computationally infeasible, or
    /// whose field cannot hold the limb domain, are rejected.
    pub fn configure(modulus: u64, max_bits: u8, acc_cols: usize) -> (res: Result<
        OverflowCheckV2Config,
        ChipError,
    >)
        ensures
            ({
                let cfg = (OverflowCheckV2Config { modulus, max_bits, acc_cols });
                match res {
                    Ok(c) => c == cfg && config_wf(cfg),
                    Err(e) => e == ChipError::InvalidConfiguration && !config_wf(cfg),
                }
            }),
    {
        if modulus < 2 || max_bits < 1 || max_bits > 8 || acc_cols < 1 {
            return Err(ChipError::InvalidConfiguration);
        }
        let bound = pow2_u64(max_bits as u64);
        if bound >= modulus {
            return Err(ChipError::InvalidConfiguration);
        }
        Ok(OverflowCheckV2Config { modulus, max_bits, acc_cols })
    }

    /// Fills one single-row region: assigns the value cell, decomposes
    /// the value into little-endian limbs, and writes them into the
    /// limb columns most-significant-first.  Decomposition fails
    /// fatally when the value exceeds the configured bit budget; an
    /// in-range assignment always satisfies the compound gate.
    pub fn assign(&self, witness: &mut OverflowWitness, update_value: u64) -> (res: Result<
        ValueCell,
        ChipError,
    >)
        requires
            self.wf(),
            update_value < self.config.modulus,
            witness_wf(self.config.modulus as int, *old(witness)),
        ensures
            ({
                let p = self.config.modulus as int;
                let bits = self.config.max_bits as nat;
                let cols = self.config.acc_cols as nat;
                match res {
                    Ok(cell) => {
                        &&& update_value < pow2(bits * cols)
                        &&& final(witness).rows@.len() == old(witness).rows@.len() + 1
                        &&& (forall|j: int|
                            0 <= j < old(witness).rows@.len() ==> final(witness).rows@[j] == old(
                                witness,
                            ).rows@[j])
                        &&& final(witness).bindings@ == old(witness).bindings@
                        &&& ({
                            let row = final(witness).rows@.last();
                            &&& row.value == update_value
                            &&& row.limbs@.len() == cols
                            &&& (forall|i: int|
                                0 <= i < row.limbs@.len() ==> (#[trigger] row.limbs@[i]) < pow2(
                                    bits,
                                ))
                            &&& reconstruct(row.limbs@, bits) == update_value
                            &&& row_satisfied(p, bits, cols, row)
                        })
                        &&& witness_wf(p, *final(witness))
                        &&& cell.row + 1 == final(witness).rows@.len()
                        &&& cell.value == update_value
                    },
                    Err(e) => {
                        &&& e == ChipError::DecompositionOverflow
                        &&& update_value >= pow2(bits * cols)
                        &&& *final(witness) == *old(witness)
                    },
                }
            }),
    {
        let p = self.config.modulus;
        let max_bits = self.config.max_bits;
        let acc_cols = self.config.acc_cols;
        let ghost bits = max_bits as nat;
        let le = match decompose_value(update_value, max_bits, acc_cols) {
            Ok(l) => l,
            Err(e) => {
                return Err(e);
            },
        };
        let mut be: Vec<u64> = Vec::new();
        let mut idx: usize = 0;
        proof {
            assert(le@.subrange(acc_cols as int, acc_cols as int) =~= Seq::<u64>::empty());
        }
        while idx < acc_cols
            invariant
                le@.len() == acc_cols,
                idx <= acc_cols,
                forall|k: int| 0 <= k < le@.len() ==> (#[trigger] le@[k]) < pow2(bits),
                be@.len() == idx,
                forall|k: int| 0 <= k < idx ==> (#[trigger] be@[k]) == le@[acc_cols - 1 - k],
                reconstruct(be@, bits) == le_value(
                    le@.subrange((acc_cols - idx) as int, acc_cols as int),
                    bits,
                ),
            decreases acc_cols - idx,
        {
            let limb = le[acc_cols - 1 - idx];
            let ghost pre_be = be@;
            be.push(limb);
            proof {
                assert(be@.drop_last() =~= pre_be);
                assert(be@.last() == limb);
                let lo = (acc_cols - idx - 1) as int;
                let sub1 = le@.subrange(lo, acc_cols as int);
                assert(sub1[0] == le@[lo]);
                assert(sub1.subrange(1, sub1.len() as int) =~= le@.subrange(
                    lo + 1,
                    acc_cols as int,
                ));
            }
            idx += 1;
        }
        proof {
            assert(le@.subrange(0, acc_cols as int) =~= le@);
        }
        let row = OverflowRow { value: update_value, limbs: be };
        let cell = ValueCell { row: witness.rows.len(), value: update_value };
        witness.rows.push(row);
        proof {
            let pint = p as int;
            let newrow = witness.rows@.last();
            lemma_reconstruct_f_mod(pint, newrow.limbs@, bits);
            lemma_small_mod(update_value as nat, p as nat);
            assert forall|i: int| 0 <= i < newrow.limbs@.len() implies range_product(
                pint,
                (#[trigger] newrow.limbs@[i]) as int,
                pow2(bits),
            ) == 0 by {
                lemma_range_product_zero(pint, newrow.limbs@[i] as int, pow2(bits));
            }
            assert(row_satisfied(pint, bits, acc_cols as nat, newrow));
            assert(row_wf(pint, newrow));
        }
        Ok(cell)
    }

    /// Registers a copy constraint between a value cell and a row of
    /// the public-input column; equality is enforced by the backend's
    /// permutation argument at check time.
    pub fn expose_public(
        &self,
        witness: &mut OverflowWitness,
        cell: &ValueCell,
        row: usize,
    ) -> (res: Result<(), ChipError>)
        ensures
            match res {
                Ok(_) => {
                    &&& cell.row < old(witness).rows@.len()
                    &&& final(witness).rows@ == old(witness).rows@
                    &&& final(witness).bindings@ == old(witness).bindings@.push((cell.row, row))
                },
                Err(e) => {
                    &&& e == ChipError::InvalidCell
                    &&& cell.row >= old(witness).rows@.len()
                    &&& *final(witness) == *old(witness)
                },
            },
    {
        if cell.row >= witness.rows.len() {
            return Err(ChipError::InvalidCell);
        }
        witness.bindings.push((cell.row, row));
        Ok(())
    }
}

} // verus!
