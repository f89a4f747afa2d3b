//! The spend circuits.
//!
//! [`GenesisSpendCircuit`] is the spend relation for a genesis mint, which has no parent
//! receipt. [`SpendStepCircuit`] is the relation for every other spend: it verifies one
//! wrapped receipt proof for each active input recursively.
//!
//! Both take up to [`MAX_INPUTS`] input coins and [`MAX_OUTPUTS`] output coins. The first
//! slot of each is mandatory; the others are optional, with a flag that tells whether they
//! are active. Every active input gets its own nullifier and its own receipt.
//!
//! An inactive slot's flag gates its checks, so that a made-up witness cannot fail them. Its
//! value is forced to zero in the sum apart from that: gating the checks alone would let a
//! prover mark a slot with a value as inactive and count that value with nothing behind it.

use vstd::prelude::*;
use vstd::arithmetic::power2::pow2;
use ark_ec::{CurveGroup, PrimeGroup};
use ark_serialize::CanonicalSerialize;
use crate::circuit_wrap;
use crate::circuit_wrap::{combine_chunks_var, public_input_chunks};
use crate::codec;
use crate::coin;
use crate::coin::Coin;
use crate::constraints;
use crate::constraints::{canonical_bits, ConstraintBackend, Step, Variables, FIELD_BITS};
use crate::envelope;
use crate::field;
use crate::field::{Fr, OwnerScalar};
use crate::gadgets;
use crate::gadgets::{
    alloc_active_flags, alloc_bits, alloc_fp_vec, alloc_secret, enforce_key, fold_secret, gate,
    root_at_slot, verify_nonmembership_var, CoinVar,
};
use crate::groth16;
use crate::groth16::{mnt4_verify, SynthesisError};
use crate::keys;
use crate::keys::{genesis_pk, owner_pk_to_field_pair, OwnerPk};
use crate::merkle;
use crate::merkle::TREE_DEPTH;
use crate::nullifier;
use crate::nullifier::NonMembershipWitness;
use crate::poseidon;
use crate::relations;

verus! {

/// Up to this many input coins per spend.
pub const MAX_INPUTS: usize = 2;

/// Up to this many output coins per spend.
pub const MAX_OUTPUTS: usize = 2;

/// Number of public inputs of a spend: the key's coordinates, the output commitments, the
/// board root and the accumulator root.
pub const SPEND_PUBLIC_INPUT_COUNT: usize = 6;

/// Number of public inputs of a receipt.
pub const RECEIPT_PUBLIC_INPUT_COUNT: usize = 5;

/// Where the first coordinate of the owner's key stands among a receipt's public inputs.
pub const RECEIPT_OWNER_PK_X: usize = 0;

/// Where the second coordinate of the owner's key stands among a receipt's public inputs.
pub const RECEIPT_OWNER_PK_Y: usize = 1;

/// Where the coin's commitment stands among a receipt's public inputs.
pub const RECEIPT_COIN_COMMITMENT: usize = 2;

/// The public inputs of a spend, in order, with the key given by its coordinates.
pub open spec fn publics_at(
    pk: (nat, nat),
    output_commitments: Seq<nat>,
    board_root: nat,
    nullifier_root: nat,
) -> Seq<nat> {
    seq![pk.0, pk.1] + output_commitments + seq![board_root, nullifier_root]
}

/// The public inputs of a spend, in order.
pub open spec fn spend_publics(
    pk: Option<(nat, nat)>,
    output_commitments: Seq<nat>,
    board_root: nat,
    nullifier_root: nat,
) -> Seq<nat> {
    publics_at(keys::coordinates(pk), output_commitments, board_root, nullifier_root)
}

/// A slot counts: it is the first, or it holds a coin.
pub open spec fn slot_active(coins: Seq<Option<Coin>>, i: int) -> bool {
    i == 0 || coins[i] is Some
}

/// The sum of the values of the first `n` slots, where they are active.
pub open spec fn active_total(coins: Seq<Option<Coin>>, n: nat) -> nat
    decreases n,
{
    if n == 0 {
        0
    } else {
        active_total(coins, (n - 1) as nat) + if slot_active(coins, n - 1) {
            gadgets::slot_coin(coins[n - 1]).0
        } else {
            0
        }
    }
}

/// An active input belongs to the spender, and its nullifier is absent from the accumulator.
pub open spec fn input_holds(
    coins: Seq<Option<Coin>>,
    witnesses: Seq<Option<NonMembershipWitness>>,
    pk: (nat, nat),
    sk: nat,
    nullifier_root: nat,
    i: int,
) -> bool {
    slot_active(coins, i) ==> {
        &&& (gadgets::slot_coin(coins[i]).2, gadgets::slot_coin(coins[i]).3) == pk
        &&& nullifier::shows_absence(
            nullifier_root,
            envelope::nullifier_of(gadgets::slot_commitment(coins[i]), sk),
            gadgets::slot_witness(witnesses[i]),
        )
    }
}

/// An active output opens the commitment at its place.
pub open spec fn output_holds(coins: Seq<Option<Coin>>, commitments: Seq<nat>, j: int) -> bool {
    slot_active(coins, j) ==> gadgets::slot_commitment(coins[j]) == commitments[j]
}

/// One input slot of an assignment: its flag, its coin's value, randomness and owner, and the
/// witness that its nullifier is absent.
pub struct InputSlot {
    pub active: bool,
    pub coin: (nat, nat, nat, nat),
    pub absence: nullifier::WitnessView,
}

/// One output slot of an assignment.
pub struct OutputSlot {
    pub active: bool,
    pub coin: (nat, nat, nat, nat),
}

/// The private part of an assignment to a spend circuit.
pub struct SpendWitness {
    pub sk: nat,
    pub position: nat,
    pub path: Seq<nat>,
    pub inputs: Seq<InputSlot>,
    pub outputs: Seq<OutputSlot>,
    /// For each input, the numbers that the bits of its receipt's pieces write. A genesis mint
    /// has none.
    pub receipts: Seq<Seq<nat>>,
}

/// What a slot counts for.
pub open spec fn counted(active: bool, coin: (nat, nat, nat, nat)) -> nat {
    if active {
        coin.0
    } else {
        0
    }
}

/// The sum of numbers.
pub open spec fn sum_of(counts: Seq<nat>) -> nat
    decreases counts.len(),
{
    if counts.len() == 0 {
        0
    } else {
        sum_of(counts.drop_last()) + counts.last()
    }
}

/// What input slots count for.
pub open spec fn input_counts(slots: Seq<InputSlot>) -> Seq<nat> {
    slots.map_values(|slot: InputSlot| counted(slot.active, slot.coin))
}

/// What output slots count for.
pub open spec fn output_counts(slots: Seq<OutputSlot>) -> Seq<nat> {
    slots.map_values(|slot: OutputSlot| counted(slot.active, slot.coin))
}

/// An active input belongs to the spender, and its nullifier is absent from the accumulator.
pub open spec fn input_slot_holds(
    slot: InputSlot,
    pk: (nat, nat),
    sk: nat,
    nullifier_root: nat,
) -> bool {
    slot.active ==> {
        &&& (slot.coin.2, slot.coin.3) == pk
        &&& nullifier::shows_absence(
            nullifier_root,
            envelope::nullifier_of(gadgets::parts_commitment(slot.coin), sk),
            slot.absence,
        )
    }
}

/// An active output opens the commitment at its place.
pub open spec fn output_slot_holds(slot: OutputSlot, commitment: nat) -> bool {
    slot.active ==> gadgets::parts_commitment(slot.coin) == commitment
}

/// The spend relation of public inputs and a private witness. The secret is canonical, all
/// values have 64 bits, the first slots are active, and what active slots count for is
/// conserved.
pub open spec fn spend_holds(publics: Seq<nat>, w: SpendWitness) -> bool {
    let pk = (publics[0], publics[1]);
    &&& publics.len() == SPEND_PUBLIC_INPUT_COUNT
    &&& gadgets::is_key_of(w.sk, pk)
    // The board root is the one before the spend is posted.
    &&& w.position < field::fr_modulus()
    &&& w.path.len() == TREE_DEPTH
    &&& gadgets::elements(w.path)
    &&& merkle::path_root(0, w.position, w.path) == publics[4]
    // Inputs and outputs.
    &&& w.inputs.len() == MAX_INPUTS
    &&& w.inputs[0].active
    &&& forall|i: int|
        0 <= i < MAX_INPUTS ==> {
            &&& gadgets::parts_in_range((#[trigger] w.inputs[i]).coin)
            &&& gadgets::witness_in_field(w.inputs[i].absence)
            &&& input_slot_holds(w.inputs[i], pk, w.sk, publics[5])
        }
    &&& w.outputs.len() == MAX_OUTPUTS
    &&& w.outputs[0].active
    &&& forall|j: int|
        0 <= j < MAX_OUTPUTS ==> {
            &&& gadgets::parts_in_range((#[trigger] w.outputs[j]).coin)
            &&& output_slot_holds(w.outputs[j], publics[2 + j])
        }
    // Values are conserved.
    &&& sum_of(input_counts(w.inputs)) == sum_of(output_counts(w.outputs))
}

/// The spend relation of a genesis mint: the key is the genesis key.
pub open spec fn genesis_holds(publics: Seq<nat>, w: SpendWitness) -> bool {
    &&& spend_holds(publics, w)
    &&& (publics[0], publics[1]) == keys::coordinates(keys::owner_point(1))
}

/// What a satisfied genesis circuit tells of its public inputs, whoever made the assignment.
pub open spec fn is_genesis_statement(publics: Seq<nat>) -> bool {
    exists|w: SpendWitness| #[trigger] genesis_holds(publics, w)
}

/// The public inputs of a spend as variables.
pub struct SpendPublicVars<B: Variables> {
    pub pk_x: B::Fp,
    pub pk_y: B::Fp,
    pub output_commitments: Vec<B::Fp>,
    pub board_root: B::Fp,
    pub nullifier_root: B::Fp,
}

impl<B: Variables> SpendPublicVars<B> {
    /// The coordinates of the key.
    pub open spec fn pk(&self) -> (nat, nat) {
        (B::fp(self.pk_x), B::fp(self.pk_y))
    }

    /// The values of the public inputs, in order.
    pub open spec fn values(&self) -> Seq<nat> {
        publics_at(
            self.pk(),
            constraints::fp_values::<B>(self.output_commitments@),
            B::fp(self.board_root),
            B::fp(self.nullifier_root),
        )
    }
}

/// The steps of [`alloc_spend_publics`].
pub open spec fn publics_shape(s: Seq<Step>) -> Seq<Step> {
    gadgets::repeated(s.push(Step::Input).push(Step::Input), Step::Input, MAX_OUTPUTS as nat).push(
        Step::Input,
    ).push(Step::Input)
}

/// The public inputs of a spend, in their fixed order.
fn alloc_spend_publics<B: ConstraintBackend>(
    cs: &mut B,
    pk_p: &Option<OwnerPk>,
    output_commitments: &Option<[Fr; MAX_OUTPUTS]>,
    board_root: &Option<Fr>,
    nullifier_root: &Option<Fr>,
) -> (r: SpendPublicVars<B>)
    requires
        old(cs).assigns() ==> pk_p is Some && output_commitments is Some && board_root is Some
            && nullifier_root is Some,
    ensures
        constraints::keeps_mode(*old(cs), *final(cs)),
        final(cs).shape() == publics_shape(old(cs).shape()),
        final(cs).satisfied() == old(cs).satisfied(),
        r.output_commitments@.len() == MAX_OUTPUTS,
        final(cs).inputs() == old(cs).inputs() + r.values(),
        final(cs).honest() && final(cs).assigns() ==> {
            &&& r.pk() == keys::coordinates(pk_p->0@)
            &&& constraints::fp_values::<B>(r.output_commitments@) == field::fr_values(
                output_commitments->0@,
            )
            &&& B::fp(r.board_root) == board_root->0@
            &&& B::fp(r.nullifier_root) == nullifier_root->0@
        },
{
    let (native_x, native_y): (Option<Fr>, Option<Fr>) = match pk_p {
        Some(pk) => {
            let (x, y) = owner_pk_to_field_pair(pk);
            (Some(x), Some(y))
        },
        None => (None, None),
    };
    let pk_x = cs.new_input(native_x);
    let pk_y = cs.new_input(native_y);
    let ghost start = cs.inputs();
    let ghost start_shape = cs.shape();
    let mut outputs: Vec<B::Fp> = Vec::new();
    let mut i: usize = 0;
    assert(cs.inputs() =~= start + constraints::fp_values::<B>(outputs@));
    while i < MAX_OUTPUTS
        invariant
            constraints::keeps_mode(*old(cs), *cs),
            cs.shape() == gadgets::repeated(start_shape, Step::Input, i as nat),
            cs.satisfied() == old(cs).satisfied(),
            i <= MAX_OUTPUTS,
            outputs@.len() == i,
            old(cs).assigns() ==> output_commitments is Some,
            cs.inputs() == start + constraints::fp_values::<B>(outputs@),
            cs.honest() && cs.assigns() ==> forall|j: int|
                0 <= j < i ==> B::fp(#[trigger] outputs@[j]) == output_commitments->0@[j]@,
        decreases MAX_OUTPUTS - i,
    {
        let value: Option<Fr> = match output_commitments {
            Some(list) => Some(list[i]),
            None => None,
        };
        let variable = cs.new_input(value);
        let ghost earlier = outputs@;
        outputs.push(variable);
        i += 1;
        proof {
            assert(constraints::fp_values::<B>(outputs@) =~= constraints::fp_values::<B>(
                earlier,
            ).push(B::fp(variable)));
            assert(cs.inputs() =~= start + constraints::fp_values::<B>(outputs@));
        }
    }
    let board_root_var = cs.new_input(*board_root);
    let nullifier_root_var = cs.new_input(*nullifier_root);
    let r = SpendPublicVars {
        pk_x,
        pk_y,
        output_commitments: outputs,
        board_root: board_root_var,
        nullifier_root: nullifier_root_var,
    };
    proof {
        assert(cs.inputs() =~= old(cs).inputs() + r.values());
        if cs.honest() && cs.assigns() {
            assert(constraints::fp_values::<B>(r.output_commitments@) =~= field::fr_values(
                output_commitments->0@,
            ));
        }
    }
    r
}

/// The steps of [`enforce_anchor`].
pub open spec fn anchor_shape(s: Seq<Step>) -> Seq<Step> {
    gadgets::slot_root_shape(
        gadgets::repeated(s.push(Step::Witness), Step::Witness, TREE_DEPTH as nat).push(
            Step::Constant(0),
        ),
    ).push(Step::EnforceEqual)
}

/// Constrain the board root to be the one that an empty slot's path leads to. Returns the slot
/// and the path.
fn enforce_anchor<B: ConstraintBackend>(
    cs: &mut B,
    entry_position: &Option<u64>,
    append_path: &Option<Vec<Fr>>,
    board_root: &B::Fp,
) -> (r: Ghost<(nat, Seq<nat>)>)
    requires
        old(cs).assigns() ==> entry_position is Some && append_path is Some
            && append_path->0@.len() >= TREE_DEPTH,
    ensures
        constraints::constrained(
            *old(cs),
            *final(cs),
            merkle::path_root(0, r@.0, r@.1) == B::fp(*board_root),
        ),
        final(cs).shape() == anchor_shape(old(cs).shape()),
        r@.0 < field::fr_modulus(),
        r@.1.len() == TREE_DEPTH,
        gadgets::elements(r@.1),
        final(cs).honest() && final(cs).assigns() ==> r@.0 == entry_position->0 as nat && r@.1
            == field::fr_values(append_path->0@).take(32),
{
    let native: Option<Fr> = match entry_position {
        Some(position) => Some(Fr::from(*position)),
        None => None,
    };
    let position = cs.new_witness(native);
    let path = alloc_fp_vec(cs, append_path, TREE_DEPTH);
    let zero = cs.constant(Fr::from(0u64));
    let computed = root_at_slot(cs, zero, &position, &path);
    cs.enforce_equal(&computed, board_root);
    Ghost((B::fp(position), constraints::fp_values::<B>(path@)))
}

/// Which slots hold a coin.
fn present_slots(coins: &[Option<Coin>]) -> (r: Vec<bool>)
    ensures
        r@.len() == coins@.len(),
        forall|i: int| 0 <= i < coins@.len() ==> #[trigger] r@[i] == (coins@[i] is Some),
{
    let mut out: Vec<bool> = Vec::new();
    let mut i: usize = 0;
    while i < coins.len()
        invariant
            i <= coins@.len(),
            out@.len() == i,
            forall|j: int| 0 <= j < i ==> #[trigger] out@[j] == (coins@[j] is Some),
        decreases coins@.len() - i,
    {
        out.push(coins[i].is_some());
        i += 1;
    }
    out
}

/// Flags that tell which slots of coins are active.
fn alloc_slot_flags<B: ConstraintBackend>(cs: &mut B, coins: &[Option<Coin>]) -> (flags: Vec<B::Bit>)
    ensures
        constraints::undisturbed(*old(cs), *final(cs)),
        final(cs).shape() == gadgets::flags_shape(old(cs).shape(), coins@.len()),
        flags@.len() == coins@.len(),
        flags@.len() > 0 ==> B::bit(flags@[0]),
        final(cs).honest() ==> forall|i: int|
            0 <= i < coins@.len() ==> B::bit(#[trigger] flags@[i]) == slot_active(coins@, i),
{
    let present = present_slots(coins);
    let flags = alloc_active_flags(cs, present.as_slice());
    proof {
        if cs.honest() {
            assert forall|i: int| 0 <= i < coins@.len() implies B::bit(#[trigger] flags@[i])
                == slot_active(coins@, i) by {
                assert(B::bit(flags@[i]) == gadgets::is_active(present@, i));
            }
        }
    }
    flags
}

/// The input slot that a coin and a witness make.
pub open spec fn given_input(
    coins: Seq<Option<Coin>>,
    witnesses: Seq<Option<NonMembershipWitness>>,
    i: int,
) -> InputSlot {
    InputSlot {
        active: slot_active(coins, i),
        coin: gadgets::slot_coin(coins[i]),
        absence: gadgets::slot_witness(witnesses[i]),
    }
}

/// The output slot that a coin makes.
pub open spec fn given_output(coins: Seq<Option<Coin>>, j: int) -> OutputSlot {
    OutputSlot { active: slot_active(coins, j), coin: gadgets::slot_coin(coins[j]) }
}

/// The steps of [`enforce_input`].
pub open spec fn input_shape(s: Seq<Step>) -> Seq<Step> {
    let owner = gadgets::gate_shape(
        gadgets::coin_shape(s).push(Step::IsEqual).push(Step::IsEqual).push(Step::And),
    ).push(Step::EnforceTrue);
    let absence = gadgets::gate_shape(
        gadgets::nonmembership_shape(owner.push(Step::Hash(4)).push(Step::Hash(2))),
    ).push(Step::EnforceTrue);
    gadgets::value_shape(absence)
}

/// Constrain one input slot: an active one belongs to the spender, and its nullifier is
/// absent. Returns its commitment and what it counts for in the sum, and the slot.
fn enforce_input<B: ConstraintBackend>(
    cs: &mut B,
    publics: &SpendPublicVars<B>,
    sk_folded: &B::Fp,
    c: &Option<Coin>,
    w: &Option<NonMembershipWitness>,
    active: &B::Bit,
    Ghost(sk): Ghost<nat>,
) -> (r: (B::Fp, B::Fp, Ghost<InputSlot>))
    requires
        old(cs).assigns() ==> gadgets::witness_reaches_root(*w),
        constraints::reliable(*old(cs)) ==> B::fp(*sk_folded) == poseidon::folded_scalar(sk),
    ensures
        constraints::constrained(
            *old(cs),
            *final(cs),
            input_slot_holds(r.2@, publics.pk(), sk, B::fp(publics.nullifier_root)),
        ),
        final(cs).shape() == input_shape(old(cs).shape()),
        r.2@.active == B::bit(*active),
        gadgets::witness_in_field(r.2@.absence),
        constraints::reliable(*final(cs)) ==> {
            &&& gadgets::parts_in_range(r.2@.coin)
            &&& B::fp(r.0) == gadgets::parts_commitment(r.2@.coin)
            &&& B::fp(r.1) == counted(r.2@.active, r.2@.coin)
        },
        final(cs).honest() && final(cs).assigns() ==> r.2@.coin == gadgets::slot_coin(*c)
            && r.2@.absence == gadgets::slot_witness(*w),
{
    let coin_var = CoinVar::<B>::new_witness(cs, c);
    let x_ok = cs.is_eq(&coin_var.owner_pk_x, &publics.pk_x);
    let y_ok = cs.is_eq(&coin_var.owner_pk_y, &publics.pk_y);
    let owner_ok = cs.and(&x_ok, &y_ok);
    let owner_gate = gate(cs, &owner_ok, active);
    cs.enforce_true(&owner_gate);
    let commitment = coin_var.commitment(cs);
    let mut list: Vec<&B::Fp> = Vec::new();
    list.push(&commitment);
    list.push(sk_folded);
    assert(constraints::referenced_values::<B>(list@) =~= seq![B::fp(commitment), B::fp(
        *sk_folded,
    )]);
    let own_nullifier = cs.hash(&list);
    let (absent, absence) = verify_nonmembership_var(
        cs,
        &publics.nullifier_root,
        &own_nullifier,
        w,
    );
    let absent_gate = gate(cs, &absent, active);
    cs.enforce_true(&absent_gate);
    let value = coin_var.value_or_zero(cs, active);
    let ghost slot = InputSlot {
        active: B::bit(*active),
        coin: coin_var.parts(),
        absence: absence@,
    };
    (commitment, value, Ghost(slot))
}

/// Counts of 64 bits are far below the modulus, so that their sums do not wrap around.
proof fn lemma_sum_is_small(counts: Seq<nat>)
    requires
        counts.len() <= 2,
        forall|i: int| 0 <= i < counts.len() ==> #[trigger] counts[i] < pow2(64),
    ensures
        sum_of(counts) <= counts.len() * 0xffff_ffff_ffff_ffff,
        sum_of(counts) < field::fr_modulus(),
    decreases counts.len(),
{
    vstd::arithmetic::power2::lemma2_to64();
    if counts.len() > 0 {
        let shorter = counts.drop_last();
        assert forall|i: int| 0 <= i < shorter.len() implies #[trigger] shorter[i] < pow2(64) by {
            assert(shorter[i] == counts[i]);
        }
        assert(counts.last() == counts[counts.len() - 1]);
        lemma_sum_is_small(shorter);
    }
}

/// The steps of one output slot.
pub open spec fn output_shape(s: Seq<Step>) -> Seq<Step> {
    gadgets::value_shape(
        gadgets::gate_shape(
            gadgets::coin_shape(s).push(Step::Hash(4)).push(Step::IsEqual),
        ).push(Step::EnforceTrue),
    ).push(Step::Plus)
}

/// The active ones of output slots open the commitments at their places.
pub open spec fn outputs_hold(slots: Seq<OutputSlot>, commitments: Seq<nat>) -> bool {
    forall|j: int|
        0 <= j < slots.len() ==> output_slot_holds(#[trigger] slots[j], commitments[j])
}

/// The steps of the first `n` output slots.
pub open spec fn outputs_shape(s: Seq<Step>, n: nat) -> Seq<Step>
    decreases n,
{
    if n == 0 {
        gadgets::flags_shape(s, MAX_OUTPUTS as nat).push(Step::Constant(0))
    } else {
        output_shape(outputs_shape(s, (n - 1) as nat))
    }
}

/// Constrain the output slots: an active one opens the commitment at its place. Returns the
/// sum of their values, and the slots.
fn enforce_outputs<B: ConstraintBackend>(
    cs: &mut B,
    coins: &[Option<Coin>; MAX_OUTPUTS],
    commitments: &Vec<B::Fp>,
) -> (r: (B::Fp, Ghost<Seq<OutputSlot>>))
    requires
        commitments@.len() == MAX_OUTPUTS,
    ensures
        constraints::constrained(
            *old(cs),
            *final(cs),
            outputs_hold(r.1@, constraints::fp_values::<B>(commitments@)),
        ),
        final(cs).shape() == outputs_shape(old(cs).shape(), MAX_OUTPUTS as nat),
        r.1@.len() == MAX_OUTPUTS,
        r.1@[0].active,
        constraints::reliable(*final(cs)) ==> {
            &&& B::fp(r.0) == sum_of(output_counts(r.1@))
            &&& forall|j: int|
                0 <= j < MAX_OUTPUTS ==> gadgets::parts_in_range((#[trigger] r.1@[j]).coin)
        },
        final(cs).honest() ==> forall|j: int|
            0 <= j < MAX_OUTPUTS ==> #[trigger] r.1@[j] == given_output(coins@, j),
        final(cs).honest() ==> sum_of(output_counts(r.1@)) == active_total(
            coins@,
            MAX_OUTPUTS as nat,
        ),
{
    let ghost wanted = constraints::fp_values::<B>(commitments@);
    let flags = alloc_slot_flags(cs, coins);
    let mut total = cs.constant(Fr::from(0u64));
    let ghost mut slots: Seq<OutputSlot> = Seq::empty();
    let mut j: usize = 0;
    assert(output_counts(slots).len() == 0);
    while j < MAX_OUTPUTS
        invariant
            j <= MAX_OUTPUTS,
            commitments@.len() == MAX_OUTPUTS,
            flags@.len() == MAX_OUTPUTS,
            B::bit(flags@[0]),
            wanted == constraints::fp_values::<B>(commitments@),
            constraints::keeps_mode(*old(cs), *cs),
            cs.shape() == outputs_shape(old(cs).shape(), j as nat),
            cs.inputs() == old(cs).inputs(),
            cs.honest() ==> forall|i: int|
                0 <= i < MAX_OUTPUTS ==> B::bit(#[trigger] flags@[i]) == slot_active(coins@, i),
            slots.len() == j,
            forall|i: int| 0 <= i < j ==> (#[trigger] slots[i]).active == B::bit(flags@[i]),
            cs.satisfied() ==> old(cs).satisfied() && outputs_hold(slots, wanted),
            cs.honest() ==> cs.satisfied() == (old(cs).satisfied() && outputs_hold(
                slots,
                wanted,
            )),
            cs.honest() ==> forall|i: int|
                0 <= i < j ==> #[trigger] slots[i] == given_output(coins@, i),
            cs.honest() ==> sum_of(output_counts(slots)) == active_total(coins@, j as nat),
            constraints::reliable(*cs) ==> forall|i: int|
                0 <= i < j ==> gadgets::parts_in_range((#[trigger] slots[i]).coin),
            constraints::reliable(*cs) ==> B::fp(total) == sum_of(output_counts(slots)),
        decreases MAX_OUTPUTS - j,
    {
        let ghost before = *cs;
        let coin_var = CoinVar::<B>::new_witness(cs, &coins[j]);
        let commitment = coin_var.commitment(cs);
        let opens = cs.is_eq(&commitment, &commitments[j]);
        let gated = gate(cs, &opens, &flags[j]);
        cs.enforce_true(&gated);
        let value = coin_var.value_or_zero(cs, &flags[j]);
        total = cs.plus(&total, &value);
        proof {
            let slot = OutputSlot { active: B::bit(flags@[j as int]), coin: coin_var.parts() };
            let earlier = slots;
            slots = earlier.push(slot);
            assert(wanted[j as int] == B::fp(commitments@[j as int]));
            assert(output_counts(slots) =~= output_counts(earlier).push(
                counted(slot.active, slot.coin),
            ));
            assert(output_counts(slots).drop_last() =~= output_counts(earlier));
            assert(slots[j as int] == slot);
            assert forall|i: int| 0 <= i < j implies slots[i] == earlier[i] by {}
            assert(outputs_hold(slots, wanted) == (outputs_hold(earlier, wanted)
                && output_slot_holds(slot, wanted[j as int])));
            if constraints::reliable(*cs) {
                assert(B::bit(gated) == output_slot_holds(slot, wanted[j as int]));
                let counts = output_counts(slots);
                assert forall|i: int| 0 <= i < counts.len() implies #[trigger] counts[i]
                    < pow2(64) by {
                    assert(gadgets::parts_in_range(slots[i].coin));
                    vstd::arithmetic::power2::lemma_pow2_pos(64);
                }
                lemma_sum_is_small(counts);
                vstd::arithmetic::div_mod::lemma_small_mod(sum_of(counts), field::fr_modulus());
            }
            if cs.honest() {
                assert(slot == given_output(coins@, j as int));
            }
        }
        j += 1;
    }
    (total, Ghost(slots))
}

/// A slot more.
proof fn lemma_slot_added(slots: Seq<InputSlot>, slot: InputSlot)
    ensures
        sum_of(input_counts(slots.push(slot))) == sum_of(input_counts(slots)) + counted(
            slot.active,
            slot.coin,
        ),
{
    let counts = input_counts(slots.push(slot));
    assert(counts =~= input_counts(slots).push(counted(slot.active, slot.coin)));
    assert(counts.drop_last() =~= input_counts(slots));
}

/// The sum over input slots does not wrap around.
proof fn lemma_inputs_are_small(slots: Seq<InputSlot>)
    requires
        slots.len() <= 2,
        forall|i: int|
            0 <= i < slots.len() ==> gadgets::parts_in_range((#[trigger] slots[i]).coin),
    ensures
        sum_of(input_counts(slots)) < field::fr_modulus(),
{
    let counts = input_counts(slots);
    vstd::arithmetic::power2::lemma_pow2_pos(64);
    assert forall|i: int| 0 <= i < counts.len() implies #[trigger] counts[i] < pow2(64) by {
        assert(gadgets::parts_in_range(slots[i].coin));
    }
    lemma_sum_is_small(counts);
}

/// What is said of slots is what is said of the coins and witnesses that make them.
proof fn lemma_slots_agree(
    inputs: Seq<InputSlot>,
    outputs: Seq<OutputSlot>,
    input_coins: Seq<Option<Coin>>,
    witnesses: Seq<Option<NonMembershipWitness>>,
    output_coins: Seq<Option<Coin>>,
    commitments: Seq<nat>,
    pk: (nat, nat),
    sk: nat,
    nullifier_root: nat,
)
    requires
        inputs.len() == MAX_INPUTS,
        outputs.len() == MAX_OUTPUTS,
        forall|i: int|
            0 <= i < MAX_INPUTS ==> #[trigger] inputs[i] == given_input(input_coins, witnesses, i),
        forall|j: int|
            0 <= j < MAX_OUTPUTS ==> #[trigger] outputs[j] == given_output(output_coins, j),
    ensures
        (forall|i: int|
            0 <= i < MAX_INPUTS ==> input_slot_holds(
                #[trigger] inputs[i],
                pk,
                sk,
                nullifier_root,
            )) == (forall|i: int|
            0 <= i < MAX_INPUTS ==> #[trigger] input_holds(
                input_coins,
                witnesses,
                pk,
                sk,
                nullifier_root,
                i,
            )),
        (forall|j: int|
            0 <= j < MAX_OUTPUTS ==> output_slot_holds(#[trigger] outputs[j], commitments[j])) == (
        forall|j: int|
            0 <= j < MAX_OUTPUTS ==> #[trigger] output_holds(output_coins, commitments, j)),
{
    assert(inputs[0] == given_input(input_coins, witnesses, 0));
    assert(inputs[1] == given_input(input_coins, witnesses, 1));
    assert(outputs[0] == given_output(output_coins, 0));
    assert(outputs[1] == given_output(output_coins, 1));
    assert(input_slot_holds(inputs[0], pk, sk, nullifier_root) == input_holds(
        input_coins,
        witnesses,
        pk,
        sk,
        nullifier_root,
        0,
    ));
    assert(input_slot_holds(inputs[1], pk, sk, nullifier_root) == input_holds(
        input_coins,
        witnesses,
        pk,
        sk,
        nullifier_root,
        1,
    ));
    assert(output_slot_holds(outputs[0], commitments[0]) == output_holds(
        output_coins,
        commitments,
        0,
    ));
    assert(output_slot_holds(outputs[1], commitments[1]) == output_holds(
        output_coins,
        commitments,
        1,
    ));
}

/// The steps of the first `n` input slots of a genesis mint.
pub open spec fn genesis_inputs_shape(s: Seq<Step>, n: nat) -> Seq<Step>
    decreases n,
{
    if n == 0 {
        gadgets::flags_shape(s, MAX_INPUTS as nat).push(Step::Constant(0))
    } else {
        input_shape(genesis_inputs_shape(s, (n - 1) as nat)).push(Step::Plus)
    }
}

/// The steps of the genesis circuit. They depend on nothing that is given.
pub open spec fn genesis_shape(s: Seq<Step>) -> Seq<Step> {
    let genesis = keys::coordinates(keys::owner_point(1));
    let key = gadgets::key_shape(
        gadgets::repeated(publics_shape(s), Step::WitnessBit, FIELD_BITS as nat),
    ).push(Step::Constant(genesis.0)).push(Step::Constant(genesis.1)).push(Step::EnforceEqual).push(
        Step::EnforceEqual,
    );
    let anchored = anchor_shape(gadgets::fold_shape(key, FIELD_BITS as nat));
    outputs_shape(
        genesis_inputs_shape(anchored, MAX_INPUTS as nat),
        MAX_OUTPUTS as nat,
    ).push(Step::EnforceEqual)
}

/// The spend relation for a genesis mint. Its inputs are trusted by construction and need no
/// receipt.
#[derive(Clone, Debug)]
pub struct GenesisSpendCircuit {
    // Public values.
    pub pk_p: Option<OwnerPk>,
    pub output_commitments: Option<[Fr; MAX_OUTPUTS]>,
    pub board_root: Option<Fr>,
    pub current_nullifier_root: Option<Fr>,
    // Private witnesses.
    pub sk_p: Option<OwnerScalar>,
    /// The first slot is mandatory, the others are optional.
    pub input_coins: [Option<Coin>; MAX_INPUTS],
    /// The first slot is mandatory, the others are optional.
    pub output_coins: [Option<Coin>; MAX_OUTPUTS],
    pub entry_position: Option<u64>,
    /// One sibling for each level of the tree.
    pub append_path: Option<Vec<Fr>>,
    /// One non-membership witness per input slot.
    pub own_nullifier_nonmembership: [Option<NonMembershipWitness>; MAX_INPUTS],
}

impl Default for GenesisSpendCircuit {
    /// The circuit without any values, for its shape.
    fn default() -> (r: GenesisSpendCircuit)
        ensures
            r.pk_p is None,
            r.output_commitments is None,
            r.board_root is None,
            r.current_nullifier_root is None,
            r.sk_p is None,
            r.input_coins@ == seq![None::<Coin>, None::<Coin>],
            r.output_coins@ == seq![None::<Coin>, None::<Coin>],
            r.entry_position is None,
            r.append_path is None,
            r.own_nullifier_nonmembership@ == seq![
                None::<NonMembershipWitness>,
                None::<NonMembershipWitness>,
            ],
    {
        let r = GenesisSpendCircuit {
            pk_p: None,
            output_commitments: None,
            board_root: None,
            current_nullifier_root: None,
            sk_p: None,
            input_coins: [None, None],
            output_coins: [None, None],
            entry_position: None,
            append_path: None,
            own_nullifier_nonmembership: [None, None],
        };
        assert(r.input_coins@ =~= seq![None::<Coin>, None::<Coin>]);
        assert(r.output_coins@ =~= seq![None::<Coin>, None::<Coin>]);
        assert(r.own_nullifier_nonmembership@ =~= seq![
            None::<NonMembershipWitness>,
            None::<NonMembershipWitness>,
        ]);
        r
    }
}

/// A path and witnesses that hold a sibling for every level.
pub open spec fn paths_reach_root(
    append_path: Option<Vec<Fr>>,
    witnesses: Seq<Option<NonMembershipWitness>>,
) -> bool {
    &&& append_path matches Some(path) ==> path@.len() >= TREE_DEPTH
    &&& forall|i: int|
        0 <= i < witnesses.len() ==> gadgets::witness_reaches_root(#[trigger] witnesses[i])
}

impl GenesisSpendCircuit {
    /// Every value is there that a proof or an evaluation needs.
    pub open spec fn is_complete(&self) -> bool {
        &&& self.pk_p is Some
        &&& self.output_commitments is Some
        &&& self.board_root is Some
        &&& self.current_nullifier_root is Some
        &&& self.sk_p is Some
        &&& self.entry_position is Some
        &&& self.append_path is Some
    }

    /// What the circuit constrains.
    pub open spec fn relation(&self) -> bool {
        let pk = keys::coordinates(self.pk_p->0@);
        let sk = self.sk_p->0@;
        let root = self.current_nullifier_root->0@;
        // The key is the one of the secret, and it is the genesis key.
        &&& keys::coordinates(keys::owner_point(sk)) == pk
        &&& pk == keys::coordinates(keys::owner_point(1))
        // The board root is the one before the mint is posted.
        &&& merkle::path_root(
            0,
            self.entry_position->0 as nat,
            field::fr_values(self.append_path->0@).take(32),
        ) == self.board_root->0@
        // Inputs and outputs.
        &&& forall|i: int|
            0 <= i < MAX_INPUTS ==> #[trigger] input_holds(
                self.input_coins@,
                self.own_nullifier_nonmembership@,
                pk,
                sk,
                root,
                i,
            )
        &&& forall|j: int|
            0 <= j < MAX_OUTPUTS ==> #[trigger] output_holds(
                self.output_coins@,
                field::fr_values(self.output_commitments->0@),
                j,
            )
        // Values are conserved.
        &&& active_total(self.input_coins@, MAX_INPUTS as nat) == active_total(
            self.output_coins@,
            MAX_OUTPUTS as nat,
        )
    }

    /// Whether every value is there that a proof or an evaluation needs.
    fn has_all_values(&self) -> (r: bool)
        ensures
            r == self.is_complete(),
    {
        self.pk_p.is_some() && self.output_commitments.is_some() && self.board_root.is_some()
            && self.current_nullifier_root.is_some() && self.sk_p.is_some()
            && self.entry_position.is_some() && self.append_path.is_some()
    }

    /// Put the circuit's constraints into a constraint system.
    ///
    /// The public inputs of any assignment that satisfies the constraints make a genesis
    /// statement. The honest assignment satisfies them if and only if the relation holds of the
    /// given values. The steps that are recorded are the same with values and without.
    pub fn generate_constraints<B: ConstraintBackend>(self, cs: &mut B) -> (r: Result<
        (),
        SynthesisError,
    >)
        requires
            old(cs).assigns() ==> paths_reach_root(
                self.append_path,
                self.own_nullifier_nonmembership@,
            ),
        ensures
            r is Ok == (old(cs).assigns() ==> self.is_complete()),
            r is Err ==> r->Err_0 == SynthesisError::AssignmentMissing && *final(cs) == *old(cs),
            constraints::keeps_mode(*old(cs), *final(cs)),
            r is Ok ==> final(cs).shape() == genesis_shape(old(cs).shape()),
            r is Ok && final(cs).satisfied() ==> old(cs).satisfied() && exists|publics: Seq<nat>|
                final(cs).inputs() == old(cs).inputs() + publics && #[trigger]
                is_genesis_statement(publics),
            r is Ok && old(cs).honest() ==> final(cs).satisfied() == (old(cs).satisfied()
                && self.relation()),
            r is Ok && old(cs).honest() ==> final(cs).inputs() == old(cs).inputs()
                + spend_publics(
                self.pk_p->0@,
                field::fr_values(self.output_commitments->0@),
                self.board_root->0@,
                self.current_nullifier_root->0@,
            ),
    {
        if cs.assigns_values() && !self.has_all_values() {
            return Err(SynthesisError::AssignmentMissing);
        }
        let publics = alloc_spend_publics(
            cs,
            &self.pk_p,
            &self.output_commitments,
            &self.board_root,
            &self.current_nullifier_root,
        );
        let ghost pk = publics.pk();
        let ghost root = B::fp(publics.nullifier_root);
        let ghost all_publics = cs.inputs();

        let sk_bits = alloc_secret(cs, &self.sk_p);
        let ghost sk = constraints::number::<B>(sk_bits@);
        enforce_key(cs, &sk_bits, &publics.pk_x, &publics.pk_y);

        let (genesis_x, genesis_y) = owner_pk_to_field_pair(&genesis_pk());
        let genesis_x_var = cs.constant(genesis_x);
        let genesis_y_var = cs.constant(genesis_y);
        cs.enforce_equal(&publics.pk_x, &genesis_x_var);
        cs.enforce_equal(&publics.pk_y, &genesis_y_var);

        let sk_folded = fold_secret(cs, &sk_bits);
        let anchor = enforce_anchor(
            cs,
            &self.entry_position,
            &self.append_path,
            &publics.board_root,
        );
        let ghost anchored = *cs;

        let flags = alloc_slot_flags(cs, &self.input_coins);
        let mut total_in = cs.constant(Fr::from(0u64));
        let ghost mut slots: Seq<InputSlot> = Seq::empty();
        let mut i: usize = 0;
        assert(input_counts(slots).len() == 0);
        while i < MAX_INPUTS
            invariant
                i <= MAX_INPUTS,
                flags@.len() == MAX_INPUTS,
                B::bit(flags@[0]),
                constraints::keeps_mode(*old(cs), *cs),
                constraints::keeps_mode(anchored, *cs),
                cs.shape() == genesis_inputs_shape(anchored.shape(), i as nat),
                cs.inputs() == all_publics,
                old(cs).honest() ==> old(cs).assigns(),
                old(cs).assigns() ==> paths_reach_root(
                    self.append_path,
                    self.own_nullifier_nonmembership@,
                ),
                pk == publics.pk(),
                root == B::fp(publics.nullifier_root),
                constraints::reliable(anchored) ==> B::fp(sk_folded) == poseidon::folded_scalar(
                    sk,
                ),
                cs.honest() ==> forall|k: int|
                    0 <= k < MAX_INPUTS ==> B::bit(#[trigger] flags@[k]) == slot_active(
                        self.input_coins@,
                        k,
                    ),
                slots.len() == i,
                forall|k: int|
                    0 <= k < i ==> (#[trigger] slots[k]).active == B::bit(flags@[k])
                        && gadgets::witness_in_field(slots[k].absence),
                cs.satisfied() ==> anchored.satisfied() && forall|k: int|
                    0 <= k < i ==> input_slot_holds(#[trigger] slots[k], pk, sk, root),
                cs.honest() ==> cs.satisfied() == (anchored.satisfied() && forall|k: int|
                    0 <= k < i ==> input_slot_holds(#[trigger] slots[k], pk, sk, root)),
                cs.honest() ==> forall|k: int|
                    0 <= k < i ==> #[trigger] slots[k] == given_input(
                        self.input_coins@,
                        self.own_nullifier_nonmembership@,
                        k,
                    ),
                cs.honest() ==> sum_of(input_counts(slots)) == active_total(
                    self.input_coins@,
                    i as nat,
                ),
                constraints::reliable(*cs) ==> forall|k: int|
                    0 <= k < i ==> gadgets::parts_in_range((#[trigger] slots[k]).coin),
                constraints::reliable(*cs) ==> B::fp(total_in) == sum_of(input_counts(slots)),
            decreases MAX_INPUTS - i,
        {
            let (_, value, slot) = enforce_input(
                cs,
                &publics,
                &sk_folded,
                &self.input_coins[i],
                &self.own_nullifier_nonmembership[i],
                &flags[i],
                Ghost(sk),
            );
            total_in = cs.plus(&total_in, &value);
            proof {
                let earlier = slots;
                slots = earlier.push(slot@);
                lemma_slot_added(earlier, slot@);
                assert(slots[i as int] == slot@);
                assert forall|k: int| 0 <= k < i implies slots[k] == earlier[k] by {}
                if constraints::reliable(*cs) {
                    assert forall|k: int| 0 <= k < slots.len() implies gadgets::parts_in_range(
                        (#[trigger] slots[k]).coin,
                    ) by {
                        if k < i {
                            assert(slots[k] == earlier[k]);
                        }
                    }
                    lemma_inputs_are_small(slots);
                    vstd::arithmetic::div_mod::lemma_small_mod(
                        sum_of(input_counts(slots)),
                        field::fr_modulus(),
                    );
                }
            }
            i += 1;
        }
        let (total_out, outputs) = enforce_outputs(
            cs,
            &self.output_coins,
            &publics.output_commitments,
        );
        cs.enforce_equal(&total_in, &total_out);
        proof {
            let values = publics.values();
            let commitments = constraints::fp_values::<B>(publics.output_commitments@);
            assert(values.len() == 6 && values[0] == pk.0 && values[1] == pk.1);
            assert(values[4] == B::fp(publics.board_root) && values[5] == root);
            assert(values[2] == commitments[0] && values[3] == commitments[1]);
            if cs.satisfied() {
                let w = SpendWitness {
                    sk,
                    position: anchor@.0,
                    path: anchor@.1,
                    inputs: slots,
                    outputs: outputs@,
                    receipts: Seq::empty(),
                };
                assert forall|j: int| 0 <= j < MAX_OUTPUTS implies {
                    &&& gadgets::parts_in_range((#[trigger] w.outputs[j]).coin)
                    &&& output_slot_holds(w.outputs[j], values[2 + j])
                } by {
                    assert(values[2 + j] == commitments[j]);
                }
                assert(spend_holds(values, w));
                assert(genesis_holds(values, w));
                assert(is_genesis_statement(values));
            }
            if old(cs).honest() {
                lemma_slots_agree(
                    slots,
                    outputs@,
                    self.input_coins@,
                    self.own_nullifier_nonmembership@,
                    self.output_coins@,
                    commitments,
                    pk,
                    sk,
                    root,
                );
            }
        }
        Ok(())
    }

    /// The public inputs, in the order in which the constraints allocate them.
    pub fn public_inputs(
        pk_p: OwnerPk,
        output_commitments: [Fr; MAX_OUTPUTS],
        board_root: Fr,
        current_nullifier_root: Fr,
    ) -> (r: Vec<Fr>)
        ensures
            field::fr_values(r@) == spend_publics(
                pk_p@,
                field::fr_values(output_commitments@),
                board_root@,
                current_nullifier_root@,
            ),
            r@.len() == SPEND_PUBLIC_INPUT_COUNT,
    {
        let (x, y) = owner_pk_to_field_pair(&pk_p);
        let mut out: Vec<Fr> = Vec::new();
        out.push(x);
        out.push(y);
        out.push(output_commitments[0]);
        out.push(output_commitments[1]);
        out.push(board_root);
        out.push(current_nullifier_root);
        assert(field::fr_values(out@) =~= spend_publics(
            pk_p@,
            field::fr_values(output_commitments@),
            board_root@,
            current_nullifier_root@,
        ));
        out
    }
}

/// Verify a proof of a genesis mint.
pub fn verify(vk: &[u8], public_inputs: &[Fr], snark: &[u8]) -> (r: Result<bool, SynthesisError>)
    ensures
        r == groth16::mnt4_outcome(vk@, field::fr_values(public_inputs@), snark@),
{
    mnt4_verify(vk, public_inputs, snark)
}

/// Verify a proof of a spend that is no genesis mint.
pub fn verify_non_genesis(vk: &[u8], public_inputs: &[Fr], snark: &[u8]) -> (r: Result<
    bool,
    SynthesisError,
>)
    ensures
        r == groth16::mnt4_outcome(vk@, field::fr_values(public_inputs@), snark@),
{
    mnt4_verify(vk, public_inputs, snark)
}


/// The coordinates of the generator of MNT6-753's second group that its encoding shows: the
/// three parts of the first one, and the top part of the second one, which decides its sign.
pub open spec fn second_group_generator() -> (nat, nat, nat, nat) {
    (
        27250797394340459586637772414334383652934225310678303542554641987990991970766156209996739240400887081904395745019996048910447071686918567661896491214767494514394154061111870331668445455228882471000120574964265209669155206168252nat,
        35762481056967998715733586393399457882827322353696313323665483142561285210083843314423554450886956650265947502285422529615273790981238406393402603210224104850580302463396274854098657541573494421834514772635884262388058080180368nat,
        36955296703808958167583270646821654948157955258947892285629161090141878438357164213613114995903637211606408001037026832604054121847388692538440756596264746452765613740820430501353237866984394057660379098674983614861254438847846nat,
        21014872727619291834131369222699267167761185012487859171850226473555446863681002782100371394603357586906967186931035615146288030444598977758226767063525819170917389755555854704165900869058188909090444447822088242504281789869689nat,
    )
}

/// The encoding of the proof whose three points are the generators of their groups.
pub open spec fn dummy_encoding() -> Seq<u8> {
    let g = second_group_generator();
    let first = codec::point_encoding(Some(keys::curve_generator()));
    first + (codec::fr_encoding(g.0) + codec::fr_encoding(g.1) + codec::point_encoding(
        Some((g.2, g.3)),
    )) + first
}

/// `G1Projective::generator` and `G2Projective::generator` of `ark-mnt6-753`, put together to
/// a proof and written by `serialize_compressed`.
#[verifier::external_body]
fn generator_proof() -> (r: Vec<u8>)
    ensures
        r@ == dummy_encoding(),
{
    let a = ark_mnt6_753::G1Projective::generator().into_affine();
    let b = ark_mnt6_753::G2Projective::generator().into_affine();
    let snark = ark_groth16::Proof::<ark_mnt6_753::MNT6_753> { a, b, c: a };
    let mut out: Vec<u8> = Vec::new();
    snark.serialize_compressed(&mut out).unwrap();
    out
}

/// The pieces of a slot's receipt; a slot without one is filled with zeros.
pub open spec fn receipt_chunks(receipt: Option<[Fr; RECEIPT_PUBLIC_INPUT_COUNT]>) -> Seq<nat> {
    match receipt {
        Some(values) => circuit_wrap::chunks_of(field::fr_values(values@)),
        None => Seq::new(20, |i: int| 0nat),
    }
}

/// The `k`-th public value of a slot's receipt.
pub open spec fn receipt_value(receipt: Option<[Fr; RECEIPT_PUBLIC_INPUT_COUNT]>, k: int) -> nat {
    match receipt {
        Some(values) => values@[k]@,
        None => 0,
    }
}

/// The bytes of a slot's receipt proof.
pub open spec fn receipt_proof(snark: Option<Vec<u8>>) -> Seq<u8> {
    match snark {
        Some(bytes) => bytes@,
        None => dummy_encoding(),
    }
}

/// An active input has a receipt whose proof verifies, for this owner and this coin.
pub open spec fn receipt_holds(
    coins: Seq<Option<Coin>>,
    wrap_vk: Seq<u8>,
    proofs: Seq<Option<Vec<u8>>>,
    receipts: Seq<Option<[Fr; RECEIPT_PUBLIC_INPUT_COUNT]>>,
    pk: (nat, nat),
    i: int,
) -> bool {
    slot_active(coins, i) ==> {
        &&& groth16::mnt6_outcome(wrap_vk, receipt_chunks(receipts[i]), receipt_proof(proofs[i]))
            == Ok::<bool, SynthesisError>(true)
        &&& (receipt_value(receipts[i], 0), receipt_value(receipts[i], 1)) == pk
        &&& receipt_value(receipts[i], 2) == gadgets::slot_commitment(coins[i])
    }
}

/// The pieces of a receipt's public values as scalars; zeros where there is no receipt.
fn native_chunks(receipt: &Option<[Fr; RECEIPT_PUBLIC_INPUT_COUNT]>) -> (r: Vec<OwnerScalar>)
    ensures
        groth16::owner_values(r@) == receipt_chunks(*receipt),
        r@.len() == 20,
{
    match receipt {
        Some(values) => {
            let r = public_input_chunks(values);
            assert(groth16::owner_values(r@).len() == 20);
            r
        },
        None => {
            let mut out: Vec<OwnerScalar> = Vec::new();
            let mut i: usize = 0;
            while i < 20
                invariant
                    i <= 20,
                    out@.len() == i,
                    forall|j: int| 0 <= j < i ==> (#[trigger] out@[j])@ == 0,
                decreases 20 - i,
            {
                out.push(OwnerScalar::from(0u64));
                i += 1;
            }
            assert(groth16::owner_values(out@) =~= receipt_chunks(*receipt));
            out
        },
    }
}

/// Witnesses for the bits of scalars.
pub(crate) fn alloc_scalar_bits<B: ConstraintBackend>(cs: &mut B, scalars: &Option<
    Vec<OwnerScalar>,
>, count: usize) -> (r: Vec<Vec<B::Bit>>)
    requires
        old(cs).assigns() ==> scalars is Some,
        scalars matches Some(list) ==> list@.len() == count,
    ensures
        constraints::undisturbed(*old(cs), *final(cs)),
        final(cs).shape() == circuit_wrap::value_bits_shape(old(cs).shape(), count as nat),
        r@.len() == count,
        forall|i: int| 0 <= i < count ==> (#[trigger] r@[i])@.len() == FIELD_BITS,
        final(cs).honest() && final(cs).assigns() ==> constraints::numbers::<B>(r@)
            == groth16::owner_values(scalars->0@),
        final(cs).honest() && final(cs).assigns() ==> forall|i: int|
            0 <= i < count ==> constraints::number::<B>((#[trigger] r@[i])@)
                < field::owner_modulus(),
{
    let mut out: Vec<Vec<B::Bit>> = Vec::new();
    let mut i: usize = 0;
    while i < count
        invariant
            constraints::undisturbed(*old(cs), *cs),
            cs.shape() == circuit_wrap::value_bits_shape(old(cs).shape(), i as nat),
            i <= count,
            out@.len() == i,
            old(cs).assigns() ==> scalars is Some,
            scalars matches Some(list) ==> list@.len() == count,
            forall|j: int| 0 <= j < i ==> (#[trigger] out@[j])@.len() == FIELD_BITS,
            cs.honest() && cs.assigns() ==> forall|j: int|
                0 <= j < i ==> constraints::number::<B>((#[trigger] out@[j])@)
                    == scalars->0@[j]@ && scalars->0@[j]@ < field::owner_modulus(),
        decreases count - i,
    {
        let native: Option<Vec<bool>> = match scalars {
            Some(list) => {
                let s = list[i];
                proof {
                    use_type_invariant(&s);
                    constraints::lemma_moduli_below_753_bits();
                    assert(scalars->0@[i as int]@ < field::owner_modulus());
                }
                Some(canonical_bits(s.to_limbs()))
            },
            None => None,
        };
        let bits = alloc_bits(cs, &native);
        let ghost earlier = out@;
        out.push(bits);
        proof {
            if cs.honest() && cs.assigns() {
                assert(constraints::number::<B>(bits@) == scalars->0@[i as int]@);
                assert forall|j: int| 0 <= j < i + 1 implies constraints::number::<B>(
                    (#[trigger] out@[j])@,
                ) == scalars->0@[j]@ && scalars->0@[j]@ < field::owner_modulus() by {
                    if j < i {
                        assert(out@[j] == earlier[j]);
                        assert(constraints::number::<B>(earlier[j]@) == scalars->0@[j]@);
                    } else {
                        assert(out@[j] == bits);
                    }
                }
            }
        }
        i += 1;
    }
    proof {
        if cs.honest() && cs.assigns() {
            assert(constraints::numbers::<B>(out@) =~= groth16::owner_values(scalars->0@));
        }
    }
    out
}

/// The bits of pieces write numbers of 753 bits.
pub(crate) proof fn lemma_pieces_bounded<B: ConstraintBackend>(lists: Seq<Vec<B::Bit>>)
    requires
        forall|i: int| 0 <= i < lists.len() ==> (#[trigger] lists[i])@.len() == FIELD_BITS,
    ensures
        pieces_bounded(constraints::numbers::<B>(lists)),
{
    let pieces = constraints::numbers::<B>(lists);
    assert forall|i: int| 0 <= i < pieces.len() implies #[trigger] pieces[i] < pow2(753) by {
        let bits = constraints::bit_values::<B>(lists[i]@);
        assert(bits.len() == 753);
        poseidon::lemma_bits_value_bound(bits);
    }
}

/// Numbers of 753 bits.
pub open spec fn pieces_bounded(pieces: Seq<nat>) -> bool {
    forall|i: int| 0 <= i < pieces.len() ==> #[trigger] pieces[i] < pow2(753)
}

/// The `k`-th public value that is recovered from pieces: the 200 low bits of its four pieces
/// are joined.
pub open spec fn recovered(pieces: Seq<nat>, k: int) -> nat {
    circuit_wrap::joined(
        seq![
            pieces[4 * k] % pow2(200),
            pieces[4 * k + 1] % pow2(200),
            pieces[4 * k + 2] % pow2(200),
            pieces[4 * k + 3] % pow2(200),
        ],
    )
}

/// From the pieces of numbers the numbers are recovered, as field elements.
pub proof fn values_are_recovered(values: Seq<nat>, k: int)
    requires
        0 <= k < values.len(),
        values[k] < pow2(753),
    ensures
        recovered(circuit_wrap::chunks_of(values), k) == values[k] % field::fr_modulus(),
        values[k] < field::fr_modulus() ==> recovered(circuit_wrap::chunks_of(values), k)
            == values[k],
{
    let pieces = circuit_wrap::chunks_of(values);
    let value = values[k];
    assert forall|d: int| 0 <= d < 4 implies #[trigger] pieces[4 * k + d] % pow2(200)
        == circuit_wrap::chunk_of(value, d as nat) by {
        let j = 4 * k + d;
        assert(j / 4 == k && j % 4 == d);
        circuit_wrap::lemma_chunk_is_small(value, d as nat);
        vstd::arithmetic::div_mod::lemma_small_mod(
            circuit_wrap::chunk_of(value, d as nat),
            pow2(200),
        );
    }
    assert(pieces[4 * k + 0] % pow2(200) == circuit_wrap::chunk_of(value, 0));
    assert(pieces[4 * k + 1] % pow2(200) == circuit_wrap::chunk_of(value, 1));
    assert(pieces[4 * k + 2] % pow2(200) == circuit_wrap::chunk_of(value, 2));
    assert(pieces[4 * k + 3] % pow2(200) == circuit_wrap::chunk_of(value, 3));
    circuit_wrap::joining_chunks_loses_nothing(value);
    if value < field::fr_modulus() {
        vstd::arithmetic::div_mod::lemma_small_mod(value, field::fr_modulus());
    }
}

/// Values pass through a wrap unchanged: where pieces below the scalar modulus are the public
/// inputs of a wrap, what is recovered from them is what the wrapped proof is for.
pub proof fn recovered_values_are_the_wrapped_ones(
    inner_vk: Seq<u8>,
    values: Seq<nat>,
    pieces: Seq<nat>,
    k: int,
)
    requires
        circuit_wrap::is_wrapped(
            inner_vk,
            values.len(),
            values,
            constraints::scalars_of(pieces),
        ),
        forall|j: int| 0 <= j < pieces.len() ==> #[trigger] pieces[j] < field::owner_modulus(),
        0 <= k < values.len(),
    ensures
        groth16::mnt4_provable(inner_vk, circuit_wrap::elements_of(values)),
        recovered(pieces, k) == circuit_wrap::elements_of(values)[k],
{
    let scalars = constraints::scalars_of(pieces);
    assert(scalars.len() == pieces.len());
    assert forall|j: int| 0 <= j < pieces.len() implies scalars[j] == pieces[j] by {
        vstd::arithmetic::div_mod::lemma_small_mod(pieces[j], field::owner_modulus());
    }
    assert(scalars =~= pieces);
    values_are_recovered(values, k);
}

/// The steps of [`recover_value`].
pub open spec fn recover_shape(s: Seq<Step>) -> Seq<Step> {
    circuit_wrap::combine_shape(s, seq![753nat, 753nat, 753nat, 753nat], 4)
}

/// Join the four pieces of the `k`-th public value.
pub(crate) fn recover_value<B: ConstraintBackend>(
    cs: &mut B,
    per_chunk_bits: &Vec<Vec<B::Bit>>,
    k: usize,
) -> (r: B::Fp)
    requires
        4 * k + 4 <= per_chunk_bits.len(),
        forall|i: int|
            0 <= i < per_chunk_bits@.len() ==> (#[trigger] per_chunk_bits@[i])@.len()
                == FIELD_BITS,
    ensures
        constraints::undisturbed(*old(cs), *final(cs)),
        final(cs).shape() == recover_shape(old(cs).shape()),
        constraints::reliable(*final(cs)) ==> B::fp(r) == recovered(
            constraints::numbers::<B>(per_chunk_bits@),
            k as int,
        ),
{
    let group = vstd::slice::slice_subrange(per_chunk_bits.as_slice(), 4 * k, 4 * k + 4);
    proof {
        let all = constraints::numbers::<B>(per_chunk_bits@);
        let low = circuit_wrap::low_numbers::<B>(group@);
        assert forall|d: int| 0 <= d < 4 implies #[trigger] low[d] == all[4 * k + d] % pow2(
            200,
        ) by {
            let bits = group@[d];
            assert(bits == per_chunk_bits@[4 * k + d]);
            let whole = constraints::bit_values::<B>(bits@);
            assert(constraints::bit_values::<B>(bits@.take(200)) =~= whole.subrange(0, 200));
            poseidon::lemma_bits_value_window(whole, 0, 200);
            vstd::arithmetic::power2::lemma2_to64();
            assert(field::bits_value(whole) / pow2(0) == field::bits_value(whole));
        }
        assert(low.len() == 4);
        assert(low[0] == all[4 * k + 0] % pow2(200));
        assert(low[1] == all[4 * k + 1] % pow2(200));
        assert(low[2] == all[4 * k + 2] % pow2(200));
        assert(low[3] == all[4 * k + 3] % pow2(200));
        assert(low =~= seq![
            all[4 * k + 0] % pow2(200),
            all[4 * k + 1] % pow2(200),
            all[4 * k + 2] % pow2(200),
            all[4 * k + 3] % pow2(200),
        ]);
        assert(circuit_wrap::lengths(group@) =~= seq![753nat, 753nat, 753nat, 753nat]);
    }
    combine_chunks_var(cs, group)
}

/// The spend relation for every spend that is no genesis mint: what [`GenesisSpendCircuit`]
/// constrains except for the genesis key, and for each active input the recursive
/// verification of a wrapped receipt, bound to this owner and this coin.
///
/// All inputs of one spend share the same key for their receipts.
#[derive(Clone, Debug)]
pub struct SpendStepCircuit {
    // Public values.
    pub pk_p: Option<OwnerPk>,
    pub output_commitments: Option<[Fr; MAX_OUTPUTS]>,
    pub board_root: Option<Fr>,
    pub current_nullifier_root: Option<Fr>,
    // Private witnesses.
    pub sk_p: Option<OwnerScalar>,
    pub input_coins: [Option<Coin>; MAX_INPUTS],
    pub output_coins: [Option<Coin>; MAX_OUTPUTS],
    pub entry_position: Option<u64>,
    /// One sibling for each level of the tree.
    pub append_path: Option<Vec<Fr>>,
    pub own_nullifier_nonmembership: [Option<NonMembershipWitness>; MAX_INPUTS],
    /// The key of the wrapped receipts, fixed for one use of the circuit.
    pub wrap_vk: Vec<u8>,
    /// One wrapped receipt proof per active input.
    pub input_receipt_proofs: [Option<Vec<u8>>; MAX_INPUTS],
    pub input_receipt_public_inputs: [Option<[Fr; RECEIPT_PUBLIC_INPUT_COUNT]>; MAX_INPUTS],
}

/// An active input has a receipt: there is a wrapped proof for its pieces, as scalars, and the
/// values that are recovered from the pieces name this owner and this coin. Nothing holds a
/// piece below the scalar modulus.
pub open spec fn receipt_slot_holds(
    wrap_vk: Seq<u8>,
    active: bool,
    pieces: Seq<nat>,
    pk: (nat, nat),
    commitment: nat,
) -> bool {
    active ==> {
        &&& groth16::mnt6_provable(wrap_vk, constraints::scalars_of(pieces))
        &&& (recovered(pieces, 0), recovered(pieces, 1)) == pk
        &&& recovered(pieces, 2) == commitment
    }
}

/// The spend relation of a spend that is no genesis mint: each active input has a receipt.
pub open spec fn step_holds(wrap_vk: Seq<u8>, publics: Seq<nat>, w: SpendWitness) -> bool {
    &&& spend_holds(publics, w)
    &&& w.receipts.len() == MAX_INPUTS
    &&& forall|i: int|
        0 <= i < MAX_INPUTS ==> {
            &&& (#[trigger] w.receipts[i]).len() == 20
            &&& pieces_bounded(w.receipts[i])
            &&& receipt_slot_holds(
                wrap_vk,
                w.inputs[i].active,
                w.receipts[i],
                (publics[0], publics[1]),
                gadgets::parts_commitment(w.inputs[i].coin),
            )
        }
}

/// What a satisfied spend circuit tells of its public inputs, whoever made the assignment.
pub open spec fn is_spend_statement(wrap_vk: Seq<u8>, publics: Seq<nat>) -> bool {
    exists|w: SpendWitness| #[trigger] step_holds(wrap_vk, publics, w)
}

/// The steps of [`enforce_receipt`].
pub open spec fn receipt_shape(s: Seq<Step>, wrap_vk: Seq<u8>) -> Seq<Step> {
    let verified = gadgets::gate_shape(
        circuit_wrap::value_bits_shape(s, 20).push(Step::ProofVerifies(wrap_vk, 20)),
    ).push(Step::EnforceTrue);
    let joined = recover_shape(recover_shape(recover_shape(verified)));
    gadgets::gate_shape(
        joined.push(Step::IsEqual).push(Step::IsEqual).push(Step::And).push(Step::IsEqual).push(
            Step::And,
        ),
    ).push(Step::EnforceTrue)
}

/// Constrain one input's receipt: an active one has a proof that verifies, and it is for
/// this owner and this coin. Returns the numbers that the bits of its pieces write.
fn enforce_receipt<B: ConstraintBackend>(
    cs: &mut B,
    publics: &SpendPublicVars<B>,
    commitment: &B::Fp,
    wrap_vk: &Vec<u8>,
    snark: &Option<Vec<u8>>,
    receipt: &Option<[Fr; RECEIPT_PUBLIC_INPUT_COUNT]>,
    active: &B::Bit,
) -> (r: Ghost<Seq<nat>>)
    requires
        old(cs).honest() ==> old(cs).assigns(),
    ensures
        constraints::keeps_mode(*old(cs), *final(cs)),
        final(cs).shape() == receipt_shape(old(cs).shape(), wrap_vk@),
        final(cs).inputs() == old(cs).inputs(),
        r@.len() == 20,
        pieces_bounded(r@),
        final(cs).satisfied() ==> old(cs).satisfied() && receipt_slot_holds(
            wrap_vk@,
            B::bit(*active),
            r@,
            publics.pk(),
            B::fp(*commitment),
        ),
        old(cs).honest() ==> final(cs).satisfied() == (old(cs).satisfied() && (B::bit(
            *active,
        ) ==> {
            &&& groth16::mnt6_outcome(wrap_vk@, receipt_chunks(*receipt), receipt_proof(*snark))
                == Ok::<bool, SynthesisError>(true)
            &&& (receipt_value(*receipt, 0), receipt_value(*receipt, 1)) == publics.pk()
            &&& receipt_value(*receipt, 2) == B::fp(*commitment)
        })),
{
    let chunks: Option<Vec<OwnerScalar>> = Some(native_chunks(receipt));
    let per_chunk_bits = alloc_scalar_bits(cs, &chunks, 20);
    let ghost pieces = constraints::numbers::<B>(per_chunk_bits@);
    let filler: Vec<u8>;
    let snark_bytes: &Vec<u8> = match snark {
        Some(bytes) => bytes,
        None => {
            filler = SpendStepCircuit::dummy_wrap_proof();
            &filler
        },
    };
    let accepted = cs.proof_verifies(wrap_vk, &per_chunk_bits, snark_bytes);
    let accepted_gate = gate(cs, &accepted, active);
    cs.enforce_true(&accepted_gate);

    let receipt_x = recover_value(cs, &per_chunk_bits, RECEIPT_OWNER_PK_X);
    let receipt_y = recover_value(cs, &per_chunk_bits, RECEIPT_OWNER_PK_Y);
    let receipt_coin = recover_value(cs, &per_chunk_bits, RECEIPT_COIN_COMMITMENT);
    let x_ok = cs.is_eq(&receipt_x, &publics.pk_x);
    let y_ok = cs.is_eq(&receipt_y, &publics.pk_y);
    let owner_ok = cs.and(&x_ok, &y_ok);
    let coin_ok = cs.is_eq(&receipt_coin, commitment);
    let binding_ok = cs.and(&owner_ok, &coin_ok);
    let binding_gate = gate(cs, &binding_ok, active);
    cs.enforce_true(&binding_gate);
    let (first, second, third) = match receipt {
        Some(values) => (values[0], values[1], values[2]),
        None => (Fr::from(0u64), Fr::from(0u64), Fr::from(0u64)),
    };
    proof {
        lemma_pieces_bounded::<B>(per_chunk_bits@);
        use_type_invariant(&first);
        use_type_invariant(&second);
        use_type_invariant(&third);
        if cs.honest() && cs.assigns() {
            assert(pieces == receipt_chunks(*receipt));
            lemma_receipt_recovered(*receipt, 0);
            lemma_receipt_recovered(*receipt, 1);
            lemma_receipt_recovered(*receipt, 2);
        }
    }
    Ghost(pieces)
}

/// From the pieces of a slot's receipt its values are recovered.
proof fn lemma_receipt_recovered(receipt: Option<[Fr; RECEIPT_PUBLIC_INPUT_COUNT]>, k: int)
    requires
        0 <= k < 5,
        receipt_value(receipt, k) < field::fr_modulus(),
    ensures
        recovered(receipt_chunks(receipt), k) == receipt_value(receipt, k),
{
    match receipt {
        Some(values) => {
            constraints::lemma_moduli_below_753_bits();
            values_are_recovered(field::fr_values(values@), k);
        },
        None => {
            let zeros = seq![0nat, 0nat, 0nat, 0nat, 0nat];
            let pieces = circuit_wrap::chunks_of(zeros);
            assert forall|j: int| 0 <= j < 20 implies #[trigger] pieces[j] == 0 by {
                lemma_zero_has_zero_chunks((j % 4) as nat);
            }
            assert(pieces =~= receipt_chunks(receipt));
            constraints::lemma_moduli_below_753_bits();
            values_are_recovered(zeros, k);
        },
    }
}

/// Every piece of zero is zero.
proof fn lemma_zero_has_zero_chunks(d: nat)
    ensures
        circuit_wrap::chunk_of(0, d) == 0,
{
    vstd::arithmetic::power2::lemma_pow2_pos(200 * d);
    vstd::arithmetic::power2::lemma_pow2_pos(200);
    vstd::arithmetic::div_mod::lemma_div_basics(pow2(200 * d) as int);
    vstd::arithmetic::div_mod::lemma_small_mod(0, pow2(200));
}

/// The steps of the first `n` input slots of a spend that is no genesis mint.
pub open spec fn spend_inputs_shape(s: Seq<Step>, wrap_vk: Seq<u8>, n: nat) -> Seq<Step>
    decreases n,
{
    if n == 0 {
        gadgets::flags_shape(s, MAX_INPUTS as nat).push(Step::Constant(0))
    } else {
        receipt_shape(input_shape(spend_inputs_shape(s, wrap_vk, (n - 1) as nat)), wrap_vk).push(
            Step::Plus,
        )
    }
}

/// The steps of the spend circuit. They depend on the fixed key for receipts alone.
pub open spec fn spend_shape(s: Seq<Step>, wrap_vk: Seq<u8>) -> Seq<Step> {
    let key = gadgets::key_shape(
        gadgets::repeated(publics_shape(s), Step::WitnessBit, FIELD_BITS as nat),
    );
    let anchored = anchor_shape(gadgets::fold_shape(key, FIELD_BITS as nat));
    outputs_shape(
        spend_inputs_shape(anchored, wrap_vk, MAX_INPUTS as nat),
        MAX_OUTPUTS as nat,
    ).push(Step::EnforceEqual)
}

impl SpendStepCircuit {
    /// Every value is there that a proof or an evaluation needs.
    pub open spec fn is_complete(&self) -> bool {
        &&& self.pk_p is Some
        &&& self.output_commitments is Some
        &&& self.board_root is Some
        &&& self.current_nullifier_root is Some
        &&& self.sk_p is Some
        &&& self.entry_position is Some
        &&& self.append_path is Some
    }

    /// What the circuit constrains.
    pub open spec fn relation(&self) -> bool {
        let pk = keys::coordinates(self.pk_p->0@);
        let sk = self.sk_p->0@;
        let root = self.current_nullifier_root->0@;
        // The key is the one of the secret.
        &&& keys::coordinates(keys::owner_point(sk)) == pk
        // The board root is the one before the spend is posted.
        &&& merkle::path_root(
            0,
            self.entry_position->0 as nat,
            field::fr_values(self.append_path->0@).take(32),
        ) == self.board_root->0@
        // Inputs with their receipts, and outputs.
        &&& forall|i: int| 0 <= i < MAX_INPUTS ==> #[trigger] self.input_is_backed(i)
        &&& forall|j: int|
            0 <= j < MAX_OUTPUTS ==> #[trigger] output_holds(
                self.output_coins@,
                field::fr_values(self.output_commitments->0@),
                j,
            )
        // Values are conserved.
        &&& active_total(self.input_coins@, MAX_INPUTS as nat) == active_total(
            self.output_coins@,
            MAX_OUTPUTS as nat,
        )
    }

    /// An active input belongs to the spender, is unspent, and has a receipt.
    pub open spec fn input_is_backed(&self, i: int) -> bool {
        &&& input_holds(
            self.input_coins@,
            self.own_nullifier_nonmembership@,
            keys::coordinates(self.pk_p->0@),
            self.sk_p->0@,
            self.current_nullifier_root->0@,
            i,
        )
        &&& receipt_holds(
            self.input_coins@,
            self.wrap_vk@,
            self.input_receipt_proofs@,
            self.input_receipt_public_inputs@,
            keys::coordinates(self.pk_p->0@),
            i,
        )
    }

    /// Whether every value is there that a proof or an evaluation needs.
    fn has_all_values(&self) -> (r: bool)
        ensures
            r == self.is_complete(),
    {
        self.pk_p.is_some() && self.output_commitments.is_some() && self.board_root.is_some()
            && self.current_nullifier_root.is_some() && self.sk_p.is_some()
            && self.entry_position.is_some() && self.append_path.is_some()
    }

    /// Put the circuit's constraints into a constraint system.
    ///
    /// The public inputs of any assignment that satisfies the constraints make a spend
    /// statement. The honest assignment satisfies them if and only if the relation holds of the
    /// given values. The steps that are recorded are the same with values and without.
    pub fn generate_constraints<B: ConstraintBackend>(self, cs: &mut B) -> (r: Result<
        (),
        SynthesisError,
    >)
        requires
            old(cs).assigns() ==> paths_reach_root(
                self.append_path,
                self.own_nullifier_nonmembership@,
            ),
        ensures
            r is Ok == (old(cs).assigns() ==> self.is_complete()),
            r is Err ==> r->Err_0 == SynthesisError::AssignmentMissing && *final(cs) == *old(cs),
            constraints::keeps_mode(*old(cs), *final(cs)),
            r is Ok ==> final(cs).shape() == spend_shape(old(cs).shape(), self.wrap_vk@),
            r is Ok && final(cs).satisfied() ==> old(cs).satisfied() && exists|publics: Seq<nat>|
                final(cs).inputs() == old(cs).inputs() + publics && #[trigger] is_spend_statement(
                    self.wrap_vk@,
                    publics,
                ),
            r is Ok && old(cs).honest() ==> final(cs).satisfied() == (old(cs).satisfied()
                && self.relation()),
            r is Ok && old(cs).honest() ==> final(cs).inputs() == old(cs).inputs()
                + spend_publics(
                self.pk_p->0@,
                field::fr_values(self.output_commitments->0@),
                self.board_root->0@,
                self.current_nullifier_root->0@,
            ),
    {
        if cs.assigns_values() && !self.has_all_values() {
            return Err(SynthesisError::AssignmentMissing);
        }
        let publics = alloc_spend_publics(
            cs,
            &self.pk_p,
            &self.output_commitments,
            &self.board_root,
            &self.current_nullifier_root,
        );
        let ghost pk = publics.pk();
        let ghost root = B::fp(publics.nullifier_root);
        let ghost all_publics = cs.inputs();

        let sk_bits = alloc_secret(cs, &self.sk_p);
        let ghost sk = constraints::number::<B>(sk_bits@);
        enforce_key(cs, &sk_bits, &publics.pk_x, &publics.pk_y);
        let sk_folded = fold_secret(cs, &sk_bits);
        let anchor = enforce_anchor(
            cs,
            &self.entry_position,
            &self.append_path,
            &publics.board_root,
        );
        let ghost anchored = *cs;

        let flags = alloc_slot_flags(cs, &self.input_coins);
        let mut total_in = cs.constant(Fr::from(0u64));
        let ghost mut slots: Seq<InputSlot> = Seq::empty();
        let ghost mut receipts: Seq<Seq<nat>> = Seq::empty();
        let mut i: usize = 0;
        assert(input_counts(slots).len() == 0);
        while i < MAX_INPUTS
            invariant
                i <= MAX_INPUTS,
                flags@.len() == MAX_INPUTS,
                B::bit(flags@[0]),
                constraints::keeps_mode(*old(cs), *cs),
                constraints::keeps_mode(anchored, *cs),
                cs.shape() == spend_inputs_shape(anchored.shape(), self.wrap_vk@, i as nat),
                cs.inputs() == all_publics,
                old(cs).honest() ==> old(cs).assigns(),
                old(cs).assigns() ==> paths_reach_root(
                    self.append_path,
                    self.own_nullifier_nonmembership@,
                ),
                pk == publics.pk(),
                root == B::fp(publics.nullifier_root),
                constraints::reliable(anchored) ==> B::fp(sk_folded) == poseidon::folded_scalar(
                    sk,
                ),
                old(cs).honest() ==> pk == keys::coordinates(self.pk_p->0@) && sk
                    == self.sk_p->0@ && root == self.current_nullifier_root->0@,
                cs.honest() ==> forall|k: int|
                    0 <= k < MAX_INPUTS ==> B::bit(#[trigger] flags@[k]) == slot_active(
                        self.input_coins@,
                        k,
                    ),
                slots.len() == i,
                receipts.len() == i,
                forall|k: int|
                    0 <= k < i ==> (#[trigger] slots[k]).active == B::bit(flags@[k])
                        && gadgets::witness_in_field(slots[k].absence),
                forall|k: int|
                    0 <= k < i ==> (#[trigger] receipts[k]).len() == 20 && pieces_bounded(
                        receipts[k],
                    ),
                cs.satisfied() ==> anchored.satisfied(),
                cs.satisfied() ==> forall|k: int|
                    0 <= k < i ==> input_slot_holds(#[trigger] slots[k], pk, sk, root),
                cs.satisfied() ==> forall|k: int|
                    0 <= k < i ==> receipt_slot_holds(
                        self.wrap_vk@,
                        slots[k].active,
                        #[trigger] receipts[k],
                        pk,
                        gadgets::parts_commitment(slots[k].coin),
                    ),
                cs.honest() ==> cs.satisfied() == (anchored.satisfied() && forall|k: int|
                    0 <= k < i ==> #[trigger] self.input_is_backed(k)),
                cs.honest() ==> forall|k: int|
                    0 <= k < i ==> #[trigger] slots[k] == given_input(
                        self.input_coins@,
                        self.own_nullifier_nonmembership@,
                        k,
                    ),
                cs.honest() ==> sum_of(input_counts(slots)) == active_total(
                    self.input_coins@,
                    i as nat,
                ),
                constraints::reliable(*cs) ==> forall|k: int|
                    0 <= k < i ==> gadgets::parts_in_range((#[trigger] slots[k]).coin),
                constraints::reliable(*cs) ==> B::fp(total_in) == sum_of(input_counts(slots)),
            decreases MAX_INPUTS - i,
        {
            let ghost before = *cs;
            let (commitment, value, slot) = enforce_input(
                cs,
                &publics,
                &sk_folded,
                &self.input_coins[i],
                &self.own_nullifier_nonmembership[i],
                &flags[i],
                Ghost(sk),
            );
            let pieces = enforce_receipt(
                cs,
                &publics,
                &commitment,
                &self.wrap_vk,
                &self.input_receipt_proofs[i],
                &self.input_receipt_public_inputs[i],
                &flags[i],
            );
            total_in = cs.plus(&total_in, &value);
            proof {
                let earlier = slots;
                let earlier_receipts = receipts;
                slots = earlier.push(slot@);
                receipts = earlier_receipts.push(pieces@);
                lemma_slot_added(earlier, slot@);
                assert(slots[i as int] == slot@);
                assert(receipts[i as int] == pieces@);
                assert forall|k: int| 0 <= k < i implies slots[k] == earlier[k] by {}
                assert forall|k: int| 0 <= k < i implies receipts[k] == earlier_receipts[k] by {}
                if constraints::reliable(*cs) {
                    assert forall|k: int| 0 <= k < slots.len() implies gadgets::parts_in_range(
                        (#[trigger] slots[k]).coin,
                    ) by {
                        if k < i {
                            assert(slots[k] == earlier[k]);
                        }
                    }
                    lemma_inputs_are_small(slots);
                    vstd::arithmetic::div_mod::lemma_small_mod(
                        sum_of(input_counts(slots)),
                        field::fr_modulus(),
                    );
                }
                if cs.honest() {
                    assert(slot@ == given_input(
                        self.input_coins@,
                        self.own_nullifier_nonmembership@,
                        i as int,
                    ));
                    assert(cs.satisfied() == (before.satisfied() && self.input_is_backed(
                        i as int,
                    )));
                }
            }
            i += 1;
        }
        let (total_out, outputs) = enforce_outputs(
            cs,
            &self.output_coins,
            &publics.output_commitments,
        );
        cs.enforce_equal(&total_in, &total_out);
        proof {
            let values = publics.values();
            let commitments = constraints::fp_values::<B>(publics.output_commitments@);
            assert(values.len() == 6 && values[0] == pk.0 && values[1] == pk.1);
            assert(values[4] == B::fp(publics.board_root) && values[5] == root);
            assert(values[2] == commitments[0] && values[3] == commitments[1]);
            if cs.satisfied() {
                let w = SpendWitness {
                    sk,
                    position: anchor@.0,
                    path: anchor@.1,
                    inputs: slots,
                    outputs: outputs@,
                    receipts,
                };
                assert forall|j: int| 0 <= j < MAX_OUTPUTS implies {
                    &&& gadgets::parts_in_range((#[trigger] w.outputs[j]).coin)
                    &&& output_slot_holds(w.outputs[j], values[2 + j])
                } by {
                    assert(values[2 + j] == commitments[j]);
                }
                assert(spend_holds(values, w));
                assert(step_holds(self.wrap_vk@, values, w));
                assert(is_spend_statement(self.wrap_vk@, values));
            }
            if old(cs).honest() {
                lemma_slots_agree(
                    slots,
                    outputs@,
                    self.input_coins@,
                    self.own_nullifier_nonmembership@,
                    self.output_coins@,
                    commitments,
                    pk,
                    sk,
                    root,
                );
            }
        }
        Ok(())
    }

    /// The public inputs, in the same order as those of [`GenesisSpendCircuit`].
    pub fn public_inputs(
        pk_p: OwnerPk,
        output_commitments: [Fr; MAX_OUTPUTS],
        board_root: Fr,
        current_nullifier_root: Fr,
    ) -> (r: Vec<Fr>)
        ensures
            field::fr_values(r@) == spend_publics(
                pk_p@,
                field::fr_values(output_commitments@),
                board_root@,
                current_nullifier_root@,
            ),
            r@.len() == SPEND_PUBLIC_INPUT_COUNT,
    {
        GenesisSpendCircuit::public_inputs(
            pk_p,
            output_commitments,
            board_root,
            current_nullifier_root,
        )
    }

    /// A proof in form that proves nothing. It fills the slot of an unused input, where the
    /// pairing must be defined but need not hold; at the identity it might not be defined.
    pub fn dummy_wrap_proof() -> (r: Vec<u8>)
        ensures
            r@ == dummy_encoding(),
    {
        generator_proof()
    }

    /// The circuit without any values, for its shape under the given key for receipts.
    pub fn without_values(wrap_vk: Vec<u8>) -> (r: SpendStepCircuit)
        ensures
            r.pk_p is None,
            r.output_commitments is None,
            r.board_root is None,
            r.current_nullifier_root is None,
            r.sk_p is None,
            r.input_coins@ == seq![None::<Coin>, None::<Coin>],
            r.output_coins@ == seq![None::<Coin>, None::<Coin>],
            r.entry_position is None,
            r.append_path is None,
            r.own_nullifier_nonmembership@ == seq![
                None::<NonMembershipWitness>,
                None::<NonMembershipWitness>,
            ],
            r.wrap_vk == wrap_vk,
            r.input_receipt_proofs@.len() == MAX_INPUTS,
            forall|i: int|
                0 <= i < MAX_INPUTS ==> (#[trigger] r.input_receipt_proofs@[i]) is Some
                    && r.input_receipt_proofs@[i]->0@ == dummy_encoding(),
            r.input_receipt_public_inputs@ == seq![
                None::<[Fr; RECEIPT_PUBLIC_INPUT_COUNT]>,
                None::<[Fr; RECEIPT_PUBLIC_INPUT_COUNT]>,
            ],
    {
        let r = SpendStepCircuit {
            pk_p: None,
            output_commitments: None,
            board_root: None,
            current_nullifier_root: None,
            sk_p: None,
            input_coins: [None, None],
            output_coins: [None, None],
            entry_position: None,
            append_path: None,
            own_nullifier_nonmembership: [None, None],
            wrap_vk,
            input_receipt_proofs: [
                Some(SpendStepCircuit::dummy_wrap_proof()),
                Some(SpendStepCircuit::dummy_wrap_proof()),
            ],
            input_receipt_public_inputs: [None, None],
        };
        assert(r.input_coins@ =~= seq![None::<Coin>, None::<Coin>]);
        assert(r.output_coins@ =~= seq![None::<Coin>, None::<Coin>]);
        assert(r.own_nullifier_nonmembership@ =~= seq![
            None::<NonMembershipWitness>,
            None::<NonMembershipWitness>,
        ]);
        assert(r.input_receipt_public_inputs@ =~= seq![
            None::<[Fr; RECEIPT_PUBLIC_INPUT_COUNT]>,
            None::<[Fr; RECEIPT_PUBLIC_INPUT_COUNT]>,
        ]);
        r
    }
}

/// The coins of the active slots.
pub open spec fn active_coins(coins: Seq<Option<Coin>>) -> Seq<Coin> {
    if coins[1] is Some {
        seq![coins[0]->0, coins[1]->0]
    } else {
        seq![coins[0]->0]
    }
}

/// Coins are those of an assignment's slots: an active slot holds the coin at its place, and at
/// the place of an inactive one there is none.
pub open spec fn coins_of_slots(
    coins: Seq<Option<Coin>>,
    flags: Seq<bool>,
    parts: Seq<(nat, nat, nat, nat)>,
) -> bool {
    &&& coins.len() == 2
    &&& forall|i: int|
        0 <= i < 2 ==> ((#[trigger] coins[i]) is Some) == flags[i] && (coins[i] is Some
            ==> gadgets::slot_coin(coins[i]) == parts[i])
}

/// Coins are those of an assignment's input slots.
pub open spec fn coins_of_inputs(coins: Seq<Option<Coin>>, slots: Seq<InputSlot>) -> bool {
    coins_of_slots(
        coins,
        slots.map_values(|slot: InputSlot| slot.active),
        slots.map_values(|slot: InputSlot| slot.coin),
    )
}

/// Coins are those of an assignment's output slots.
pub open spec fn coins_of_outputs(coins: Seq<Option<Coin>>, slots: Seq<OutputSlot>) -> bool {
    coins_of_slots(
        coins,
        slots.map_values(|slot: OutputSlot| slot.active),
        slots.map_values(|slot: OutputSlot| slot.coin),
    )
}

/// The claim that an assignment to a circuit makes to the spend relation, for its first input.
pub open spec fn claim_of(
    publics: Seq<nat>,
    w: SpendWitness,
    owner: Option<(nat, nat)>,
    input_coins: Seq<Option<Coin>>,
    output_coins: Seq<Option<Coin>>,
    is_genesis: bool,
    coin_proof: Option<relations::ReceiptValuesView>,
) -> relations::SpendClaim {
    relations::SpendClaim {
        coin_proof_vkey: coin_proof->0.vkey,
        sk: w.sk,
        owner,
        coin_commitment: gadgets::parts_commitment(w.inputs[0].coin),
        inputs: coin::coin_commitments(active_coins(input_coins)),
        outputs: coin::coin_commitments(active_coins(output_coins)),
        input_coins: active_coins(input_coins),
        output_coins: active_coins(output_coins),
        is_genesis,
        coin_proof,
        nonmembership: w.inputs[0].absence,
        nullifier_root: publics[5],
    }
}

/// Points of the curve with the same coordinates are equal.
proof fn lemma_same_coordinates(a: Option<(nat, nat)>, b: Option<(nat, nat)>)
    requires
        keys::on_curve(a),
        keys::on_curve(b),
        keys::coordinates(a) == keys::coordinates(b),
    ensures
        a == b,
{
    keys::identity_pair_is_off_curve();
}

/// The sum over active slots is the sum over the active coins.
pub proof fn lemma_totals_agree(coins: Seq<Option<Coin>>)
    requires
        coins.len() == 2,
        coins[0] is Some,
    ensures
        active_total(coins, 2) == relations::total_value(active_coins(coins)),
{
    reveal_with_fuel(active_total, 3);
    reveal_with_fuel(relations::total_value, 3);
    let list = active_coins(coins);
    assert(list.drop_last().len() == list.len() - 1);
    if coins[1] is Some {
        assert(list.drop_last() =~= seq![coins[0]->0]);
        assert(list.drop_last().drop_last().len() == 0);
    }
}

/// What slots count for is what their coins sum up to.
proof fn lemma_counts_agree(
    coins: Seq<Option<Coin>>,
    flags: Seq<bool>,
    parts: Seq<(nat, nat, nat, nat)>,
    counts: Seq<nat>,
)
    requires
        flags.len() == 2,
        parts.len() == 2,
        counts.len() == 2,
        flags[0],
        coins_of_slots(coins, flags, parts),
        forall|i: int| 0 <= i < 2 ==> #[trigger] counts[i] == counted(flags[i], parts[i]),
    ensures
        sum_of(counts) == relations::total_value(active_coins(coins)),
{
    assert(coins[0] is Some && (coins[1] is Some) == flags[1]);
    lemma_totals_agree(coins);
    reveal_with_fuel(active_total, 3);
    reveal_with_fuel(sum_of, 3);
    assert(counts.drop_last().last() == counts[0]);
    assert(counts.drop_last().drop_last().len() == 0);
    assert(counts[0] == counted(flags[0], parts[0]));
    assert(counts[1] == counted(flags[1], parts[1]));
}

/// What holds of both circuits makes the inputs and outputs of the spend relation hold, and
/// fixes the public commitments of the active outputs.
proof fn lemma_slots_make_claim(
    publics: Seq<nat>,
    w: SpendWitness,
    owner: Option<(nat, nat)>,
    input_coins: Seq<Option<Coin>>,
    output_coins: Seq<Option<Coin>>,
    is_genesis: bool,
    coin_proof: Option<relations::ReceiptValuesView>,
)
    requires
        spend_holds(publics, w),
        coins_of_inputs(input_coins, w.inputs),
        coins_of_outputs(output_coins, w.outputs),
        keys::on_curve(owner),
        keys::on_curve(keys::owner_point(w.sk)),
        forall|i: int|
            0 <= i < 2 && (#[trigger] input_coins[i]) is Some ==> keys::on_curve(
                input_coins[i]->0.owner_pk@,
            ),
        keys::coordinates(owner) == (publics[0], publics[1]),
    ensures
        opens_outputs(output_coins, publics),
        ({
            let claim = claim_of(
                publics,
                w,
                owner,
                input_coins,
                output_coins,
                is_genesis,
                coin_proof,
            );
            relations::spend_failure(claim) == relations::provenance_failure(
                claim.coin_proof_vkey,
                claim.owner,
                claim.coin_commitment,
                claim.is_genesis,
                claim.coin_proof,
            )
        }),
{
    let claim = claim_of(publics, w, owner, input_coins, output_coins, is_genesis, coin_proof);
    let in_flags = w.inputs.map_values(|slot: InputSlot| slot.active);
    let in_parts = w.inputs.map_values(|slot: InputSlot| slot.coin);
    let out_flags = w.outputs.map_values(|slot: OutputSlot| slot.active);
    let out_parts = w.outputs.map_values(|slot: OutputSlot| slot.coin);
    lemma_same_coordinates(keys::owner_point(w.sk), owner);
    lemma_counts_agree(input_coins, in_flags, in_parts, input_counts(w.inputs));
    lemma_counts_agree(output_coins, out_flags, out_parts, output_counts(w.outputs));
    let pk = keys::coordinates(owner);
    assert(input_slot_holds(w.inputs[0], pk, w.sk, publics[5]));
    assert(input_slot_holds(w.inputs[1], pk, w.sk, publics[5]));
    assert(output_slot_holds(w.outputs[0], publics[2]));
    assert(output_slot_holds(w.outputs[1], publics[3]));
    assert(input_coins[0] is Some && gadgets::slot_coin(input_coins[0]) == in_parts[0]);
    assert(output_coins[0] is Some && gadgets::slot_coin(output_coins[0]) == out_parts[0]);
    lemma_same_coordinates(input_coins[0]->0.owner_pk@, owner);
    assert(claim.inputs[0] == claim.coin_commitment);
    reveal_with_fuel(relations::input_failure, 3);
    if input_coins[1] is Some {
        lemma_same_coordinates(input_coins[1]->0.owner_pk@, owner);
    }
    if output_coins[1] is Some {
        assert(gadgets::slot_coin(output_coins[1]) == out_parts[1]);
    }
}

/// The coins open the output commitments among a spend's public inputs.
pub open spec fn opens_outputs(output_coins: Seq<Option<Coin>>, publics: Seq<nat>) -> bool {
    forall|j: int|
        0 <= j < 2 && (#[trigger] output_coins[j]) is Some ==> coin::coin_commitment(
            output_coins[j]->0@,
        ) == publics[2 + j]
}

/// Every assignment that satisfies the genesis circuit makes a valid genesis spend: the spend
/// relation accepts it, with the coins of the active slots, and these open the public output
/// commitments.
pub proof fn genesis_circuit_enforces_spend_relation(
    publics: Seq<nat>,
    w: SpendWitness,
    owner: Option<(nat, nat)>,
    input_coins: Seq<Option<Coin>>,
    output_coins: Seq<Option<Coin>>,
)
    requires
        genesis_holds(publics, w),
        coins_of_inputs(input_coins, w.inputs),
        coins_of_outputs(output_coins, w.outputs),
        keys::coordinates(owner) == (publics[0], publics[1]),
        keys::on_curve(owner),
        keys::on_curve(keys::owner_point(w.sk)),
        keys::on_curve(keys::owner_point(1)),
        forall|i: int|
            0 <= i < MAX_INPUTS && (#[trigger] input_coins[i]) is Some ==> keys::on_curve(
                input_coins[i]->0.owner_pk@,
            ),
    ensures
        relations::spend_failure(
            claim_of(publics, w, owner, input_coins, output_coins, true, None),
        ) is None,
        opens_outputs(output_coins, publics),
        merkle::path_root(0, w.position, w.path) == publics[4],
{
    lemma_slots_make_claim(publics, w, owner, input_coins, output_coins, true, None);
    lemma_same_coordinates(owner, keys::owner_point(1));
}

/// What the first input's receipt tells of a coin, by the values that are recovered from its
/// pieces.
pub open spec fn receipt_claim(
    pieces: Seq<nat>,
    owner: Option<(nat, nat)>,
    vkey: Seq<u32>,
) -> relations::ReceiptValuesView {
    relations::ReceiptValuesView {
        vkey,
        owner_pk: owner,
        coin_commitment: recovered(pieces, 2),
        board_root: recovered(pieces, 3),
        received_at: recovered(pieces, 4),
    }
}

/// Every assignment that satisfies the spend circuit makes a valid spend: the spend relation
/// accepts it, with the coins of the active slots and with the first input's receipt as its
/// provenance. There is a wrapped proof for that receipt, and it names the spender.
pub proof fn spend_circuit_enforces_spend_relation(
    wrap_vk: Seq<u8>,
    publics: Seq<nat>,
    w: SpendWitness,
    owner: Option<(nat, nat)>,
    input_coins: Seq<Option<Coin>>,
    output_coins: Seq<Option<Coin>>,
    vkey: Seq<u32>,
)
    requires
        step_holds(wrap_vk, publics, w),
        coins_of_inputs(input_coins, w.inputs),
        coins_of_outputs(output_coins, w.outputs),
        keys::coordinates(owner) == (publics[0], publics[1]),
        keys::on_curve(owner),
        keys::on_curve(keys::owner_point(w.sk)),
        forall|i: int|
            0 <= i < MAX_INPUTS && (#[trigger] input_coins[i]) is Some ==> keys::on_curve(
                input_coins[i]->0.owner_pk@,
            ),
    ensures
        relations::spend_failure(
            claim_of(
                publics,
                w,
                owner,
                input_coins,
                output_coins,
                false,
                Some(receipt_claim(w.receipts[0], owner, vkey)),
            ),
        ) is None,
        opens_outputs(output_coins, publics),
        merkle::path_root(0, w.position, w.path) == publics[4],
        (recovered(w.receipts[0], 0), recovered(w.receipts[0], 1)) == keys::coordinates(owner),
        groth16::mnt6_provable(wrap_vk, constraints::scalars_of(w.receipts[0])),
{
    let receipt = w.receipts[0];
    assert(receipt_slot_holds(
        wrap_vk,
        w.inputs[0].active,
        receipt,
        (publics[0], publics[1]),
        gadgets::parts_commitment(w.inputs[0].coin),
    ));
    lemma_slots_make_claim(
        publics,
        w,
        owner,
        input_coins,
        output_coins,
        false,
        Some(receipt_claim(receipt, owner, vkey)),
    );
}

/// An inactive slot counts for nothing: the sum is the same whatever coin is put into it.
pub proof fn inactive_slot_counts_for_nothing(slots: Seq<InputSlot>, i: int, coin: (
    nat,
    nat,
    nat,
    nat,
))
    requires
        0 <= i < slots.len(),
        !slots[i].active,
    ensures
        sum_of(
            input_counts(slots.update(i, InputSlot { coin, ..slots[i] })),
        ) == sum_of(input_counts(slots)),
{
    let changed = slots.update(i, InputSlot { coin, ..slots[i] });
    assert(input_counts(changed) =~= input_counts(slots));
}

/// The public inputs of a spend are the key's two coordinates, the two output commitments, the
/// board root and the accumulator's root, in this order, for a mint as for any other spend.
pub proof fn spend_inputs_are_in_order(
    pk_p: OwnerPk,
    output_commitments: [Fr; MAX_OUTPUTS],
    board_root: Fr,
    current_nullifier_root: Fr,
    r: Vec<Fr>,
    other: Vec<Fr>,
    pair: (Fr, Fr),
)
    requires
        call_ensures(
            GenesisSpendCircuit::public_inputs,
            (pk_p, output_commitments, board_root, current_nullifier_root),
            r,
        ),
        call_ensures(
            SpendStepCircuit::public_inputs,
            (pk_p, output_commitments, board_root, current_nullifier_root),
            other,
        ),
        call_ensures(owner_pk_to_field_pair, (&pk_p,), pair),
    ensures
        r@.len() == 6,
        r@[0]@ == pair.0@,
        r@[1]@ == pair.1@,
        r@[2]@ == output_commitments@[0]@,
        r@[3]@ == output_commitments@[1]@,
        r@[4]@ == board_root@,
        r@[5]@ == current_nullifier_root@,
        field::fr_values(other@) == field::fr_values(r@),
{
    let values = field::fr_values(r@);
    let outputs = field::fr_values(output_commitments@);
    assert(outputs[0] == output_commitments@[0]@ && outputs[1] == output_commitments@[1]@);
    assert(values[0] == r@[0]@);
    assert(values[1] == r@[1]@);
    assert(values[2] == r@[2]@);
    assert(values[3] == r@[3]@);
    assert(values[4] == r@[4]@);
    assert(values[5] == r@[5]@);
}

/// Every assignment that satisfies a spend circuit conserves values: the first slots count, the
/// second ones where they are active, each value has 64 bits, and inputs and outputs have the
/// same sum.
pub proof fn statement_conserves_values(publics: Seq<nat>, w: SpendWitness)
    requires
        spend_holds(publics, w),
    ensures
        w.inputs[0].active,
        w.outputs[0].active,
        w.inputs[0].coin.0 + (if w.inputs[1].active {
            w.inputs[1].coin.0
        } else {
            0
        }) == w.outputs[0].coin.0 + (if w.outputs[1].active {
            w.outputs[1].coin.0
        } else {
            0
        }),
        w.inputs[0].coin.0 < pow2(64),
        w.inputs[1].coin.0 < pow2(64),
        w.outputs[0].coin.0 < pow2(64),
        w.outputs[1].coin.0 < pow2(64),
{
    let ins = input_counts(w.inputs);
    let outs = output_counts(w.outputs);
    reveal_with_fuel(sum_of, 3);
    assert(ins.drop_last().drop_last().len() == 0);
    assert(outs.drop_last().drop_last().len() == 0);
    assert(ins.drop_last().last() == ins[0] && outs.drop_last().last() == outs[0]);
    assert(gadgets::parts_in_range(w.inputs[0].coin) && gadgets::parts_in_range(w.inputs[1].coin));
    assert(gadgets::parts_in_range(w.outputs[0].coin) && gadgets::parts_in_range(
        w.outputs[1].coin,
    ));
}

/// Every assignment that satisfies a spend circuit has a canonical secret of the public key,
/// is bound to the public board root with an empty slot, and opens the public output
/// commitments. Each active input is the spender's, and its nullifier, which the coin and the
/// secret determine, is absent from the accumulator with the public root.
pub proof fn statement_backs_every_slot(publics: Seq<nat>, w: SpendWitness, i: int)
    requires
        spend_holds(publics, w),
        0 <= i < 2,
    ensures
        publics.len() == 6,
        w.sk < field::owner_modulus(),
        keys::coordinates(keys::owner_point(w.sk)) == (publics[0], publics[1]),
        merkle::path_root(0, w.position, w.path) == publics[4],
        w.path.len() == 32,
        w.inputs[i].active ==> {
            let c = w.inputs[i].coin;
            let leaf = w.inputs[i].absence.low_leaf;
            let nullifier = poseidon::poseidon(
                seq![
                    poseidon::poseidon(seq![c.0, c.1, c.2, c.3]),
                    poseidon::folded_scalar(w.sk),
                ],
            );
            &&& (c.2, c.3) == (publics[0], publics[1])
            &&& leaf.value < nullifier
            &&& nullifier < leaf.next_value
            &&& merkle::path_root(
                poseidon::poseidon(seq![leaf.value, leaf.next_value, leaf.next_index]),
                w.inputs[i].absence.low_leaf_index,
                w.inputs[i].absence.sibling_path,
            ) == publics[5]
        },
        w.outputs[i].active ==> {
            let c = w.outputs[i].coin;
            poseidon::poseidon(seq![c.0, c.1, c.2, c.3]) == publics[2 + i]
        },
{
    assert(input_slot_holds(w.inputs[i], (publics[0], publics[1]), w.sk, publics[5]));
    assert(output_slot_holds(w.outputs[i], publics[2 + i]));
}

/// Every assignment that satisfies the circuit of a spend that is no mint has, for each active
/// input, a receipt for which there is a wrapped proof under the fixed key, and which names the
/// spender and the coin.
pub proof fn statement_rests_on_receipts(
    wrap_vk: Seq<u8>,
    publics: Seq<nat>,
    w: SpendWitness,
    i: int,
)
    requires
        step_holds(wrap_vk, publics, w),
        0 <= i < 2,
        w.inputs[i].active,
    ensures
        w.receipts[i].len() == 20,
        groth16::mnt6_provable(wrap_vk, constraints::scalars_of(w.receipts[i])),
        recovered(w.receipts[i], 0) == publics[0],
        recovered(w.receipts[i], 1) == publics[1],
        recovered(w.receipts[i], 2) == poseidon::poseidon(
            seq![
                w.inputs[i].coin.0,
                w.inputs[i].coin.1,
                w.inputs[i].coin.2,
                w.inputs[i].coin.3,
            ],
        ),
{
    assert(receipt_slot_holds(
        wrap_vk,
        w.inputs[i].active,
        w.receipts[i],
        (publics[0], publics[1]),
        gadgets::parts_commitment(w.inputs[i].coin),
    ));
}

/// The key of a mint is the genesis key, whoever made the assignment.
pub proof fn only_the_genesis_key_mints(publics: Seq<nat>)
    requires
        is_genesis_statement(publics),
    ensures
        (publics[0], publics[1]) == keys::coordinates(keys::owner_point(1)),
{
}

/// What is asked of a coin in an input slot: it is the spender's, and the witness shows its
/// nullifier absent.
proof fn lemma_input_asks(
    coins: Seq<Option<Coin>>,
    witnesses: Seq<Option<NonMembershipWitness>>,
    pk: (nat, nat),
    sk: nat,
    root: nat,
    i: int,
)
    requires
        0 <= i < 2,
        i == 0 ==> coins[0] is Some,
        coins[i] is Some ==> witnesses[i] is Some && witnesses[i]->0.sibling_path@.len() == 32,
    ensures
        input_holds(coins, witnesses, pk, sk, root, i) <==> (coins[i] is Some ==> {
            &&& keys::coordinates(coins[i]->0.owner_pk@) == pk
            &&& nullifier::shows_absence(
                root,
                envelope::nullifier_of(coin::coin_commitment(coins[i]->0@), sk),
                witnesses[i]->0@,
            )
        }),
{
    if coins[i] is Some {
        let siblings = field::fr_values(witnesses[i]->0.sibling_path@);
        assert(siblings.take(32) =~= siblings);
        assert(gadgets::slot_witness(witnesses[i]) == witnesses[i]->0@);
    }
}

/// Given values satisfy the genesis circuit if and only if the secret is that of the key, the
/// key is the genesis key, the path leads from zero to the board root, every input coin is the
/// minter's and unspent, every output coin has the commitment at its place, and the values of
/// inputs and outputs add up to the same.
pub proof fn genesis_circuit_asks_for_these(c: GenesisSpendCircuit)
    requires
        c.is_complete(),
        c.append_path->0@.len() == 32,
        c.input_coins@[0] is Some,
        c.output_coins@[0] is Some,
        forall|i: int|
            0 <= i < 2 && (#[trigger] c.input_coins@[i]) is Some
                ==> c.own_nullifier_nonmembership@[i] is Some
                && c.own_nullifier_nonmembership@[i]->0.sibling_path@.len() == 32,
    ensures
        c.relation() <==> {
            let pk = keys::coordinates(c.pk_p->0@);
            let ins = c.input_coins@;
            let outs = c.output_coins@;
            &&& keys::coordinates(keys::owner_point(c.sk_p->0@)) == pk
            &&& keys::coordinates(keys::owner_point(1)) == pk
            &&& merkle::path_root(
                0,
                c.entry_position->0 as nat,
                field::fr_values(c.append_path->0@),
            ) == c.board_root->0@
            &&& forall|i: int|
                0 <= i < 2 && (#[trigger] ins[i]) is Some ==> {
                    &&& keys::coordinates(ins[i]->0.owner_pk@) == pk
                    &&& nullifier::shows_absence(
                        c.current_nullifier_root->0@,
                        envelope::nullifier_of(coin::coin_commitment(ins[i]->0@), c.sk_p->0@),
                        c.own_nullifier_nonmembership@[i]->0@,
                    )
                }
            &&& forall|j: int|
                0 <= j < 2 && (#[trigger] outs[j]) is Some ==> coin::coin_commitment(outs[j]->0@)
                    == c.output_commitments->0@[j]@
            &&& ins[0]->0.value + (if ins[1] is Some {
                ins[1]->0.value as int
            } else {
                0
            }) == outs[0]->0.value + (if outs[1] is Some {
                outs[1]->0.value as int
            } else {
                0
            })
        },
{
    let pk = keys::coordinates(c.pk_p->0@);
    let sk = c.sk_p->0@;
    let root = c.current_nullifier_root->0@;
    let ins = c.input_coins@;
    let outs = c.output_coins@;
    let ws = c.own_nullifier_nonmembership@;
    let path = field::fr_values(c.append_path->0@);
    let commitments = field::fr_values(c.output_commitments->0@);
    assert(path.take(32) =~= path);
    lemma_input_asks(ins, ws, pk, sk, root, 0);
    lemma_input_asks(ins, ws, pk, sk, root, 1);
    reveal_with_fuel(active_total, 3);
    assert(commitments[0] == c.output_commitments->0@[0]@);
    assert(commitments[1] == c.output_commitments->0@[1]@);
    if c.relation() {
        assert(input_holds(ins, ws, pk, sk, root, 0) && input_holds(ins, ws, pk, sk, root, 1));
        assert(output_holds(outs, commitments, 0) && output_holds(outs, commitments, 1));
    }
    if forall|j: int|
        0 <= j < 2 && (#[trigger] outs[j]) is Some ==> coin::coin_commitment(outs[j]->0@)
            == c.output_commitments->0@[j]@ {
        assert(outs[0] is Some);
        assert(output_holds(outs, commitments, 0));
        if outs[1] is Some {
            assert(coin::coin_commitment(outs[1]->0@) == c.output_commitments->0@[1]@);
        }
        assert(output_holds(outs, commitments, 1));
    }
}

/// Given values satisfy the spend circuit if and only if the secret is that of the key, the
/// path leads from zero to the board root, every input coin is the spender's, is unspent and
/// has a receipt whose proof verifies and which names the spender and the coin, every output
/// coin has the commitment at its place, and the values of inputs and outputs add up to the
/// same.
pub proof fn spend_circuit_asks_for_these(c: SpendStepCircuit)
    requires
        c.is_complete(),
        c.append_path->0@.len() == 32,
        c.input_coins@[0] is Some,
        c.output_coins@[0] is Some,
        forall|i: int|
            0 <= i < 2 && (#[trigger] c.input_coins@[i]) is Some ==> {
                &&& c.own_nullifier_nonmembership@[i] is Some
                &&& c.own_nullifier_nonmembership@[i]->0.sibling_path@.len() == 32
                &&& c.input_receipt_proofs@[i] is Some
                &&& c.input_receipt_public_inputs@[i] is Some
            },
    ensures
        c.relation() <==> {
            let pk = keys::coordinates(c.pk_p->0@);
            let ins = c.input_coins@;
            let outs = c.output_coins@;
            &&& keys::coordinates(keys::owner_point(c.sk_p->0@)) == pk
            &&& merkle::path_root(
                0,
                c.entry_position->0 as nat,
                field::fr_values(c.append_path->0@),
            ) == c.board_root->0@
            &&& forall|i: int|
                0 <= i < 2 && (#[trigger] ins[i]) is Some ==> {
                    let receipt = c.input_receipt_public_inputs@[i]->0@;
                    &&& keys::coordinates(ins[i]->0.owner_pk@) == pk
                    &&& nullifier::shows_absence(
                        c.current_nullifier_root->0@,
                        envelope::nullifier_of(coin::coin_commitment(ins[i]->0@), c.sk_p->0@),
                        c.own_nullifier_nonmembership@[i]->0@,
                    )
                    &&& groth16::mnt6_outcome(
                        c.wrap_vk@,
                        circuit_wrap::chunks_of(field::fr_values(receipt)),
                        c.input_receipt_proofs@[i]->0@,
                    ) == Ok::<bool, SynthesisError>(true)
                    &&& (receipt[0]@, receipt[1]@) == pk
                    &&& receipt[2]@ == coin::coin_commitment(ins[i]->0@)
                }
            &&& forall|j: int|
                0 <= j < 2 && (#[trigger] outs[j]) is Some ==> coin::coin_commitment(outs[j]->0@)
                    == c.output_commitments->0@[j]@
            &&& ins[0]->0.value + (if ins[1] is Some {
                ins[1]->0.value as int
            } else {
                0
            }) == outs[0]->0.value + (if outs[1] is Some {
                outs[1]->0.value as int
            } else {
                0
            })
        },
{
    let pk = keys::coordinates(c.pk_p->0@);
    let sk = c.sk_p->0@;
    let root = c.current_nullifier_root->0@;
    let ins = c.input_coins@;
    let outs = c.output_coins@;
    let ws = c.own_nullifier_nonmembership@;
    let path = field::fr_values(c.append_path->0@);
    let commitments = field::fr_values(c.output_commitments->0@);
    assert(path.take(32) =~= path);
    lemma_input_asks(ins, ws, pk, sk, root, 0);
    lemma_input_asks(ins, ws, pk, sk, root, 1);
    reveal_with_fuel(active_total, 3);
    assert(commitments[0] == c.output_commitments->0@[0]@);
    assert(commitments[1] == c.output_commitments->0@[1]@);
    if c.relation() {
        assert(c.input_is_backed(0) && c.input_is_backed(1));
        assert(output_holds(outs, commitments, 0) && output_holds(outs, commitments, 1));
    }
    if forall|j: int|
        0 <= j < 2 && (#[trigger] outs[j]) is Some ==> coin::coin_commitment(outs[j]->0@)
            == c.output_commitments->0@[j]@ {
        assert(outs[0] is Some);
        assert(output_holds(outs, commitments, 0));
        if outs[1] is Some {
            assert(coin::coin_commitment(outs[1]->0@) == c.output_commitments->0@[1]@);
        }
        assert(output_holds(outs, commitments, 1));
    }
}

/// Verifying the proof of a mint, or of any other spend, is verifying a proof over MNT4-753.
pub proof fn verifying_a_spend_is_verifying_its_proof(
    vk: &[u8],
    public_inputs: &[Fr],
    snark: &[u8],
    mint: Result<bool, SynthesisError>,
    spend: Result<bool, SynthesisError>,
    direct: Result<bool, SynthesisError>,
)
    requires
        call_ensures(verify, (vk, public_inputs, snark), mint),
        call_ensures(verify_non_genesis, (vk, public_inputs, snark), spend),
        call_ensures(mnt4_verify, (vk, public_inputs, snark), direct),
    ensures
        mint == direct,
        spend == direct,
{
}

/// A circuit has all values that it needs where the key, the secret, the output commitments, the
/// two roots, the position and the path are there; coins, witnesses and receipts may be missing
/// from its slots.
pub proof fn completeness_is_of_these_values(mint: GenesisSpendCircuit, spend: SpendStepCircuit)
    ensures
        mint.is_complete() <==> mint.pk_p is Some && mint.sk_p is Some && mint.output_commitments
            is Some && mint.board_root is Some && mint.current_nullifier_root is Some
            && mint.entry_position is Some && mint.append_path is Some,
        spend.is_complete() <==> spend.pk_p is Some && spend.sk_p is Some
            && spend.output_commitments is Some && spend.board_root is Some
            && spend.current_nullifier_root is Some && spend.entry_position is Some
            && spend.append_path is Some,
{
}

} // verus!
