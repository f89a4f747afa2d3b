//! The receipt circuit.
//!
//! [`ReceiptStepCircuit`] shows that a coin was received: its owner can open it, a verified
//! spend created it, the entry of that spend stands on the board, and that spend's own
//! nullifier had not been used before. The spend is verified recursively, as a wrapped proof
//! of one of the spend circuits, which have the same public inputs.

use vstd::prelude::*;
use vstd::arithmetic::power2::pow2;
use crate::board;
use crate::circuit_spend;
use crate::circuit_spend::{
    alloc_scalar_bits, recover_value, MAX_OUTPUTS, RECEIPT_PUBLIC_INPUT_COUNT,
    SPEND_PUBLIC_INPUT_COUNT,
};
use crate::circuit_wrap;
use crate::circuit_wrap::public_input_chunks;
use crate::coin;
use crate::constraints;
use crate::constraints::{ConstraintBackend, Step, FIELD_BITS};
use crate::field;
use crate::field::{Fr, OwnerScalar};
use crate::gadgets;
use crate::gadgets::{
    alloc_fp_vec, alloc_secret, enforce_key, hash_list_var, is_member, root_at_slot,
    verify_nonmembership_var,
};
use crate::groth16;
use crate::groth16::{mnt4_verify, SynthesisError};
use crate::keys;
use crate::merkle;
use crate::merkle::TREE_DEPTH;
use crate::nullifier;
use crate::nullifier::NonMembershipWitness;
use crate::poseidon;
use crate::relations;

verus! {

/// Where a spend's output commitments start among its public inputs.
pub const SPEND_OUTPUT_COMMITMENTS_START: usize = 2;

/// How many pieces the public values of a wrapped spend make.
pub const WRAP_CHUNK_COUNT: usize = 24;

/// The receipt relation.
///
/// The public values are the owner's coordinates, the coin's commitment, the board root and
/// the slot at which the coin was received, in this order. The owner is no free claim: the
/// key is derived from a secret, and it opens the commitment together with the value and the
/// randomness. So whoever builds a receipt knows how to open the coin, and does not only
/// name a commitment that stands on the board.
///
/// The spender of the wrapped proof is someone else, who created the coin: its key is not
/// compared with the owner's. That the coin's owner is the one who spends it is checked when
/// the coin is spent, against this receipt's public values.
#[derive(Clone, Debug)]
pub struct ReceiptStepCircuit {
    // Public values.
    pub owner_pk_x: Option<Fr>,
    pub owner_pk_y: Option<Fr>,
    pub coin_commitment: Option<Fr>,
    pub board_root: Option<Fr>,
    pub received_at: Option<u64>,
    // The wrapped proof of the spend that created the coin.
    /// The key of the wrapped spends, fixed for one use of the circuit.
    pub wrap_vk: Vec<u8>,
    pub wrap_proof: Option<Vec<u8>>,
    /// The public values of the wrapped spend, not yet cut to pieces.
    pub wrap_public_inputs: Option<[Fr; SPEND_PUBLIC_INPUT_COUNT]>,
    // The entry of that spend on the board.
    pub entry_nullifier: Option<Fr>,
    pub entry_output_commitments: Option<[Fr; MAX_OUTPUTS]>,
    pub entry_ciphertext_commitment: Option<Fr>,
    pub received_slot: Option<u64>,
    /// One sibling for each level of the tree.
    pub append_path: Option<Vec<Fr>>,
    // The absence of that spend's nullifier as of its own slot.
    pub parent_nonmembership: Option<NonMembershipWitness>,
    pub nullifier_root_at_parent_slot: Option<Fr>,
    // The opening of the coin.
    pub sk_p: Option<OwnerScalar>,
    pub coin_value: Option<u64>,
    pub coin_rand: Option<Fr>,
}

/// The public inputs of a receipt, in order.
pub open spec fn receipt_publics(
    owner: (nat, nat),
    coin_commitment: nat,
    board_root: nat,
    received_at: nat,
) -> Seq<nat> {
    seq![owner.0, owner.1, coin_commitment, board_root, received_at]
}

/// The entry of an assignment to the receipt circuit, and its place on the board.
pub struct EntryWitness {
    pub nullifier: nat,
    pub outputs: Seq<nat>,
    pub ciphertext_commitment: nat,
    pub slot: nat,
    pub path: Seq<nat>,
}

/// The private part of an assignment to the receipt circuit.
pub struct ReceiptWitness {
    pub sk: nat,
    pub value: nat,
    pub rand: nat,
    /// The numbers that the bits of the wrapped spend's pieces write.
    pub pieces: Seq<nat>,
    pub entry: EntryWitness,
    pub parent_root: nat,
    pub absence: nullifier::WitnessView,
}

/// A secret belongs to the owner's key, and the commitment opens to a 64-bit value and a
/// randomness under that key.
pub open spec fn opening_holds(
    owner: (nat, nat),
    coin_commitment: nat,
    sk: nat,
    value: nat,
    rand: nat,
) -> bool {
    &&& gadgets::is_key_of(sk, owner)
    &&& value < pow2(64)
    &&& rand < field::fr_modulus()
    &&& poseidon::poseidon(seq![value, rand, owner.0, owner.1]) == coin_commitment
}

/// The output commitments that are recovered from the pieces of a wrapped spend.
pub open spec fn recovered_outputs(pieces: Seq<nat>) -> Seq<nat> {
    seq![circuit_spend::recovered(pieces, 2), circuit_spend::recovered(pieces, 3)]
}

/// There is a wrapped proof for the pieces of a spend, as scalars, and the values that are
/// recovered from the pieces name the coin among the outputs. Nothing holds a piece below the
/// scalar modulus.
pub open spec fn creation_holds(
    wrap_vk: Seq<u8>,
    coin_commitment: nat,
    pieces: Seq<nat>,
) -> bool {
    &&& groth16::mnt6_provable(wrap_vk, constraints::scalars_of(pieces))
    &&& recovered_outputs(pieces).contains(coin_commitment)
}

/// The values of an entry are field elements, and there are as many as the circuit has room
/// for.
pub open spec fn entry_in_field(entry: EntryWitness) -> bool {
    &&& entry.nullifier < field::fr_modulus()
    &&& entry.outputs.len() == MAX_OUTPUTS
    &&& gadgets::elements(entry.outputs)
    &&& entry.ciphertext_commitment < field::fr_modulus()
    &&& entry.slot < field::fr_modulus()
    &&& entry.path.len() == TREE_DEPTH
    &&& gadgets::elements(entry.path)
}

/// The entry stands on the board at the slot, and creates the coin.
pub open spec fn entry_holds(
    coin_commitment: nat,
    board_root: nat,
    received_at: nat,
    entry: EntryWitness,
) -> bool {
    &&& merkle::path_root(
        board::leaf_from_commitment(
            entry.slot,
            entry.nullifier,
            entry.outputs,
            entry.ciphertext_commitment,
        ),
        entry.slot,
        entry.path,
    ) == board_root
    &&& entry.slot == received_at
    &&& entry.outputs.contains(coin_commitment)
}

/// The receipt relation of public inputs and a private witness.
pub open spec fn receipt_holds(wrap_vk: Seq<u8>, publics: Seq<nat>, w: ReceiptWitness) -> bool {
    &&& publics.len() == RECEIPT_PUBLIC_INPUT_COUNT
    &&& opening_holds((publics[0], publics[1]), publics[2], w.sk, w.value, w.rand)
    &&& w.pieces.len() == WRAP_CHUNK_COUNT
    &&& circuit_spend::pieces_bounded(w.pieces)
    &&& creation_holds(wrap_vk, publics[2], w.pieces)
    &&& entry_in_field(w.entry)
    &&& entry_holds(publics[2], publics[3], publics[4], w.entry)
    // The creating spend was no double spend.
    &&& w.parent_root < field::fr_modulus()
    &&& gadgets::witness_in_field(w.absence)
    &&& nullifier::shows_absence(w.parent_root, w.entry.nullifier, w.absence)
}

/// What a satisfied receipt circuit tells of its public inputs, whoever made the assignment.
pub open spec fn is_receipt_statement(wrap_vk: Seq<u8>, publics: Seq<nat>) -> bool {
    exists|w: ReceiptWitness| #[trigger] receipt_holds(wrap_vk, publics, w)
}

/// The steps of [`ReceiptStepCircuit::enforce_opening`].
pub open spec fn opening_shape(s: Seq<Step>) -> Seq<Step> {
    gadgets::key_shape(gadgets::repeated(s, Step::WitnessBit, FIELD_BITS as nat)).push(
        Step::WitnessNumber,
    ).push(Step::Witness).push(Step::Hash(4)).push(Step::EnforceEqual)
}

/// The steps of [`ReceiptStepCircuit::enforce_spend`].
pub open spec fn creation_shape(s: Seq<Step>, wrap_vk: Seq<u8>) -> Seq<Step> {
    let verified = circuit_wrap::value_bits_shape(s, WRAP_CHUNK_COUNT as nat).push(
        Step::ProofVerifies(wrap_vk, WRAP_CHUNK_COUNT as nat),
    ).push(Step::EnforceTrue);
    gadgets::member_shape(
        circuit_spend::recover_shape(circuit_spend::recover_shape(verified)),
        MAX_OUTPUTS as nat,
    ).push(Step::EnforceTrue)
}

/// The steps of [`ReceiptStepCircuit::enforce_entry`].
pub open spec fn entry_shape(s: Seq<Step>) -> Seq<Step> {
    let values = s.push(Step::Witness).push(Step::Witness).push(Step::Witness).push(
        Step::Witness,
    ).push(Step::Witness);
    let leaf = gadgets::repeated(values, Step::Witness, TREE_DEPTH as nat).push(
        Step::Hash(2),
    ).push(Step::Hash(4));
    gadgets::member_shape(
        gadgets::slot_root_shape(leaf).push(Step::EnforceEqual).push(Step::EnforceEqual),
        MAX_OUTPUTS as nat,
    ).push(Step::EnforceTrue)
}

/// The steps of the receipt circuit. They depend on the fixed key for spends alone.
pub open spec fn receipt_circuit_shape(s: Seq<Step>, wrap_vk: Seq<u8>) -> Seq<Step> {
    let publics = s.push(Step::Input).push(Step::Input).push(Step::Input).push(Step::Input).push(
        Step::Input,
    );
    let entered = entry_shape(creation_shape(opening_shape(publics), wrap_vk));
    gadgets::nonmembership_shape(entered.push(Step::Witness)).push(Step::EnforceTrue)
}

/// The public inputs of a receipt as variables.
struct ReceiptPublicVars<B: ConstraintBackend> {
    owner_pk_x: B::Fp,
    owner_pk_y: B::Fp,
    coin_commitment: B::Fp,
    board_root: B::Fp,
    received_at: B::Fp,
}

impl<B: ConstraintBackend> ReceiptPublicVars<B> {
    /// The coordinates of the owner's key.
    spec fn owner(&self) -> (nat, nat) {
        (B::fp(self.owner_pk_x), B::fp(self.owner_pk_y))
    }

    /// The values of the public inputs, in order.
    spec fn values(&self) -> Seq<nat> {
        receipt_publics(
            self.owner(),
            B::fp(self.coin_commitment),
            B::fp(self.board_root),
            B::fp(self.received_at),
        )
    }
}

/// A number as a field element, where there is one.
fn optional_element(value: &Option<u64>) -> (r: Option<Fr>)
    ensures
        r is Some == value is Some,
        value is Some ==> r->0@ == value->0 as nat,
{
    match value {
        Some(v) => Some(Fr::from(*v)),
        None => None,
    }
}

/// The pieces of the wrapped spend's public values, where there are any.
fn optional_chunks(values: &Option<[Fr; SPEND_PUBLIC_INPUT_COUNT]>) -> (r: Option<
    Vec<OwnerScalar>,
>)
    ensures
        r is Some == values is Some,
        values is Some ==> groth16::owner_values(r->0@) == circuit_wrap::chunks_of(
            field::fr_values(values->0@),
        ),
        r matches Some(list) ==> list@.len() == WRAP_CHUNK_COUNT,
{
    match values {
        Some(list) => {
            let r = public_input_chunks(list);
            assert(groth16::owner_values(r@).len() == WRAP_CHUNK_COUNT);
            Some(r)
        },
        None => None,
    }
}

impl ReceiptStepCircuit {
    /// Every value is there that a proof or an evaluation needs.
    pub open spec fn is_complete(&self) -> bool {
        &&& self.owner_pk_x is Some
        &&& self.owner_pk_y is Some
        &&& self.coin_commitment is Some
        &&& self.board_root is Some
        &&& self.received_at is Some
        &&& self.wrap_public_inputs is Some
        &&& self.entry_nullifier is Some
        &&& self.entry_output_commitments is Some
        &&& self.entry_ciphertext_commitment is Some
        &&& self.received_slot is Some
        &&& self.append_path is Some
        &&& self.parent_nonmembership is Some
        &&& self.nullifier_root_at_parent_slot is Some
        &&& self.sk_p is Some
        &&& self.coin_value is Some
        &&& self.coin_rand is Some
    }

    /// The paths reach the root.
    pub open spec fn paths_reach_root(&self) -> bool {
        &&& self.append_path matches Some(path) ==> path@.len() >= TREE_DEPTH
        &&& gadgets::witness_reaches_root(self.parent_nonmembership)
    }

    /// The coordinates of the owner's key.
    pub open spec fn owner(&self) -> (nat, nat) {
        (self.owner_pk_x->0@, self.owner_pk_y->0@)
    }

    /// The output commitments that the wrapped spend proves.
    pub open spec fn spend_outputs(&self) -> Seq<nat> {
        field::fr_values(self.wrap_public_inputs->0@).subrange(2, 4)
    }

    /// The leaf of the entry that created the coin.
    pub open spec fn entry_leaf(&self) -> nat {
        board::leaf_from_commitment(
            self.received_slot->0 as nat,
            self.entry_nullifier->0@,
            field::fr_values(self.entry_output_commitments->0@),
            self.entry_ciphertext_commitment->0@,
        )
    }

    /// The entry of the given values, and its place.
    pub open spec fn given_entry(&self) -> EntryWitness {
        EntryWitness {
            nullifier: self.entry_nullifier->0@,
            outputs: field::fr_values(self.entry_output_commitments->0@),
            ciphertext_commitment: self.entry_ciphertext_commitment->0@,
            slot: self.received_slot->0 as nat,
            path: field::fr_values(self.append_path->0@).take(32),
        }
    }

    /// The owner knows the secret of the key and opens the coin.
    pub open spec fn owner_opens_coin(&self) -> bool {
        &&& keys::coordinates(keys::owner_point(self.sk_p->0@)) == self.owner()
        &&& poseidon::poseidon(
            seq![
                self.coin_value->0 as nat,
                self.coin_rand->0@,
                self.owner().0,
                self.owner().1,
            ],
        ) == self.coin_commitment->0@
    }

    /// A verified spend created the coin.
    pub open spec fn spend_creates_coin(&self) -> bool {
        &&& groth16::mnt6_outcome(
            self.wrap_vk@,
            circuit_wrap::chunks_of(field::fr_values(self.wrap_public_inputs->0@)),
            self.wrap_proof->0@,
        ) == Ok::<bool, SynthesisError>(true)
        &&& self.spend_outputs().contains(self.coin_commitment->0@)
    }

    /// The entry that created the coin stands on the board at the slot.
    pub open spec fn entry_is_on_board(&self) -> bool {
        &&& merkle::path_root(
            self.entry_leaf(),
            self.received_slot->0 as nat,
            field::fr_values(self.append_path->0@).take(32),
        ) == self.board_root->0@
        &&& self.received_slot->0 == self.received_at->0
        &&& field::fr_values(self.entry_output_commitments->0@).contains(
            self.coin_commitment->0@,
        )
    }

    /// What the circuit constrains.
    pub open spec fn relation(&self) -> bool {
        &&& self.owner_opens_coin()
        &&& self.spend_creates_coin()
        &&& self.entry_is_on_board()
        // The creating spend was no double spend.
        &&& nullifier::shows_absence(
            self.nullifier_root_at_parent_slot->0@,
            self.entry_nullifier->0@,
            gadgets::slot_witness(self.parent_nonmembership),
        )
    }

    /// Whether every value is there that a proof or an evaluation needs.
    fn has_all_values(&self) -> (r: bool)
        ensures
            r == self.is_complete(),
    {
        self.owner_pk_x.is_some() && self.owner_pk_y.is_some() && self.coin_commitment.is_some()
            && self.board_root.is_some() && self.received_at.is_some()
            && self.wrap_public_inputs.is_some() && self.entry_nullifier.is_some()
            && self.entry_output_commitments.is_some()
            && self.entry_ciphertext_commitment.is_some() && self.received_slot.is_some()
            && self.append_path.is_some() && self.parent_nonmembership.is_some()
            && self.nullifier_root_at_parent_slot.is_some() && self.sk_p.is_some()
            && self.coin_value.is_some() && self.coin_rand.is_some()
    }

    /// The public inputs, in their fixed order.
    fn alloc_publics<B: ConstraintBackend>(&self, cs: &mut B) -> (r: ReceiptPublicVars<B>)
        requires
            old(cs).assigns() ==> self.is_complete(),
        ensures
            constraints::keeps_mode(*old(cs), *final(cs)),
            final(cs).shape() == old(cs).shape().push(Step::Input).push(Step::Input).push(
                Step::Input,
            ).push(Step::Input).push(Step::Input),
            final(cs).satisfied() == old(cs).satisfied(),
            final(cs).inputs() == old(cs).inputs() + r.values(),
            final(cs).honest() && final(cs).assigns() ==> {
                &&& r.owner() == self.owner()
                &&& B::fp(r.coin_commitment) == self.coin_commitment->0@
                &&& B::fp(r.board_root) == self.board_root->0@
                &&& B::fp(r.received_at) == self.received_at->0 as nat
            },
    {
        let owner_pk_x = cs.new_input(self.owner_pk_x);
        let owner_pk_y = cs.new_input(self.owner_pk_y);
        let coin_commitment = cs.new_input(self.coin_commitment);
        let board_root = cs.new_input(self.board_root);
        let received_at = cs.new_input(optional_element(&self.received_at));
        let r = ReceiptPublicVars {
            owner_pk_x,
            owner_pk_y,
            coin_commitment,
            board_root,
            received_at,
        };
        assert(cs.inputs() =~= old(cs).inputs() + r.values());
        r
    }

    /// Constrain the owner's key to be the one of the secret, and the commitment to open.
    /// Returns the secret, the value and the randomness.
    fn enforce_opening<B: ConstraintBackend>(
        &self,
        cs: &mut B,
        publics: &ReceiptPublicVars<B>,
    ) -> (r: Ghost<(nat, nat, nat)>)
        requires
            old(cs).assigns() ==> self.is_complete(),
            old(cs).honest() ==> old(cs).assigns(),
        ensures
            constraints::constrained(
                *old(cs),
                *final(cs),
                opening_holds(
                    publics.owner(),
                    B::fp(publics.coin_commitment),
                    r@.0,
                    r@.1,
                    r@.2,
                ),
            ),
            final(cs).shape() == opening_shape(old(cs).shape()),
            final(cs).honest() ==> {
                &&& r@ == (self.sk_p->0@, self.coin_value->0 as nat, self.coin_rand->0@)
                &&& r@.0 < field::owner_modulus()
                &&& r@.1 < pow2(64)
                &&& r@.2 < field::fr_modulus()
            },
    {
        let sk_bits = alloc_secret(cs, &self.sk_p);
        enforce_key(cs, &sk_bits, &publics.owner_pk_x, &publics.owner_pk_y);
        let value = cs.new_witness_u64(self.coin_value);
        let rand = cs.new_witness(self.coin_rand);
        let mut list: Vec<&B::Fp> = Vec::new();
        list.push(&value);
        list.push(&rand);
        list.push(&publics.owner_pk_x);
        list.push(&publics.owner_pk_y);
        assert(constraints::referenced_values::<B>(list@) =~= seq![
            B::fp(value),
            B::fp(rand),
            B::fp(publics.owner_pk_x),
            B::fp(publics.owner_pk_y),
        ]);
        let computed = cs.hash(&list);
        cs.enforce_equal(&computed, &publics.coin_commitment);
        Ghost((constraints::number::<B>(sk_bits@), B::fp(value), B::fp(rand)))
    }

    /// Constrain the wrapped spend to verify and to have created the coin. Returns the numbers
    /// that the bits of its pieces write.
    fn enforce_spend<B: ConstraintBackend>(
        &self,
        cs: &mut B,
        publics: &ReceiptPublicVars<B>,
        snark: &Vec<u8>,
    ) -> (r: Ghost<Seq<nat>>)
        requires
            old(cs).assigns() ==> self.is_complete(),
            old(cs).honest() ==> old(cs).assigns(),
            self.wrap_proof is Some,
            self.wrap_proof->0@ == snark@,
            old(cs).honest() ==> B::fp(publics.coin_commitment) == self.coin_commitment->0@,
        ensures
            constraints::keeps_mode(*old(cs), *final(cs)),
            final(cs).shape() == creation_shape(old(cs).shape(), self.wrap_vk@),
            final(cs).inputs() == old(cs).inputs(),
            r@.len() == WRAP_CHUNK_COUNT,
            circuit_spend::pieces_bounded(r@),
            final(cs).satisfied() ==> old(cs).satisfied() && creation_holds(
                self.wrap_vk@,
                B::fp(publics.coin_commitment),
                r@,
            ),
            old(cs).honest() ==> final(cs).satisfied() == (old(cs).satisfied()
                && self.spend_creates_coin()),
    {
        let chunks = optional_chunks(&self.wrap_public_inputs);
        let per_chunk_bits = alloc_scalar_bits(cs, &chunks, WRAP_CHUNK_COUNT);
        let ghost pieces = constraints::numbers::<B>(per_chunk_bits@);
        let accepted = cs.proof_verifies(&self.wrap_vk, &per_chunk_bits, snark);
        cs.enforce_true(&accepted);

        let first = recover_value(cs, &per_chunk_bits, SPEND_OUTPUT_COMMITMENTS_START);
        let second = recover_value(cs, &per_chunk_bits, SPEND_OUTPUT_COMMITMENTS_START + 1);
        let mut outputs: Vec<B::Fp> = Vec::new();
        outputs.push(first);
        outputs.push(second);
        let created = is_member(cs, &publics.coin_commitment, &outputs);
        cs.enforce_true(&created);
        let zero = Fr::from(0u64);
        let (native_first, native_second): (Fr, Fr) = match &self.wrap_public_inputs {
            Some(list) => (list[2], list[3]),
            None => (zero, zero),
        };
        proof {
            use_type_invariant(&native_first);
            use_type_invariant(&native_second);
            circuit_spend::lemma_pieces_bounded::<B>(per_chunk_bits@);
            if constraints::reliable(*cs) {
                assert(constraints::fp_values::<B>(outputs@) =~= recovered_outputs(pieces));
            }
            if cs.honest() {
                let values = field::fr_values(self.wrap_public_inputs->0@);
                assert(values.len() == SPEND_PUBLIC_INPUT_COUNT);
                assert(values[2] == native_first@ && values[3] == native_second@);
                assert(pieces == circuit_wrap::chunks_of(values));
                constraints::lemma_moduli_below_753_bits();
                circuit_spend::values_are_recovered(values, 2);
                circuit_spend::values_are_recovered(values, 3);
                assert(recovered_outputs(pieces) =~= self.spend_outputs());
            }
        }
        Ghost(pieces)
    }

    /// Constrain the entry to stand on the board at the slot and to create the coin. Returns
    /// the entry's nullifier, and the entry.
    fn enforce_entry<B: ConstraintBackend>(
        &self,
        cs: &mut B,
        publics: &ReceiptPublicVars<B>,
    ) -> (r: (B::Fp, Ghost<EntryWitness>))
        requires
            old(cs).assigns() ==> self.is_complete() && self.paths_reach_root(),
            old(cs).honest() ==> old(cs).assigns(),
        ensures
            constraints::constrained(
                *old(cs),
                *final(cs),
                entry_holds(
                    B::fp(publics.coin_commitment),
                    B::fp(publics.board_root),
                    B::fp(publics.received_at),
                    r.1@,
                ),
            ),
            final(cs).shape() == entry_shape(old(cs).shape()),
            entry_in_field(r.1@),
            B::fp(r.0) == r.1@.nullifier,
            final(cs).honest() ==> r.1@ == self.given_entry(),
    {
        let entry_nullifier = cs.new_witness(self.entry_nullifier);
        let (first, second): (Option<Fr>, Option<Fr>) = match &self.entry_output_commitments {
            Some(list) => (Some(list[0]), Some(list[1])),
            None => (None, None),
        };
        let mut outputs: Vec<B::Fp> = Vec::new();
        let first_output = cs.new_witness(first);
        outputs.push(first_output);
        let second_output = cs.new_witness(second);
        outputs.push(second_output);
        let ciphertext_commitment = cs.new_witness(self.entry_ciphertext_commitment);
        let slot = cs.new_witness(optional_element(&self.received_slot));
        let path = alloc_fp_vec(cs, &self.append_path, TREE_DEPTH);
        let ghost entry = EntryWitness {
            nullifier: B::fp(entry_nullifier),
            outputs: constraints::fp_values::<B>(outputs@),
            ciphertext_commitment: B::fp(ciphertext_commitment),
            slot: B::fp(slot),
            path: constraints::fp_values::<B>(path@),
        };
        proof {
            assert(entry.outputs =~= seq![B::fp(first_output), B::fp(second_output)]);
            if cs.honest() {
                assert(entry.outputs =~= field::fr_values(self.entry_output_commitments->0@));
            }
        }

        let outputs_hash = hash_list_var(cs, &outputs);
        let mut list: Vec<&B::Fp> = Vec::new();
        list.push(&slot);
        list.push(&ciphertext_commitment);
        list.push(&entry_nullifier);
        list.push(&outputs_hash);
        assert(constraints::referenced_values::<B>(list@) =~= seq![
            B::fp(slot),
            B::fp(ciphertext_commitment),
            B::fp(entry_nullifier),
            B::fp(outputs_hash),
        ]);
        let leaf = cs.hash(&list);
        let computed = root_at_slot(cs, leaf, &slot, &path);
        cs.enforce_equal(&computed, &publics.board_root);
        cs.enforce_equal(&slot, &publics.received_at);
        let created = is_member(cs, &publics.coin_commitment, &outputs);
        cs.enforce_true(&created);
        (entry_nullifier, Ghost(entry))
    }

    /// Put the circuit's constraints into a constraint system. The circuit's shape needs some
    /// wrapped proof even where no values are assigned.
    ///
    /// The public inputs of any assignment that satisfies the constraints make a receipt
    /// statement. The honest assignment satisfies them if and only if the relation holds of the
    /// given values. The steps that are recorded are the same with values and without.
    pub fn generate_constraints<B: ConstraintBackend>(self, cs: &mut B) -> (r: Result<
        (),
        SynthesisError,
    >)
        requires
            old(cs).assigns() ==> self.paths_reach_root(),
        ensures
            r is Ok == (self.wrap_proof is Some && (old(cs).assigns() ==> self.is_complete())),
            r is Err ==> r->Err_0 == SynthesisError::AssignmentMissing && *final(cs) == *old(cs),
            constraints::keeps_mode(*old(cs), *final(cs)),
            r is Ok ==> final(cs).shape() == receipt_circuit_shape(
                old(cs).shape(),
                self.wrap_vk@,
            ),
            r is Ok && final(cs).satisfied() ==> old(cs).satisfied() && exists|publics: Seq<nat>|
                final(cs).inputs() == old(cs).inputs() + publics
                    && #[trigger] is_receipt_statement(self.wrap_vk@, publics),
            r is Ok && old(cs).honest() ==> final(cs).satisfied() == (old(cs).satisfied()
                && self.relation()),
            r is Ok && old(cs).honest() ==> final(cs).inputs() == old(cs).inputs()
                + receipt_publics(
                self.owner(),
                self.coin_commitment->0@,
                self.board_root->0@,
                self.received_at->0 as nat,
            ),
    {
        if cs.assigns_values() && !self.has_all_values() {
            return Err(SynthesisError::AssignmentMissing);
        }
        match &self.wrap_proof {
            None => Err(SynthesisError::AssignmentMissing),
            Some(snark) => {
                let publics = self.alloc_publics(cs);
                let opening = self.enforce_opening(cs, &publics);
                let pieces = self.enforce_spend(cs, &publics, snark);
                let (entry_nullifier, entry) = self.enforce_entry(cs, &publics);
                let root = cs.new_witness(self.nullifier_root_at_parent_slot);
                let (absent, absence) = verify_nonmembership_var(
                    cs,
                    &root,
                    &entry_nullifier,
                    &self.parent_nonmembership,
                );
                cs.enforce_true(&absent);
                proof {
                    if cs.satisfied() {
                        let w = ReceiptWitness {
                            sk: opening@.0,
                            value: opening@.1,
                            rand: opening@.2,
                            pieces: pieces@,
                            entry: entry@,
                            parent_root: B::fp(root),
                            absence: absence@,
                        };
                        assert(receipt_holds(self.wrap_vk@, publics.values(), w));
                        assert(is_receipt_statement(self.wrap_vk@, publics.values()));
                    }
                }
                Ok(())
            },
        }
    }

    /// The public inputs, in their fixed order.
    pub fn public_inputs(
        owner_pk_x: Fr,
        owner_pk_y: Fr,
        coin_commitment: Fr,
        board_root: Fr,
        received_at: u64,
    ) -> (r: Vec<Fr>)
        ensures
            field::fr_values(r@) == receipt_publics(
                (owner_pk_x@, owner_pk_y@),
                coin_commitment@,
                board_root@,
                received_at as nat,
            ),
            r@.len() == RECEIPT_PUBLIC_INPUT_COUNT,
    {
        let mut r: Vec<Fr> = Vec::new();
        r.push(owner_pk_x);
        r.push(owner_pk_y);
        r.push(coin_commitment);
        r.push(board_root);
        r.push(Fr::from(received_at));
        assert(field::fr_values(r@) =~= receipt_publics(
            (owner_pk_x@, owner_pk_y@),
            coin_commitment@,
            board_root@,
            received_at as nat,
        ));
        r
    }

    /// The circuit without any values, for its shape under the given key for spends. The
    /// proof fills the place of the wrapped one.
    pub fn without_values(wrap_vk: Vec<u8>, filler: Vec<u8>) -> (r: ReceiptStepCircuit)
        ensures
            r == (ReceiptStepCircuit {
                owner_pk_x: None,
                owner_pk_y: None,
                coin_commitment: None,
                board_root: None,
                received_at: None,
                wrap_vk,
                wrap_proof: Some(filler),
                wrap_public_inputs: None,
                entry_nullifier: None,
                entry_output_commitments: None,
                entry_ciphertext_commitment: None,
                received_slot: None,
                append_path: None,
                parent_nonmembership: None,
                nullifier_root_at_parent_slot: None,
                sk_p: None,
                coin_value: None,
                coin_rand: None,
            }),
    {
        ReceiptStepCircuit {
            owner_pk_x: None,
            owner_pk_y: None,
            coin_commitment: None,
            board_root: None,
            received_at: None,
            wrap_vk,
            wrap_proof: Some(filler),
            wrap_public_inputs: None,
            entry_nullifier: None,
            entry_output_commitments: None,
            entry_ciphertext_commitment: None,
            received_slot: None,
            append_path: None,
            parent_nonmembership: None,
            nullifier_root_at_parent_slot: None,
            sk_p: None,
            coin_value: None,
            coin_rand: None,
        }
    }
}

/// Whether a receipt's proof verifies for the given public inputs.
pub fn verify(vk: &[u8], public_inputs: &[Fr], snark: &[u8]) -> (r: Result<bool, SynthesisError>)
    ensures
        r == groth16::mnt4_outcome(vk@, field::fr_values(public_inputs@), snark@),
{
    mnt4_verify(vk, public_inputs, snark)
}

/// Every assignment that satisfies the receipt circuit makes a valid receipt: the receipt
/// relation accepts it for every entry that the circuit's leaf stands for, its board root is
/// the one that the relation computes, and the owner's secret belongs to a coin with the
/// commitment. There is a wrapped proof for the spend that created the coin.
pub proof fn receipt_circuit_enforces_receipt_relation(
    wrap_vk: Seq<u8>,
    publics: Seq<nat>,
    w: ReceiptWitness,
    entry: board::EntryView,
    owner: Option<(nat, nat)>,
)
    requires
        receipt_holds(wrap_vk, publics, w),
        entry.nullifier == w.entry.nullifier,
        entry.output_commitments == w.entry.outputs,
        board::ciphertext_commitment(entry) == w.entry.ciphertext_commitment,
        keys::coordinates(owner) == (publics[0], publics[1]),
    ensures
        relations::receipt_failure(
            publics[2],
            entry,
            w.absence,
            w.parent_root,
            recovered_outputs(w.pieces),
        ) is None,
        groth16::mnt6_provable(wrap_vk, constraints::scalars_of(w.pieces)),
        merkle::path_root(board::entry_leaf(publics[4], entry), publics[4], w.entry.path)
            == publics[3],
        keys::coordinates(keys::owner_point(w.sk)) == keys::coordinates(owner),
        coin::coin_commitment(
            coin::CoinView { value: w.value, rand: w.rand, owner_pk: owner },
        ) == publics[2],
{
}

/// The public inputs of a receipt are the owner's two coordinates, the coin's commitment, the
/// board root and the slot, in this order.
pub proof fn receipt_inputs_are_in_order(
    owner_pk_x: Fr,
    owner_pk_y: Fr,
    coin_commitment: Fr,
    board_root: Fr,
    received_at: u64,
    r: Vec<Fr>,
)
    requires
        call_ensures(
            ReceiptStepCircuit::public_inputs,
            (owner_pk_x, owner_pk_y, coin_commitment, board_root, received_at),
            r,
        ),
    ensures
        r@.len() == 5,
        r@[0]@ == owner_pk_x@,
        r@[1]@ == owner_pk_y@,
        r@[2]@ == coin_commitment@,
        r@[3]@ == board_root@,
        r@[4]@ == received_at,
{
    let values = field::fr_values(r@);
    assert(values[0] == r@[0]@);
    assert(values[1] == r@[1]@);
    assert(values[2] == r@[2]@);
    assert(values[3] == r@[3]@);
    assert(values[4] == r@[4]@);
}

/// Given values satisfy the receipt circuit if and only if the secret is that of the owner's
/// key, the coin of the given value and randomness has the commitment, the wrapped proof
/// verifies for the pieces of the spend's public values, one of that spend's two outputs is the
/// coin, the entry's leaf reaches the board root from the slot, that slot is the public one, one
/// of the entry's outputs is the coin, and the witness shows the entry's nullifier absent.
pub proof fn receipt_circuit_asks_for_these(c: ReceiptStepCircuit)
    requires
        c.is_complete(),
        c.append_path->0@.len() == 32,
        c.parent_nonmembership->0.sibling_path@.len() == 32,
    ensures
        c.relation() <==> {
            let coin = c.coin_commitment->0@;
            let owner = (c.owner_pk_x->0@, c.owner_pk_y->0@);
            let w = c.parent_nonmembership->0;
            &&& keys::coordinates(keys::owner_point(c.sk_p->0@)) == owner
            &&& poseidon::poseidon(
                seq![c.coin_value->0 as nat, c.coin_rand->0@, owner.0, owner.1],
            ) == coin
            &&& groth16::mnt6_outcome(
                c.wrap_vk@,
                circuit_wrap::chunks_of(field::fr_values(c.wrap_public_inputs->0@)),
                c.wrap_proof->0@,
            ) == Ok::<bool, SynthesisError>(true)
            &&& c.wrap_public_inputs->0@[2]@ == coin || c.wrap_public_inputs->0@[3]@ == coin
            &&& merkle::path_root(
                poseidon::poseidon(
                    seq![
                        c.received_slot->0 as nat,
                        c.entry_ciphertext_commitment->0@,
                        c.entry_nullifier->0@,
                        poseidon::poseidon(field::fr_values(c.entry_output_commitments->0@)),
                    ],
                ),
                c.received_slot->0 as nat,
                field::fr_values(c.append_path->0@),
            ) == c.board_root->0@
            &&& c.received_slot->0 == c.received_at->0
            &&& c.entry_output_commitments->0@[0]@ == coin || c.entry_output_commitments->0@[1]@
                == coin
            &&& w.low_leaf.value@ < c.entry_nullifier->0@
            &&& c.entry_nullifier->0@ < w.low_leaf.next_value@
            &&& merkle::path_root(
                poseidon::poseidon(
                    seq![
                        w.low_leaf.value@,
                        w.low_leaf.next_value@,
                        w.low_leaf.next_index as nat,
                    ],
                ),
                w.low_leaf_index as nat,
                field::fr_values(w.sibling_path@),
            ) == c.nullifier_root_at_parent_slot->0@
        },
{
    let coin = c.coin_commitment->0@;
    let path = field::fr_values(c.append_path->0@);
    assert(path.take(32) =~= path);
    let siblings = field::fr_values(c.parent_nonmembership->0.sibling_path@);
    assert(siblings.take(32) =~= siblings);
    lemma_one_of_two(c.spend_outputs(), coin);
    assert(c.spend_outputs()[0] == c.wrap_public_inputs->0@[2]@);
    assert(c.spend_outputs()[1] == c.wrap_public_inputs->0@[3]@);
    let outputs = field::fr_values(c.entry_output_commitments->0@);
    lemma_one_of_two(outputs, coin);
    assert(outputs[0] == c.entry_output_commitments->0@[0]@);
    assert(outputs[1] == c.entry_output_commitments->0@[1]@);
}

proof fn lemma_one_of_two(list: Seq<nat>, x: nat)
    requires
        list.len() == 2,
    ensures
        list.contains(x) == (list[0] == x || list[1] == x),
{
    if list.contains(x) {
        let i = list.index_of(x);
        assert(list[i] == x);
    }
}

/// Verifying a receipt's proof is verifying a proof over MNT4-753.
pub proof fn verifying_a_receipt_is_verifying_its_proof(
    vk: &[u8],
    public_inputs: &[Fr],
    snark: &[u8],
    r: Result<bool, SynthesisError>,
    direct: Result<bool, SynthesisError>,
)
    requires
        call_ensures(verify, (vk, public_inputs, snark), r),
        call_ensures(mnt4_verify, (vk, public_inputs, snark), direct),
    ensures
        r == direct,
{
}

/// Every assignment that satisfies the receipt circuit has a canonical secret of the owner's key,
/// opens the public commitment to a 64-bit value, has an entry that lists the coin and reaches
/// the public root from the public slot, rests on pieces for which there is a wrapped proof and
/// from which the coin is recovered as one of two outputs, and shows the entry's nullifier
/// absent.
pub proof fn receipt_statement_shows_these(wrap_vk: Seq<u8>, publics: Seq<nat>, w: ReceiptWitness)
    requires
        receipt_holds(wrap_vk, publics, w),
    ensures
        publics.len() == 5,
        w.sk < field::owner_modulus(),
        keys::coordinates(keys::owner_point(w.sk)) == (publics[0], publics[1]),
        w.value < pow2(64),
        poseidon::poseidon(seq![w.value, w.rand, publics[0], publics[1]]) == publics[2],
        w.pieces.len() == 24,
        groth16::mnt6_provable(wrap_vk, constraints::scalars_of(w.pieces)),
        circuit_spend::recovered(w.pieces, 2) == publics[2] || circuit_spend::recovered(
            w.pieces,
            3,
        ) == publics[2],
        w.entry.outputs.len() == 2,
        w.entry.outputs[0] == publics[2] || w.entry.outputs[1] == publics[2],
        w.entry.path.len() == 32,
        merkle::path_root(
            poseidon::poseidon(
                seq![
                    publics[4],
                    w.entry.ciphertext_commitment,
                    w.entry.nullifier,
                    poseidon::poseidon(w.entry.outputs),
                ],
            ),
            publics[4],
            w.entry.path,
        ) == publics[3],
        w.absence.low_leaf.value < w.entry.nullifier,
        w.entry.nullifier < w.absence.low_leaf.next_value,
        merkle::path_root(
            poseidon::poseidon(
                seq![
                    w.absence.low_leaf.value,
                    w.absence.low_leaf.next_value,
                    w.absence.low_leaf.next_index,
                ],
            ),
            w.absence.low_leaf_index,
            w.absence.sibling_path,
        ) == w.parent_root,
{
    lemma_one_of_two(recovered_outputs(w.pieces), publics[2]);
    lemma_one_of_two(w.entry.outputs, publics[2]);
}

} // verus!
