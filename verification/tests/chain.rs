use ark_ff::{BigInt, PrimeField};
use ark_groth16::{Groth16, ProvingKey};
use ark_mnt4_753::MNT4_753;
use ark_mnt6_753::MNT6_753;
use ark_relations::r1cs::{
    ConstraintSynthesizer, ConstraintSystemRef, LinearCombination, Variable,
};
use ark_serialize::CanonicalSerialize;
use ark_snark::SNARK;
use ark_std::rand::rngs::StdRng;
use ark_std::rand::SeedableRng;
use cloakkchain::circuit_coinproof;
use cloakkchain::circuit_coinproof::ReceiptStepCircuit;
use cloakkchain::circuit_spend;
use cloakkchain::circuit_spend::{GenesisSpendCircuit, SpendStepCircuit};
use cloakkchain::circuit_wrap::{public_input_chunks, EvaluatingWrapSystem, WrapCircuit};
use cloakkchain::cli::StepKind;
use cloakkchain::constraints::EvaluatingSystem;
use cloakkchain::scenario::{
    check_mint, demo_hops, grid_cell_hops, Chain, Hop, Phase, StepCircuit,
};
use cloakkchain::wallet;
use cloakkchain::wallet::{pad_outputs, Party};
use cloakkchain::{
    append_path_for_next, compute_root_from_path, derive_owner_pk, entry_ciphertext_commitment,
    fold_owner_scalar, genesis_pk, genesis_sk, merkle_leaf, merkle_root_of, owner_pk_to_field_pair,
    poseidon_hash, BoardEntry, Coin, Fr, NullifierTree, OwnerScalar,
};

/// A circuit with the given public inputs and nothing to show of them.
#[derive(Clone)]
struct Open<F: PrimeField> {
    inputs: Vec<F>,
}

impl<F: PrimeField> ConstraintSynthesizer<F> for Open<F> {
    fn generate_constraints(
        self,
        cs: ConstraintSystemRef<F>,
    ) -> Result<(), ark_relations::r1cs::SynthesisError> {
        for x in self.inputs {
            let public = cs.new_input_variable(|| Ok(x))?;
            let private = cs.new_witness_variable(|| Ok(x))?;
            cs.enforce_constraint(
                LinearCombination::from(private),
                LinearCombination::from(Variable::One),
                LinearCombination::from(public),
            )?;
        }
        Ok(())
    }
}

fn bytes<T: CanonicalSerialize>(value: &T) -> Vec<u8> {
    let mut out = vec![];
    value.serialize_compressed(&mut out).unwrap();
    out
}

fn native4(x: &Fr) -> ark_mnt4_753::Fr {
    ark_mnt4_753::Fr::from_bigint(BigInt(x.to_limbs())).unwrap()
}

/// A key and a proof over MNT4-753 for the given public inputs.
fn stand_in4(publics: &[Fr]) -> (Vec<u8>, Vec<u8>) {
    let mut rng = StdRng::seed_from_u64(1);
    let circuit = Open { inputs: publics.iter().map(native4).collect() };
    let pk: ProvingKey<MNT4_753> =
        Groth16::<MNT4_753>::generate_random_parameters_with_reduction(circuit.clone(), &mut rng)
            .unwrap();
    let snark = Groth16::<MNT4_753>::prove(&pk, circuit, &mut rng).unwrap();
    (bytes(&pk.vk), bytes(&snark))
}

/// A key and a proof over MNT6-753 for the given public inputs.
fn stand_in6(publics: &[OwnerScalar]) -> (Vec<u8>, Vec<u8>) {
    let mut rng = StdRng::seed_from_u64(2);
    let native = |x: &OwnerScalar| ark_mnt6_753::Fr::from_bigint(BigInt(x.to_limbs())).unwrap();
    let circuit = Open { inputs: publics.iter().map(native).collect() };
    let pk: ProvingKey<MNT6_753> =
        Groth16::<MNT6_753>::generate_random_parameters_with_reduction(circuit.clone(), &mut rng)
            .unwrap();
    let snark = Groth16::<MNT6_753>::prove(&pk, circuit, &mut rng).unwrap();
    (bytes(&pk.vk), bytes(&snark))
}

/// Evaluate a step's circuit, and prove its public inputs.
fn prove(step: StepCircuit) -> (bool, Vec<u8>, Vec<u8>) {
    match step {
        StepCircuit::Mint(circuit) => {
            let mut cs = EvaluatingSystem::new();
            circuit.generate_constraints(&mut cs).unwrap();
            let (vk, snark) = stand_in4(&cs.public_inputs());
            (cs.is_satisfied(), vk, snark)
        }
        StepCircuit::Spend(circuit) => {
            let mut cs = EvaluatingSystem::new();
            circuit.generate_constraints(&mut cs).unwrap();
            let (vk, snark) = stand_in4(&cs.public_inputs());
            (cs.is_satisfied(), vk, snark)
        }
        StepCircuit::Receipt(circuit) => {
            let mut cs = EvaluatingSystem::new();
            circuit.generate_constraints(&mut cs).unwrap();
            let (vk, snark) = stand_in4(&cs.public_inputs());
            (cs.is_satisfied(), vk, snark)
        }
        StepCircuit::WrapSpend(circuit) => {
            let mut cs = EvaluatingWrapSystem::new();
            circuit.generate_constraints(&mut cs).unwrap();
            let (vk, snark) = stand_in6(&cs.public_inputs());
            (cs.is_satisfied(), vk, snark)
        }
        StepCircuit::WrapReceipt(circuit) => {
            let mut cs = EvaluatingWrapSystem::new();
            circuit.generate_constraints(&mut cs).unwrap();
            let (vk, snark) = stand_in6(&cs.public_inputs());
            (cs.is_satisfied(), vk, snark)
        }
    }
}

/// Evaluate a circuit, which must hold, and prove its public inputs.
fn proved(step: StepCircuit) -> (Vec<u8>, Vec<u8>) {
    let (satisfied, vk, snark) = prove(step);
    assert!(satisfied);
    (vk, snark)
}

fn empty_entry(nullifier: Fr, outputs: [Fr; 2]) -> BoardEntry {
    BoardEntry {
        ciphertext: vec![],
        ek_pk: [0u8; 32],
        key_encs: vec![],
        nullifier,
        output_commitments: outputs.to_vec(),
    }
}

#[test]
fn genesis_alice_change_then_bob_to_carol() {
    // Genesis mints 100 to Alice.
    let sk_genesis = genesis_sk();
    let pk_genesis = derive_owner_pk(&sk_genesis);
    let genesis_input = Coin { value: 100, rand: Fr::from(2u64), owner_pk: pk_genesis };
    let alice_sk = OwnerScalar::from(42u64);
    let alice_pk = derive_owner_pk(&alice_sk);
    let alice_coin = Coin { value: 100, rand: Fr::from(4u64), owner_pk: alice_pk };

    let alice_commitment = alice_coin.commitment();
    let genesis_slot = 0u64;
    let genesis_append_path = append_path_for_next(&[]);
    let genesis_board_root =
        compute_root_from_path(Fr::from(0u64), genesis_slot as usize, &genesis_append_path);
    let genesis_own_nullifier =
        poseidon_hash(&[genesis_input.commitment(), fold_owner_scalar(&sk_genesis)]);
    let empty_tree = NullifierTree::new();

    let genesis_outputs = pad_outputs(&[alice_commitment]);
    let genesis_circuit = GenesisSpendCircuit {
        pk_p: Some(pk_genesis),
        output_commitments: Some(genesis_outputs),
        board_root: Some(genesis_board_root),
        current_nullifier_root: Some(empty_tree.root()),
        sk_p: Some(sk_genesis),
        input_coins: [Some(genesis_input), None],
        output_coins: [Some(alice_coin), None],
        entry_position: Some(genesis_slot),
        append_path: Some(genesis_append_path.clone()),
        own_nullifier_nonmembership: [
            Some(empty_tree.prove_non_membership(genesis_own_nullifier)),
            None,
        ],
    };
    let genesis_public_inputs: [Fr; 6] = GenesisSpendCircuit::public_inputs(
        pk_genesis,
        genesis_outputs,
        genesis_board_root,
        empty_tree.root(),
    )
    .try_into()
    .unwrap();
    let (genesis_vk, genesis_proof) = proved(StepCircuit::Mint(genesis_circuit));
    assert_eq!(
        circuit_spend::verify(&genesis_vk, &genesis_public_inputs, &genesis_proof),
        Ok(true)
    );
    let (wrap_genesis_vk, wrap_genesis_proof) = proved(StepCircuit::WrapSpend(WrapCircuit {
        inner_vk: genesis_vk,
        inner_proof: Some(genesis_proof),
        inner_public_inputs: Some(genesis_public_inputs),
    }));

    // Alice's receipt.
    let genesis_entry = empty_entry(genesis_own_nullifier, genesis_outputs);
    let alice_receipt_board_root = compute_root_from_path(
        merkle_leaf(genesis_slot as usize, &genesis_entry),
        genesis_slot as usize,
        &genesis_append_path,
    );
    let (apx, apy) = owner_pk_to_field_pair(&alice_pk);
    let alice_receipt_circuit = ReceiptStepCircuit {
        owner_pk_x: Some(apx),
        owner_pk_y: Some(apy),
        coin_commitment: Some(alice_commitment),
        board_root: Some(alice_receipt_board_root),
        received_at: Some(genesis_slot),
        wrap_vk: wrap_genesis_vk,
        wrap_proof: Some(wrap_genesis_proof),
        wrap_public_inputs: Some(genesis_public_inputs),
        entry_nullifier: Some(genesis_own_nullifier),
        entry_output_commitments: Some(genesis_outputs),
        entry_ciphertext_commitment: Some(entry_ciphertext_commitment(&genesis_entry)),
        received_slot: Some(genesis_slot),
        append_path: Some(genesis_append_path),
        parent_nonmembership: Some(empty_tree.prove_non_membership(genesis_own_nullifier)),
        nullifier_root_at_parent_slot: Some(empty_tree.root()),
        sk_p: Some(alice_sk),
        coin_value: Some(alice_coin.value),
        coin_rand: Some(alice_coin.rand),
    };
    let alice_receipt_public_inputs: [Fr; 5] = ReceiptStepCircuit::public_inputs(
        apx,
        apy,
        alice_commitment,
        alice_receipt_board_root,
        genesis_slot,
    )
    .try_into()
    .unwrap();
    let (alice_receipt_vk, alice_receipt_proof) =
        proved(StepCircuit::Receipt(alice_receipt_circuit));
    assert_eq!(
        circuit_coinproof::verify(
            &alice_receipt_vk,
            &alice_receipt_public_inputs,
            &alice_receipt_proof
        ),
        Ok(true)
    );
    let (wrap_alice_receipt_vk, wrap_alice_receipt_proof) =
        proved(StepCircuit::WrapReceipt(WrapCircuit {
            inner_vk: alice_receipt_vk,
            inner_proof: Some(alice_receipt_proof),
            inner_public_inputs: Some(alice_receipt_public_inputs),
        }));

    // Alice spends: 40 to Bob, 60 in change to herself.
    let bob_sk = OwnerScalar::from(7u64);
    let bob_pk = derive_owner_pk(&bob_sk);
    let bob_coin = Coin { value: 40, rand: Fr::from(6u64), owner_pk: bob_pk };
    let change_coin = Coin { value: 60, rand: Fr::from(8u64), owner_pk: alice_pk };
    let bob_commitment = bob_coin.commitment();

    let alice_spend_slot = 1u64;
    let alice_spend_append_path = append_path_for_next(std::slice::from_ref(&genesis_entry));
    let alice_spend_board_root = compute_root_from_path(
        Fr::from(0u64),
        alice_spend_slot as usize,
        &alice_spend_append_path,
    );
    let alice_own_nullifier = poseidon_hash(&[alice_commitment, fold_owner_scalar(&alice_sk)]);
    let mut tree_after_genesis = NullifierTree::new();
    tree_after_genesis.insert(genesis_own_nullifier);

    let alice_spend_outputs = pad_outputs(&[bob_commitment, change_coin.commitment()]);
    let alice_spend_circuit = SpendStepCircuit {
        pk_p: Some(alice_pk),
        output_commitments: Some(alice_spend_outputs),
        board_root: Some(alice_spend_board_root),
        current_nullifier_root: Some(tree_after_genesis.root()),
        sk_p: Some(alice_sk),
        input_coins: [Some(alice_coin), None],
        output_coins: [Some(bob_coin), Some(change_coin)],
        entry_position: Some(alice_spend_slot),
        append_path: Some(alice_spend_append_path.clone()),
        own_nullifier_nonmembership: [
            Some(tree_after_genesis.prove_non_membership(alice_own_nullifier)),
            None,
        ],
        wrap_vk: wrap_alice_receipt_vk,
        input_receipt_proofs: [
            Some(wrap_alice_receipt_proof),
            Some(SpendStepCircuit::dummy_wrap_proof()),
        ],
        input_receipt_public_inputs: [Some(alice_receipt_public_inputs), None],
    };
    let alice_spend_public_inputs: [Fr; 6] = SpendStepCircuit::public_inputs(
        alice_pk,
        alice_spend_outputs,
        alice_spend_board_root,
        tree_after_genesis.root(),
    )
    .try_into()
    .unwrap();
    let (alice_spend_vk, alice_spend_proof) = proved(StepCircuit::Spend(alice_spend_circuit));
    assert_eq!(
        circuit_spend::verify_non_genesis(
            &alice_spend_vk,
            &alice_spend_public_inputs,
            &alice_spend_proof
        ),
        Ok(true)
    );
    let (wrap_alice_spend_vk, wrap_alice_spend_proof) =
        proved(StepCircuit::WrapSpend(WrapCircuit {
            inner_vk: alice_spend_vk,
            inner_proof: Some(alice_spend_proof),
            inner_public_inputs: Some(alice_spend_public_inputs),
        }));

    // Bob's receipt, of a wrapped spend.
    let alice_spend_entry = empty_entry(alice_own_nullifier, alice_spend_outputs);
    let bob_receipt_board_root = compute_root_from_path(
        merkle_leaf(alice_spend_slot as usize, &alice_spend_entry),
        alice_spend_slot as usize,
        &alice_spend_append_path,
    );
    let (bpx, bpy) = owner_pk_to_field_pair(&bob_pk);
    let bob_receipt_circuit = ReceiptStepCircuit {
        owner_pk_x: Some(bpx),
        owner_pk_y: Some(bpy),
        coin_commitment: Some(bob_commitment),
        board_root: Some(bob_receipt_board_root),
        received_at: Some(alice_spend_slot),
        wrap_vk: wrap_alice_spend_vk,
        wrap_proof: Some(wrap_alice_spend_proof),
        wrap_public_inputs: Some(alice_spend_public_inputs),
        entry_nullifier: Some(alice_own_nullifier),
        entry_output_commitments: Some(alice_spend_outputs),
        entry_ciphertext_commitment: Some(entry_ciphertext_commitment(&alice_spend_entry)),
        received_slot: Some(alice_spend_slot),
        append_path: Some(alice_spend_append_path),
        parent_nonmembership: Some(tree_after_genesis.prove_non_membership(alice_own_nullifier)),
        nullifier_root_at_parent_slot: Some(tree_after_genesis.root()),
        sk_p: Some(bob_sk),
        coin_value: Some(bob_coin.value),
        coin_rand: Some(bob_coin.rand),
    };
    let bob_receipt_public_inputs: [Fr; 5] = ReceiptStepCircuit::public_inputs(
        bpx,
        bpy,
        bob_commitment,
        bob_receipt_board_root,
        alice_spend_slot,
    )
    .try_into()
    .unwrap();
    let (bob_receipt_vk, bob_receipt_proof) = proved(StepCircuit::Receipt(bob_receipt_circuit));
    assert_eq!(
        circuit_coinproof::verify(&bob_receipt_vk, &bob_receipt_public_inputs, &bob_receipt_proof),
        Ok(true)
    );
    let (wrap_bob_receipt_vk, wrap_bob_receipt_proof) =
        proved(StepCircuit::WrapReceipt(WrapCircuit {
            inner_vk: bob_receipt_vk,
            inner_proof: Some(bob_receipt_proof),
            inner_public_inputs: Some(bob_receipt_public_inputs),
        }));

    // Bob spends his 40 units to Carol.
    let carol_sk = OwnerScalar::from(13u64);
    let carol_pk = derive_owner_pk(&carol_sk);
    let carol_coin = Coin { value: 40, rand: Fr::from(10u64), owner_pk: carol_pk };

    let bob_spend_slot = 2u64;
    let bob_spend_append_path = append_path_for_next(&[genesis_entry, alice_spend_entry]);
    let bob_spend_board_root =
        compute_root_from_path(Fr::from(0u64), bob_spend_slot as usize, &bob_spend_append_path);
    let bob_own_nullifier = poseidon_hash(&[bob_commitment, fold_owner_scalar(&bob_sk)]);
    let mut tree_after_alice_spend = tree_after_genesis.clone();
    tree_after_alice_spend.insert(alice_own_nullifier);

    let bob_spend_outputs = pad_outputs(&[carol_coin.commitment()]);
    let bob_spend_circuit = SpendStepCircuit {
        pk_p: Some(bob_pk),
        output_commitments: Some(bob_spend_outputs),
        board_root: Some(bob_spend_board_root),
        current_nullifier_root: Some(tree_after_alice_spend.root()),
        sk_p: Some(bob_sk),
        input_coins: [Some(bob_coin), None],
        output_coins: [Some(carol_coin), None],
        entry_position: Some(bob_spend_slot),
        append_path: Some(bob_spend_append_path),
        own_nullifier_nonmembership: [
            Some(tree_after_alice_spend.prove_non_membership(bob_own_nullifier)),
            None,
        ],
        wrap_vk: wrap_bob_receipt_vk,
        input_receipt_proofs: [
            Some(wrap_bob_receipt_proof),
            Some(SpendStepCircuit::dummy_wrap_proof()),
        ],
        input_receipt_public_inputs: [Some(bob_receipt_public_inputs), None],
    };
    let bob_spend_public_inputs = SpendStepCircuit::public_inputs(
        bob_pk,
        bob_spend_outputs,
        bob_spend_board_root,
        tree_after_alice_spend.root(),
    );
    let (bob_spend_vk, bob_spend_proof) = proved(StepCircuit::Spend(bob_spend_circuit));
    assert_eq!(
        circuit_spend::verify_non_genesis(
            &bob_spend_vk,
            &bob_spend_public_inputs,
            &bob_spend_proof
        ),
        Ok(true),
        "the full genesis->Alice(+change)->Bob->Carol chain must verify end to end"
    );

    let mut tampered = bob_spend_public_inputs.clone();
    let next = native4(&tampered[2]) + ark_mnt4_753::Fr::from(1u64);
    tampered[2] = Fr::from_limbs(next.into_bigint().0).unwrap();
    assert_eq!(
        circuit_spend::verify_non_genesis(&bob_spend_vk, &tampered, &bob_spend_proof),
        Ok(false)
    );
}

/// Prove every step of a plan. Returns the kinds of the steps and the sizes of the board.
fn run(chain: &mut Chain) -> (Vec<StepKind>, Vec<usize>) {
    let mut kinds = vec![];
    let mut sizes = vec![];
    while let Some(step) = chain.pending() {
        kinds.push(StepKind::of(&step));
        sizes.push(chain.row_board_size());
        let (vk, snark) = proved(step);
        assert_eq!(chain.proved(vk, snark), Ok(()));
    }
    assert_eq!(chain.phase, Phase::Done);
    (kinds, sizes)
}

#[test]
fn demonstration_takes_nine_proofs_in_order() {
    let mut chain = Chain::new(demo_hops()).unwrap();
    let (kinds, sizes) = run(&mut chain);
    let names: Vec<&str> = kinds.iter().map(|kind| kind.name()).collect();
    assert_eq!(
        names,
        vec![
            "genesis",
            "wrap6",
            "receipt",
            "wrap5",
            "spend_non_genesis",
            "wrap6",
            "receipt",
            "wrap5",
            "spend_non_genesis"
        ]
    );
    assert_eq!(sizes, vec![1, 1, 1, 1, 2, 2, 2, 2, 3]);
    assert_eq!(chain.ledger.entries.len(), 3);
    let hops = demo_hops();
    assert_eq!(
        chain.ledger.entries[1].output_commitments,
        vec![hops[1].outputs[0].0.commitment(), hops[1].outputs[1].0.commitment()]
    );
    assert!(chain.received.is_empty());
    assert_eq!(chain.proved(vec![], vec![]), Err("the chain is complete"));
}

#[test]
fn every_slot_of_a_spend_can_be_in_use() {
    let mut chain = Chain::new(grid_cell_hops()).unwrap();
    let (kinds, sizes) = run(&mut chain);
    assert_eq!(
        kinds,
        vec![
            StepKind::Genesis,
            StepKind::WrapSpend,
            StepKind::Receipt,
            StepKind::WrapReceipt,
            StepKind::Genesis,
            StepKind::WrapSpend,
            StepKind::Receipt,
            StepKind::WrapReceipt,
            StepKind::SpendNonGenesis
        ]
    );
    assert_eq!(sizes, vec![1, 1, 1, 1, 2, 2, 2, 2, 3]);
    assert_eq!(chain.ledger.entries.len(), 2);
}

#[test]
fn plans_encrypt_each_coin_to_its_owner() {
    for hops in [demo_hops(), grid_cell_hops()] {
        for hop in hops {
            assert_eq!(hop.outputs[0].1, hop.receiver.enc_pk);
            assert_eq!(hop.outputs[0].0.owner_pk, hop.receiver.pk_p);
            if hop.outputs.len() == 2 {
                assert_eq!(hop.outputs[1].1, hop.spender.enc_pk);
                assert_eq!(hop.outputs[1].0.owner_pk, hop.spender.pk_p);
            }
        }
    }
    let receipts: Vec<bool> = demo_hops().iter().map(|hop| hop.builds_receipt).collect();
    assert_eq!(receipts, vec![true, true, false]);
}

#[test]
fn a_proof_of_something_else_is_refused() {
    let mut chain = Chain::new(demo_hops()).unwrap();
    let (vk, snark) = stand_in4(&[Fr::from(1u64); 6]);
    let root = merkle_root_of(&chain.ledger.entries);
    assert_eq!(chain.proved(vk, snark), Err("the spend proof does not verify"));
    assert_eq!(chain.phase, Phase::Spend);
    assert_eq!(merkle_root_of(&chain.ledger.entries), root);

    let (_, vk, snark) = prove(chain.pending().unwrap());
    assert_eq!(chain.proved(vk, snark), Ok(()));
    assert_eq!(chain.phase, Phase::WrapSpend);
    assert_eq!(chain.proved(vec![], vec![]), Err("the wrapped spend proof does not verify"));
    let (_, vk, snark) = prove(chain.pending().unwrap());
    assert_eq!(chain.proved(vk, snark), Ok(()));
    assert_eq!(chain.proved(vec![], vec![]), Err("the receipt proof does not verify"));
    let (_, vk, snark) = prove(chain.pending().unwrap());
    assert_eq!(chain.proved(vk, snark), Ok(()));
    assert_eq!(chain.proved(vec![], vec![]), Err("the wrapped receipt proof does not verify"));
}

#[test]
fn unsound_plans_are_refused() {
    let mut hops = demo_hops();
    hops[0].outputs.clear();
    assert!(Chain::new(hops).is_none());
    let mut hops = demo_hops();
    hops[1].posts = false;
    assert!(Chain::new(hops).is_none());
    let chain = Chain::new(vec![]).unwrap();
    assert_eq!(chain.phase, Phase::Done);

    // A spend of coins that nobody received.
    let hops: Vec<Hop> = demo_hops().into_iter().skip(1).collect();
    let mut chain = Chain::new(hops).unwrap();
    assert!(chain.pending().is_none());
    assert_eq!(chain.proved(vec![], vec![]), Err("there is no coin to spend"));
}

#[test]
fn a_receiver_without_the_key_is_refused() {
    let mut hops = demo_hops();
    hops[0].receiver = Party::new("Dave", 9);
    let mut chain = Chain::new(hops).unwrap();
    let (_, vk, snark) = prove(chain.pending().unwrap());
    assert_eq!(chain.proved(vk, snark), Err("the receiver cannot decrypt the entry"));
    assert_eq!(chain.ledger.entries.len(), 0);
}

#[test]
fn mint_is_checked_without_a_proof() {
    let genesis = Party::genesis();
    let alice = Party::new("Alice", 1);
    let input = wallet::coin(0xA1, 100, genesis.pk_p);
    let output = wallet::coin(0xA2, 100, alice.pk_p);
    assert_eq!(check_mint(&genesis, &input, &output), Some(true));
    let dearer = wallet::coin(0xA2, 101, alice.pk_p);
    assert_eq!(check_mint(&genesis, &input, &dearer), Some(false));
    let foreign = wallet::coin(0xA1, 100, alice.pk_p);
    assert_eq!(check_mint(&alice, &foreign, &output), Some(false));
}

#[test]
fn a_second_mint_of_the_same_coin_fails() {
    let hops = demo_hops();
    let twice: Vec<Hop> = vec![hops[0].clone(), hops[0].clone()];
    let mut chain = Chain::new(twice).unwrap();
    for _ in 0..4 {
        let (satisfied, vk, snark) = prove(chain.pending().unwrap());
        assert!(satisfied);
        assert_eq!(chain.proved(vk, snark), Ok(()));
    }
    let (satisfied, _, _) = prove(chain.pending().unwrap());
    assert!(!satisfied);
}

#[test]
fn a_receipt_for_another_coin_does_not_back_a_spend() {
    let mut chain = Chain::new(demo_hops()).unwrap();
    for _ in 0..4 {
        let (_, vk, snark) = prove(chain.pending().unwrap());
        assert_eq!(chain.proved(vk, snark), Ok(()));
    }
    let circuit = match chain.pending().unwrap() {
        StepCircuit::Spend(circuit) => circuit,
        _ => unreachable!(),
    };
    let mut publics = circuit.input_receipt_public_inputs[0].unwrap();
    publics[2] = Fr::from(1u64);
    let (wrap_vk, snark) = stand_in6(&public_input_chunks(&publics));
    let forged = SpendStepCircuit {
        wrap_vk,
        input_receipt_proofs: [Some(snark), None],
        input_receipt_public_inputs: [Some(publics), None],
        ..circuit.clone()
    };
    assert!(!prove(StepCircuit::Spend(forged)).0);
    let without = SpendStepCircuit { input_receipt_proofs: [None, None], ..circuit };
    assert!(!prove(StepCircuit::Spend(without)).0);
}

#[test]
fn parties_and_coins_come_from_seeds() {
    let alice = Party::new("Alice", 1);
    let mut secret = [0u8; 32];
    secret[1] = 1;
    assert_eq!(alice.name, "Alice");
    assert_eq!(alice.enc_sk, secret);
    assert_eq!(alice.sk_p, OwnerScalar::from(101u64));
    let genesis = Party::genesis();
    assert_eq!(genesis.name, "Genesis");
    assert_eq!(genesis.pk_p, genesis_pk());
    assert_eq!(genesis.enc_sk, [0u8; 32]);
    let c = wallet::coin(0xA1, 100, alice.pk_p);
    assert_eq!(c.rand, Fr::from(1161u64));
    assert_eq!(c.value, 100);
}

#[test]
fn padding_fills_with_zeros() {
    let one = Fr::from(1u64);
    let zero = Fr::from(0u64);
    assert_eq!(pad_outputs(&[]), [zero, zero]);
    assert_eq!(pad_outputs(&[one]), [one, zero]);
    assert_eq!(pad_outputs(&[one, one]), [one, one]);
    assert_eq!(poseidon_hash(&[one]), poseidon_hash(&pad_outputs(&[one])));
}

#[test]
fn public_inputs_of_both_spends_have_the_same_order() {
    let genesis = Party::genesis();
    let outputs = [Fr::from(3u64), Fr::from(4u64)];
    let a = GenesisSpendCircuit::public_inputs(
        genesis.pk_p,
        outputs,
        Fr::from(5u64),
        Fr::from(6u64),
    );
    let b =
        SpendStepCircuit::public_inputs(genesis.pk_p, outputs, Fr::from(5u64), Fr::from(6u64));
    assert_eq!(a, b);
    assert_eq!(a.len(), 6);
    let r = ReceiptStepCircuit::public_inputs(
        Fr::from(1u64),
        Fr::from(2u64),
        Fr::from(3u64),
        Fr::from(4u64),
        5,
    );
    let wanted: Vec<Fr> = (1..6u64).map(Fr::from).collect();
    assert_eq!(r, wanted);
}
