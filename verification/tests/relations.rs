use cloakkchain::wallet;
use cloakkchain::wallet::coin;
use cloakkchain::{
    append_path_for_next, append_proof_for, check_coin_receipt, check_spend, decrypt_note,
    derive_enc_pk, derive_owner_pk, encrypt_tx, fold_owner_scalar, genesis_pk, genesis_sk,
    poseidon_hash, scan_entry, BoardEntry, Coin, CoinReceiptPublicValues, Fr, NullifierTree,
    OwnerPk, OwnerScalar, Transaction, ValidPublicValues,
};

const TEST_VKEY: [u32; 8] = [1, 2, 3, 4, 5, 6, 7, 8];
const TEST_COIN_PROOF_VKEY: [u32; 8] = [9, 9, 9, 9, 9, 9, 9, 9];

/// X25519 keypair of a party, used only for encryption.
fn enc_party(seed: u8) -> ([u8; 32], [u8; 32]) {
    let mut sk = [0u8; 32];
    sk[1] = seed;
    let pk = derive_enc_pk(&sk);
    (sk, pk)
}

/// Coin-ownership keypair of a party.
fn owner_party(seed: u8) -> (OwnerScalar, OwnerPk) {
    let sk = OwnerScalar::from((seed as u64) + 100);
    (sk, derive_owner_pk(&sk))
}

fn make_tx(
    id: u64,
    _sender_sk: OwnerScalar,
    sender_enc_sk: [u8; 32],
    input_coins: &[Coin],
    outputs: &[(Coin, OwnerPk, [u8; 32])],
) -> (Transaction, [u8; 32], Vec<[u8; 32]>) {
    let pairs: Vec<(Coin, [u8; 32])> = outputs.iter().map(|(c, _, rpk)| (*c, *rpk)).collect();
    wallet::make_tx(id, sender_enc_sk, input_coins, &pairs)
}

fn enc(
    tx: &Transaction,
    sender_sk: &OwnerScalar,
    recipient_enc_pks: &[[u8; 32]],
    session_key: [u8; 32],
) -> BoardEntry {
    encrypt_tx(tx, sender_sk, recipient_enc_pks, session_key)
}

/// Build a coin's one-shot receipt: `entries[received_slot]` must be the
/// transaction that transfers `coin_commitment` to `owner_pk`. The
/// parent-nullifier non-membership witness/root are derived by replaying
/// all of `entries`' nullifiers up to (excluding) `received_slot` — the
/// board state as it stood just before the creating transaction itself.
/// `spend_pv` holds the public values of the creating transaction's own spend.
fn make_receipt(
    owner_pk: OwnerPk,
    coin_commitment: Fr,
    entries: &[BoardEntry],
    received_slot: usize,
    spend_pv: ValidPublicValues,
) -> Result<CoinReceiptPublicValues, &'static str> {
    let ap = append_proof_for(&entries[..=received_slot]);
    let all_nullifiers: Vec<Fr> = entries.iter().map(|e| e.nullifier).collect();
    let tree = NullifierTree::replay(&all_nullifiers, received_slot);
    let parent_root = tree.root();
    let parent_witness = tree.prove_non_membership(entries[received_slot].nullifier);
    check_coin_receipt(
        TEST_COIN_PROOF_VKEY, owner_pk, coin_commitment,
        entries[received_slot].clone(), received_slot, ap,
        parent_witness, parent_root, spend_pv,
    )
}

/// Spend `coin_commitment` given the board state `prior_entries` (i.e.
/// before `tx_star` is posted). The nullifier non-membership witness and
/// current root are derived by replaying all of `prior_entries`' own
/// nullifiers — the same accumulator state any external verifier could
/// independently rebuild.
fn spend(
    sk: OwnerScalar,
    pk: OwnerPk,
    coin_commitment: Fr,
    prior_entries: &[BoardEntry],
    tx_star: &Transaction,
    input_coins: &[Coin],
    output_coins: &[Coin],
    is_genesis: bool,
    coin_proof: Option<CoinReceiptPublicValues>,
) -> Result<ValidPublicValues, &'static str> {
    let ap = append_path_for_next(prior_entries);
    let all_nullifiers: Vec<Fr> = prior_entries.iter().map(|e| e.nullifier).collect();
    let tree = NullifierTree::replay(&all_nullifiers, prior_entries.len());
    let own_nullifier = poseidon_hash(&[coin_commitment, fold_owner_scalar(&sk)]);
    let witness = tree.prove_non_membership(own_nullifier);
    let root = tree.root();
    check_spend(
        TEST_VKEY, TEST_COIN_PROOF_VKEY, sk, pk, coin_commitment,
        prior_entries.len(), ap, tx_star.clone(),
        input_coins.to_vec(), output_coins.to_vec(),
        is_genesis, coin_proof, witness, root,
    )
}

#[test]
fn encrypt_decrypt_round_trips_for_participants_and_rejects_outsiders() {
    let (alice_enc_sk, alice_enc_pk) = enc_party(1);
    let (bob_enc_sk, _) = enc_party(2);
    let (carol_enc_sk, _) = enc_party(3);
    let (_, alice_pk) = owner_party(1);

    let alice_coin = coin(0xA2, 100, alice_pk);
    let (tx0, sk0, r0) = make_tx(0, genesis_sk(), [0u8; 32],
        &[coin(0xA1, 100, genesis_pk())], &[(alice_coin.clone(), alice_pk, alice_enc_pk)]);
    let entry = enc(&tx0, &genesis_sk(), &r0, sk0);

    // Alice (recipient) can decrypt.
    assert_eq!(scan_entry(&alice_enc_sk, &entry), Some(tx0.clone()));
    // Outsiders cannot.
    assert_eq!(scan_entry(&bob_enc_sk,   &entry), None);
    assert_eq!(scan_entry(&carol_enc_sk, &entry), None);

    // Alice decrypts her note via session_key + index.
    assert_eq!(decrypt_note(&sk0, 0, &tx0.note_encs[0]), Some(alice_coin));
    // Wrong index gives None.
    assert_eq!(decrypt_note(&sk0, 1, &tx0.note_encs[0]), None);
}

#[test]
fn multi_output_tx_each_recipient_sees_only_own_note() {
    let (alice_sk, alice_pk) = owner_party(1);
    let (_, bob_pk) = owner_party(2);
    let (_, bob_enc_pk) = enc_party(2);
    let (_, alice_enc_pk) = enc_party(1);

    let alice_coin   = coin(0xA1, 100, alice_pk);
    let bob_coin     = coin(0xB1,  40, bob_pk);
    let alice_change = coin(0xB2,  60, alice_pk);

    let (tx1, sk1, _) = make_tx(1, alice_sk, [0u8; 32], &[alice_coin],
        &[(bob_coin.clone(), bob_pk, bob_enc_pk), (alice_change.clone(), alice_pk, alice_enc_pk)]);

    // Index 0 → bob_coin, index 1 → alice_change.
    assert_eq!(decrypt_note(&sk1, 0, &tx1.note_encs[0]), Some(bob_coin));
    assert_eq!(decrypt_note(&sk1, 1, &tx1.note_encs[1]), Some(alice_change));
    // Wrong index gives None.
    assert_eq!(decrypt_note(&sk1, 1, &tx1.note_encs[0]), None);
    assert_eq!(decrypt_note(&sk1, 0, &tx1.note_encs[1]), None);
}

#[test]
fn scan_entry_finds_recipient_but_not_outsiders() {
    let (alice_enc_sk, alice_enc_pk) = enc_party(1);
    let (bob_enc_sk, _) = enc_party(2);
    let (carol_enc_sk, _) = enc_party(3);
    let (_, alice_pk) = owner_party(1);

    let (tx0, sk0, r0) = make_tx(0, genesis_sk(), [0u8; 32],
        &[coin(0xA1, 100, genesis_pk())],
        &[(coin(0xA2, 100, alice_pk), alice_pk, alice_enc_pk)]);
    let entry = enc(&tx0, &genesis_sk(), &r0, sk0);

    assert_eq!(scan_entry(&alice_enc_sk, &entry), Some(tx0.clone()));
    assert_eq!(scan_entry(&bob_enc_sk,   &entry), None);
    assert_eq!(scan_entry(&carol_enc_sk, &entry), None);
}

struct Chain {
    entries: Vec<BoardEntry>,
    tx0: Transaction, tx1: Transaction, tx2: Transaction,
    alice_coin: Coin, bob_coin: Coin, alice_change: Coin, carol_coin: Coin, genesis_coin: Coin,
    alice_sk: OwnerScalar, alice_pk: OwnerPk,
    bob_sk: OwnerScalar, bob_pk: OwnerPk,
    carol_pk: OwnerPk,
    pv0: ValidPublicValues,
}

/// Build the standard alice→bob→carol demo chain's board entries and
/// coins, and the genesis spend's public values (needed as `spend_pv`
/// for building Alice's receipt).
fn build_chain() -> Chain {
    let (alice_sk, alice_pk) = owner_party(1);
    let (bob_sk, bob_pk) = owner_party(2);
    let (_, carol_pk) = owner_party(3);
    let (_, alice_enc_pk) = enc_party(1);
    let (_, bob_enc_pk) = enc_party(2);
    let (_, carol_enc_pk) = enc_party(3);

    let genesis_coin = coin(0xA1, 100, genesis_pk());
    let alice_coin   = coin(0xA2, 100, alice_pk);
    let bob_coin     = coin(0xB1,  40, bob_pk);
    let alice_change = coin(0xB2,  60, alice_pk);
    let carol_coin   = coin(0xC1,  40, carol_pk);

    let (tx0, sk0, r0) = make_tx(0, genesis_sk(), [0u8; 32], &[genesis_coin.clone()], &[(alice_coin.clone(), alice_pk, alice_enc_pk)]);
    let (tx1, sk1, r1) = make_tx(1, alice_sk, [0u8; 32], &[alice_coin.clone()], &[(bob_coin.clone(), bob_pk, bob_enc_pk), (alice_change.clone(), alice_pk, alice_enc_pk)]);
    let (tx2, sk2, r2) = make_tx(2, bob_sk, [0u8; 32], &[bob_coin.clone()], &[(carol_coin.clone(), carol_pk, carol_enc_pk)]);
    let entries = vec![
        enc(&tx0, &genesis_sk(), &r0, sk0),
        enc(&tx1, &alice_sk, &r1, sk1),
        enc(&tx2, &bob_sk, &r2, sk2),
    ];

    let pv0 = spend(genesis_sk(), genesis_pk(), genesis_coin.commitment(), &[], &tx0,
        &[genesis_coin.clone()], &[alice_coin.clone()], true, None).unwrap();

    Chain { entries, tx0, tx1, tx2, alice_coin, bob_coin, alice_change, carol_coin, genesis_coin,
        alice_sk, alice_pk, bob_sk, bob_pk, carol_pk, pv0 }
}

#[test]
fn receipt_tracks_correct_received_slot() {
    let c = build_chain();
    let cn_alice = c.alice_coin.commitment();
    let cn_bob = c.bob_coin.commitment();

    let alice_receipt = make_receipt(c.alice_pk, cn_alice, &c.entries, 0, c.pv0.clone()).unwrap();
    assert_eq!(alice_receipt.received_at, 0);

    let alice_spend_pv = spend(c.alice_sk, c.alice_pk, cn_alice, &c.entries[..1], &c.tx1,
        &[c.alice_coin.clone()], &[c.bob_coin.clone(), c.alice_change.clone()], false, Some(alice_receipt)).unwrap();

    let bob_receipt = make_receipt(c.bob_pk, cn_bob, &c.entries, 1, alice_spend_pv).unwrap();
    assert_eq!(bob_receipt.received_at, 1);
    let _ = c.tx2;
}

#[test]
fn coin_proof_tracks_change_as_a_receipt() {
    let c = build_chain();
    let cn_change = c.alice_change.commitment();

    let alice_receipt = make_receipt(c.alice_pk, c.alice_coin.commitment(), &c.entries, 0, c.pv0.clone()).unwrap();
    let alice_spend_pv = spend(c.alice_sk, c.alice_pk, c.alice_coin.commitment(), &c.entries[..1], &c.tx1,
        &[c.alice_coin.clone()], &[c.bob_coin.clone(), c.alice_change.clone()], false, Some(alice_receipt)).unwrap();

    let receipt = make_receipt(c.alice_pk, cn_change, &c.entries, 1, alice_spend_pv).unwrap();
    assert_eq!(receipt.received_at, 1);
}

#[test]
fn demo_chain_is_valid_end_to_end() {
    let c = build_chain();
    let cn_alice = c.alice_coin.commitment();
    let cn_bob = c.bob_coin.commitment();

    let alice_receipt = make_receipt(c.alice_pk, cn_alice, &c.entries, 0, c.pv0).unwrap();
    let pv1 = spend(c.alice_sk, c.alice_pk, cn_alice, &c.entries[..1], &c.tx1,
        &[c.alice_coin.clone()], &[c.bob_coin.clone(), c.alice_change.clone()], false,
        Some(alice_receipt)).unwrap();

    let bob_receipt = make_receipt(c.bob_pk, cn_bob, &c.entries, 1, pv1).unwrap();
    spend(c.bob_sk, c.bob_pk, cn_bob, &c.entries[..2], &c.tx2,
        &[c.bob_coin.clone()], &[c.carol_coin.clone()], false,
        Some(bob_receipt)).unwrap();
    let _ = (c.genesis_coin, c.tx0, c.carol_pk);
}

#[test]
fn rejects_wrong_secret_key() {
    let (alice_sk, _) = owner_party(1);
    let genesis_coin = coin(0xA1, 100, genesis_pk());
    let alice_coin   = coin(0xA2, 100, derive_owner_pk(&alice_sk));
    let (tx0, _, _) = make_tx(0, genesis_sk(), [0u8; 32], &[genesis_coin.clone()], &[(alice_coin.clone(), derive_owner_pk(&alice_sk), [0u8; 32])]);

    let err = spend(alice_sk, genesis_pk(), genesis_coin.commitment(), &[], &tx0,
        &[genesis_coin], &[alice_coin], true, None).unwrap_err();
    assert_eq!(err, "pk_P must be the public key for sk_P");
}

#[test]
fn rejects_minting_without_the_genesis_key() {
    let (alice_sk, alice_pk) = owner_party(1);
    let (_, bob_pk) = owner_party(2);
    let alice_coin = coin(0xA1, 100, alice_pk);
    let bob_coin   = coin(0xB1, 100, bob_pk);
    let (tx0, _, _) = make_tx(0, alice_sk, [0u8; 32], &[alice_coin.clone()], &[(bob_coin.clone(), bob_pk, [0u8; 32])]);

    let err = spend(alice_sk, alice_pk, alice_coin.commitment(), &[], &tx0,
        &[alice_coin], &[bob_coin], true, None).unwrap_err();
    assert_eq!(err, "only the genesis key may mint without provenance");
}

#[test]
fn rejects_building_a_receipt_for_a_coin_never_created() {
    let (_, alice_pk) = owner_party(1);
    let (_, carol_pk) = owner_party(3);

    let genesis_coin     = coin(0xA1, 100, genesis_pk());
    let alice_coin       = coin(0xA2, 100, alice_pk);
    let carol_fake_input = coin(0xC1, 100, carol_pk);

    let (tx0, sk0, r0) = make_tx(0, genesis_sk(), [0u8; 32], &[genesis_coin.clone()], &[(alice_coin, alice_pk, [0u8; 32])]);
    let entries = vec![enc(&tx0, &genesis_sk(), &r0, sk0)];
    let cn_carol = carol_fake_input.commitment();

    let pv0 = spend(genesis_sk(), genesis_pk(), genesis_coin.commitment(), &[], &tx0,
        &[genesis_coin], &[coin(0xA2, 100, alice_pk)], true, None).unwrap();

    // Carol never actually received this coin — entries[0] doesn't create
    // it — so a receipt for it simply cannot be built.
    let err = make_receipt(carol_pk, cn_carol, &entries, 0, pv0).unwrap_err();
    assert_eq!(err, "entry_k does not create coin_commitment");
}

#[test]
fn rejects_receipt_when_creating_transaction_was_itself_a_double_spend() {
    let (alice_sk, alice_pk) = owner_party(1);
    let (_, bob_pk) = owner_party(2);
    let (_, carol_pk) = owner_party(3);

    let genesis_coin = coin(0xA1, 100, genesis_pk());
    let alice_coin   = coin(0xA2, 100, alice_pk);
    let bob_coin     = coin(0xB1, 100, bob_pk);
    let carol_coin   = coin(0xC1, 100, carol_pk);

    let (tx0, sk0, r0) = make_tx(0, genesis_sk(), [0u8; 32], &[genesis_coin.clone()], &[(alice_coin.clone(), alice_pk, [0u8; 32])]);
    // Alice double-spends alice_coin: tx1 and tx2 both claim to spend it
    // (same coin, same key ⇒ identical nullifier for both).
    let (tx1, sk1, r1) = make_tx(1, alice_sk, [0u8; 32], &[alice_coin.clone()], &[(bob_coin, bob_pk, [0u8; 32])]);
    let (tx2, sk2, r2) = make_tx(2, alice_sk, [0u8; 32], &[alice_coin.clone()], &[(carol_coin.clone(), carol_pk, [0u8; 32])]);
    let entries = vec![
        enc(&tx0, &genesis_sk(), &r0, sk0),
        enc(&tx1, &alice_sk, &r1, sk1),
        enc(&tx2, &alice_sk, &r2, sk2),
    ];

    let pv0 = spend(genesis_sk(), genesis_pk(), genesis_coin.commitment(), &[], &tx0,
        &[genesis_coin], &[alice_coin], true, None).unwrap();

    let cn_carol = carol_coin.commitment();
    let err = make_receipt(carol_pk, cn_carol, &entries, 2, pv0).unwrap_err();
    assert_eq!(err, "parent transaction's nullifier was already present on the board — it was a double-spend");
}

#[test]
fn rejects_double_spend() {
    let (alice_sk, alice_pk) = owner_party(1);
    let (bob_sk, bob_pk) = owner_party(2);
    let (_, carol_pk) = owner_party(3);

    let genesis_coin = coin(0xA1, 100, genesis_pk());
    let alice_coin   = coin(0xA2, 100, alice_pk);
    let bob_coin     = coin(0xB1,  60, bob_pk);
    let alice_change = coin(0xB2,  40, alice_pk);
    let carol_coin   = coin(0xC1, 100, carol_pk);

    let cn_alice = alice_coin.commitment();

    let (tx0,  sk0, r0) = make_tx(0, genesis_sk(), [0u8; 32], &[genesis_coin.clone()], &[(alice_coin.clone(), alice_pk, [0u8; 32])]);
    let (tx1,  sk1, r1) = make_tx(1, alice_sk, [0u8; 32], &[alice_coin.clone()], &[(bob_coin.clone(), bob_pk, [0u8; 32]), (alice_change.clone(), alice_pk, [0u8; 32])]);
    let (tx1b, _,   _ ) = make_tx(2, alice_sk, [0u8; 32], &[alice_coin.clone()], &[(carol_coin.clone(), carol_pk, [0u8; 32])]);
    let entries = vec![enc(&tx0, &genesis_sk(), &r0, sk0), enc(&tx1, &alice_sk, &r1, sk1)];

    let pv0 = spend(genesis_sk(), genesis_pk(), genesis_coin.commitment(), &[], &tx0,
        &[genesis_coin], &[alice_coin.clone()], true, None).unwrap();

    let alice_receipt = make_receipt(alice_pk, cn_alice, &entries, 0, pv0).unwrap();
    assert_eq!(alice_receipt.received_at, 0);

    spend(alice_sk, alice_pk, cn_alice, &entries[..1], &tx1,
        &[alice_coin.clone()], &[bob_coin, alice_change], false,
        Some(alice_receipt.clone())).unwrap();

    let err = spend(alice_sk, alice_pk, cn_alice, &entries, &tx1b,
        &[alice_coin], &[carol_coin], false,
        Some(alice_receipt)).unwrap_err();
    assert_eq!(err, "P must not have spent this coin before (double spend)");
    let _ = bob_sk;
}

#[test]
fn rejects_spend_using_a_receipt_for_a_different_coin() {
    let (alice_sk, alice_pk) = owner_party(1);
    let (_, bob_pk) = owner_party(2);

    let genesis_coin = coin(0xA1, 100, genesis_pk());
    let alice_coin   = coin(0xA2, 100, alice_pk);
    let bob_coin     = coin(0xB1,  40, bob_pk);
    let alice_change = coin(0xB2,  60, alice_pk);

    let (tx0, sk0, r0) = make_tx(0, genesis_sk(), [0u8; 32], &[genesis_coin.clone()], &[(alice_coin.clone(), alice_pk, [0u8; 32])]);
    let (tx1, sk1, r1) = make_tx(1, alice_sk, [0u8; 32], &[alice_coin.clone()], &[(bob_coin.clone(), bob_pk, [0u8; 32]), (alice_change.clone(), alice_pk, [0u8; 32])]);
    let entries = vec![enc(&tx0, &genesis_sk(), &r0, sk0), enc(&tx1, &alice_sk, &r1, sk1)];

    let cn_alice  = alice_coin.commitment();
    let cn_change = alice_change.commitment();

    let pv0 = spend(genesis_sk(), genesis_pk(), genesis_coin.commitment(), &[], &tx0,
        &[genesis_coin], &[alice_coin.clone()], true, None).unwrap();
    let alice_receipt = make_receipt(alice_pk, cn_alice, &entries, 0, pv0).unwrap();

    // tx2 legitimately spends alice_change, but we supply the receipt for
    // alice_coin — a different (and already-spent) commitment — instead.
    let payout = coin(0xC1, 60, bob_pk);
    let (tx2, _, _) = make_tx(2, alice_sk, [0u8; 32], &[alice_change.clone()], &[(payout.clone(), bob_pk, [0u8; 32])]);
    let err = spend(alice_sk, alice_pk, cn_change, &entries, &tx2,
        &[alice_change], &[payout], false, Some(alice_receipt)).unwrap_err();
    assert_eq!(err, "coin-proof tracks a different coin");
    let _ = (sk1, r1);
}

#[test]
fn rejects_value_conservation_violation() {
    let (_, alice_pk) = owner_party(1);
    let genesis_coin = coin(0xA1, 100, genesis_pk());
    let alice_coin   = coin(0xA2, 100, alice_pk);
    let extra_coin   = coin(0xA3,   1, alice_pk);

    let (tx0, _, _) = make_tx(0, genesis_sk(), [0u8; 32], &[genesis_coin.clone()],
        &[(alice_coin.clone(), alice_pk, [0u8; 32]), (extra_coin.clone(), alice_pk, [0u8; 32])]);

    let err = spend(genesis_sk(), genesis_pk(), genesis_coin.commitment(), &[], &tx0,
        &[genesis_coin], &[alice_coin, extra_coin], true, None).unwrap_err();
    assert_eq!(err, "transaction violates value conservation: sum(inputs) must equal sum(outputs)");
}

