use cloakkchain::codec::{
    decode_coin, decode_fr_list, decode_transaction, encode_coin, encode_transaction,
};
use cloakkchain::envelope::{
    ek_secret, note_key, own_nullifier, wrapping_key, xor_with_keystream, DH_SALT, EK_SALT,
    MAGIC_TAG, NOTE_MAGIC, NOTE_SALT,
};
use cloakkchain::wallet;
use cloakkchain::wallet::Party;
use cloakkchain::{
    build_note_enc, decrypt_note, derive_enc_pk, derive_owner_pk, encrypt_tx, fold_owner_scalar,
    genesis_pk, owner_pk_to_field_pair, poseidon_hash, recover_session_key, scan_entry, Coin,
    CoinReceiptPublicValues, Fr, OwnerPk, OwnerScalar, Transaction, ValidPublicValues,
};

use ark_ec::{AffineRepr, CurveGroup, PrimeGroup};
use ark_ff::{BigInt, PrimeField};
use ark_serialize::CanonicalSerialize;
use sha2::{Digest, Sha256};
use x25519_dalek::{PublicKey, StaticSecret};

fn sample_tx() -> Transaction {
    Transaction {
        id: 7,
        input_commitments: vec![Fr::from(1u64), Fr::from(2u64)],
        output_commitments: vec![Fr::from(3u64)],
        note_encs: vec![vec![4, 5], vec![]],
        spend_proof: vec![6],
    }
}

fn native(x: &Fr) -> ark_mnt4_753::Fr {
    ark_mnt4_753::Fr::from_bigint(BigInt(x.to_limbs())).unwrap()
}

fn ark_bytes<T: CanonicalSerialize>(value: &T) -> Vec<u8> {
    let mut out = vec![];
    value.serialize_compressed(&mut out).unwrap();
    out
}

#[test]
fn tags_and_salts() {
    assert_eq!(&MAGIC_TAG, b"CLOAKTX1");
    assert_eq!(&NOTE_MAGIC, b"CLOAKNT1");
    assert_eq!(&EK_SALT, b"CLOAKEK1");
    assert_eq!(&DH_SALT, b"CLOAKDH1");
    assert_eq!(&NOTE_SALT, b"CLOAKNT2");
}

#[test]
fn keystream_is_counter_mode_and_its_own_inverse() {
    let key = [9u8; 32];
    let data: Vec<u8> = (0..70u8).collect();
    let out = xor_with_keystream(&key, &data);
    for (i, byte) in out.iter().enumerate() {
        let mut h = Sha256::new();
        h.update(key);
        h.update((i as u64 / 32).to_le_bytes());
        assert_eq!(*byte, data[i] ^ h.finalize()[i % 32]);
    }
    assert_eq!(xor_with_keystream(&key, &out), data);
    assert!(xor_with_keystream(&key, &[]).is_empty());
}

#[test]
fn derived_keys_are_salted_digests() {
    let key = [3u8; 32];
    let digest = |parts: &[&[u8]]| -> [u8; 32] {
        let mut h = Sha256::new();
        for part in parts {
            h.update(part);
        }
        h.finalize().into()
    };
    assert_eq!(ek_secret(&key), digest(&[&key, b"CLOAKEK1"]));
    assert_eq!(wrapping_key(&key), digest(&[&key, b"CLOAKDH1"]));
    assert_eq!(note_key(&key, 5), digest(&[&key, &5u64.to_le_bytes(), b"CLOAKNT2"]));
}

#[test]
fn keys_are_those_of_the_curves() {
    let secret = [8u8; 32];
    assert_eq!(
        derive_enc_pk(&secret),
        *PublicKey::from(&StaticSecret::from(secret)).as_bytes()
    );
    let sk = OwnerScalar::from(1234u64);
    let point =
        (ark_mnt6_753::G1Projective::generator() * ark_mnt6_753::Fr::from(1234u64)).into_affine();
    let (x, y) = owner_pk_to_field_pair(&derive_owner_pk(&sk));
    assert_eq!(point.x().unwrap().into_bigint().0, x.to_limbs());
    assert_eq!(point.y().unwrap().into_bigint().0, y.to_limbs());
    assert_eq!(derive_owner_pk(&OwnerScalar::from(0u64)), OwnerPk::Infinity);
    assert_eq!(
        owner_pk_to_field_pair(&OwnerPk::Infinity),
        (Fr::from(0u64), Fr::from(0u64))
    );
    assert_eq!(derive_owner_pk(&OwnerScalar::from(1u64)), genesis_pk());
}

#[test]
fn commitment_and_nullifier_are_hashes() {
    let sk = OwnerScalar::from(77u64);
    let c = Coin { value: 5, rand: Fr::from(6u64), owner_pk: derive_owner_pk(&sk) };
    let (x, y) = owner_pk_to_field_pair(&c.owner_pk);
    assert_eq!(c.commitment(), poseidon_hash(&[Fr::from(5u64), Fr::from(6u64), x, y]));
    assert_eq!(
        own_nullifier(c.commitment(), &sk),
        poseidon_hash(&[c.commitment(), fold_owner_scalar(&sk)])
    );
}

#[test]
fn a_change_of_any_part_changes_commitment_and_nullifier() {
    let sk = OwnerScalar::from(77u64);
    let other_sk = OwnerScalar::from(78u64);
    let c = Coin { value: 5, rand: Fr::from(6u64), owner_pk: derive_owner_pk(&sk) };
    for other in [
        Coin { value: 6, ..c },
        Coin { rand: Fr::from(5u64), ..c },
        Coin { owner_pk: derive_owner_pk(&other_sk), ..c },
    ] {
        assert_ne!(c.commitment(), other.commitment());
        assert_ne!(own_nullifier(c.commitment(), &sk), own_nullifier(other.commitment(), &sk));
    }
    assert_ne!(own_nullifier(c.commitment(), &sk), own_nullifier(c.commitment(), &other_sk));
    assert_eq!(own_nullifier(c.commitment(), &sk), own_nullifier(c.commitment(), &sk));
}

#[test]
fn transaction_encoding_is_bincode_of_its_parts() {
    let tx = sample_tx();
    let inputs: Vec<ark_mnt4_753::Fr> = tx.input_commitments.iter().map(native).collect();
    let outputs: Vec<ark_mnt4_753::Fr> = tx.output_commitments.iter().map(native).collect();
    let wanted = bincode::serialize(&(
        tx.id,
        ark_bytes(&inputs),
        ark_bytes(&outputs),
        &tx.note_encs,
        &tx.spend_proof,
    ))
    .unwrap();
    assert_eq!(encode_transaction(&tx), wanted);
    assert_eq!(decode_transaction(&wanted), Some(tx.clone()));
    assert_eq!(decode_transaction(&wanted[..wanted.len() - 1]), None);
    assert_eq!(decode_transaction(&[]), None);
}

#[test]
fn coin_encoding_is_bincode_of_its_parts() {
    let c = Coin { value: 5, rand: Fr::from(6u64), owner_pk: genesis_pk() };
    let point = ark_mnt6_753::G1Projective::generator().into_affine();
    let wanted =
        bincode::serialize(&(c.value, ark_bytes(&native(&c.rand)), ark_bytes(&point))).unwrap();
    assert_eq!(encode_coin(&c), wanted);
    assert_eq!(decode_coin(&wanted), Some(c));
    assert_eq!(decode_coin(&wanted[..wanted.len() - 1]), None);
    let far = Coin { owner_pk: derive_owner_pk(&OwnerScalar::from(987u64)), ..c };
    assert_eq!(decode_coin(&encode_coin(&far)), Some(far));
    let nobody = Coin { owner_pk: OwnerPk::Infinity, ..c };
    assert_eq!(decode_coin(&encode_coin(&nobody)), Some(nobody));
    // Any element may stand beside the identity's flag, but no other flag.
    let mut other = encode_coin(&nobody);
    let start = other.len() - 95;
    other[start] = 5;
    assert_eq!(decode_coin(&other), Some(nobody));
    other[start + 94] = 0xc0;
    assert_eq!(decode_coin(&other), None);
    other[start + 94] = 0x7f;
    assert_eq!(decode_coin(&other), None);
}

#[test]
fn element_lists_are_read_back() {
    let elements: Vec<ark_mnt4_753::Fr> = vec![3u64.into(), 4u64.into()];
    let encoded = ark_bytes(&elements);
    assert_eq!(decode_fr_list(&encoded), Some(vec![Fr::from(3u64), Fr::from(4u64)]));
    assert_eq!(decode_fr_list(&encoded[..encoded.len() - 1]), None);
    assert_eq!(decode_fr_list(&[0xff; 8]), None);
    let mut large = encoded.clone();
    for byte in large.iter_mut().skip(8).take(95) {
        *byte = 0xff;
    }
    assert_eq!(decode_fr_list(&large), None);
}

#[test]
fn public_values_encode_as_bincode() {
    let spend = ValidPublicValues {
        vkey: [1, 2, 3, 4, 5, 6, 7, 8],
        board_root: Fr::from(9u64),
        output_commitments: vec![Fr::from(10u64)],
        nullifier_root: Fr::from(11u64),
    };
    let outputs: Vec<ark_mnt4_753::Fr> = vec![10u64.into()];
    let wanted = bincode::serialize(&(
        spend.vkey,
        ark_bytes(&native(&spend.board_root)),
        ark_bytes(&outputs),
        ark_bytes(&native(&spend.nullifier_root)),
    ))
    .unwrap();
    assert_eq!(spend.encode(), wanted);

    let receipt = CoinReceiptPublicValues {
        vkey: [8; 8],
        owner_pk: genesis_pk(),
        coin_commitment: Fr::from(3u64),
        board_root: Fr::from(4u64),
        received_at: 5,
    };
    let point = ark_mnt6_753::G1Projective::generator().into_affine();
    let wanted = bincode::serialize(&(
        receipt.vkey,
        ark_bytes(&point),
        ark_bytes(&native(&receipt.coin_commitment)),
        ark_bytes(&native(&receipt.board_root)),
        receipt.received_at,
    ))
    .unwrap();
    assert_eq!(receipt.encode(), wanted);
}

#[test]
fn recipients_recover_the_session_key() {
    let alice = Party::new("Alice", 1);
    let bob = Party::new("Bob", 2);
    let carol = Party::new("Carol", 3);
    let input = wallet::coin(1, 10, alice.pk_p);
    let outputs = [
        (wallet::coin(2, 4, bob.pk_p), bob.enc_pk),
        (wallet::coin(3, 6, alice.pk_p), alice.enc_pk),
    ];
    let (tx, key, recipients) = wallet::make_tx(0, alice.enc_sk, &[input], &outputs);
    let entry = encrypt_tx(&tx, &alice.sk_p, &recipients, key);
    for party in [&alice, &bob] {
        assert_eq!(recover_session_key(&party.enc_sk, &entry), Some(key));
        assert_eq!(scan_entry(&party.enc_sk, &entry), Some(tx.clone()));
    }
    assert_eq!(recover_session_key(&carol.enc_sk, &entry), None);
    assert_eq!(entry.nullifier, own_nullifier(input.commitment(), &alice.sk_p));
    assert_eq!(entry.output_commitments, tx.output_commitments);
    assert!(tx.receives_coin(&outputs[0].0.commitment()));
    assert!(!tx.receives_coin(&input.commitment()));
    assert!(tx.spends_coin(&input.commitment()));
    assert!(!tx.spends_coin(&outputs[0].0.commitment()));
}

#[test]
fn attaching_a_proof_keeps_the_keys() {
    let alice = Party::new("Alice", 1);
    let input = wallet::coin(1, 10, alice.pk_p);
    let outputs = [(wallet::coin(2, 10, alice.pk_p), alice.enc_pk)];
    let (tx, key, recipients) = wallet::make_tx(0, alice.enc_sk, &[input], &outputs);
    let before = encrypt_tx(&tx, &alice.sk_p, &recipients, key);
    let proven = Transaction { spend_proof: vec![1, 2, 3], ..tx };
    let after = encrypt_tx(&proven, &alice.sk_p, &recipients, key);
    assert_eq!(after.ek_pk, before.ek_pk);
    assert_eq!(after.key_encs, before.key_encs);
    assert_eq!(after.nullifier, before.nullifier);
    assert_ne!(after.ciphertext, before.ciphertext);
    assert_eq!(scan_entry(&alice.enc_sk, &after), Some(proven));
}

#[test]
fn notes_open_with_their_own_key_and_index() {
    let c = wallet::coin(5, 10, genesis_pk());
    let key = [1u8; 32];
    let note = build_note_enc(&key, 3, &c);
    assert_eq!(decrypt_note(&key, 3, &note), Some(c));
    assert_eq!(decrypt_note(&key, 2, &note), None);
    assert_eq!(decrypt_note(&[2u8; 32], 3, &note), None);
    assert_eq!(decrypt_note(&key, 3, &note[..8]), None);
}
