use cloakkchain::merkle::{merkle_path_for_index, zero_hashes};
use cloakkchain::poseidon::Hasher;
use cloakkchain::{
    append_path_for_next, append_proof_for, compute_root_from_path, empty_root,
    entry_ciphertext_commitment, merkle_leaf, merkle_leaf_from_commitment, merkle_root_of,
    merkle_verify, poseidon_hash, poseidon_hash_bytes, BoardEntry, Fr, TREE_DEPTH,
};

fn entry(seed: u64) -> BoardEntry {
    BoardEntry {
        ciphertext: vec![seed as u8; 40],
        ek_pk: [seed as u8; 32],
        key_encs: vec![[1u8; 32], [seed as u8; 32]],
        nullifier: Fr::from(seed + 10),
        output_commitments: vec![Fr::from(seed), Fr::from(seed + 1)],
    }
}

#[test]
fn leaf_hashes_slot_ciphertext_nullifier_and_outputs() {
    let e = entry(3);
    let mut joined = vec![1u8; 32];
    joined.extend_from_slice(&[3u8; 32]);
    let commitment = poseidon_hash(&[
        poseidon_hash_bytes(&e.ciphertext),
        poseidon_hash_bytes(&e.ek_pk),
        poseidon_hash_bytes(&joined),
    ]);
    assert_eq!(entry_ciphertext_commitment(&e), commitment);
    let leaf = poseidon_hash(&[
        Fr::from(5u64),
        commitment,
        e.nullifier,
        poseidon_hash(&e.output_commitments),
    ]);
    assert_eq!(merkle_leaf(5, &e), leaf);
    assert_eq!(
        merkle_leaf_from_commitment(5, e.nullifier, &e.output_commitments, commitment),
        leaf
    );
    assert_ne!(merkle_leaf(6, &e), leaf);
}

#[test]
fn empty_board_has_the_root_of_zeros() {
    let zeros = zero_hashes(&Hasher::new());
    assert_eq!(zeros.len(), TREE_DEPTH + 1);
    assert_eq!(zeros[0], Fr::from(0u64));
    assert_eq!(zeros[1], poseidon_hash(&[Fr::from(0u64), Fr::from(0u64)]));
    assert_eq!(empty_root(), zeros[TREE_DEPTH]);
    assert_eq!(merkle_root_of(&[]), empty_root());
}

#[test]
fn posting_opens_the_slot_that_was_empty() {
    let mut entries: Vec<BoardEntry> = vec![];
    for k in 0..5u64 {
        let before = merkle_root_of(&entries);
        let path = append_path_for_next(&entries);
        assert_eq!(path.len(), TREE_DEPTH);
        assert_eq!(compute_root_from_path(Fr::from(0u64), entries.len(), &path), before);
        entries.push(entry(k));
        let slot = entries.len() - 1;
        assert_eq!(append_proof_for(&entries), path);
        let after = merkle_root_of(&entries);
        assert!(merkle_verify(after, slot, &entries[slot], &path));
        assert!(!merkle_verify(before, slot, &entries[slot], &path));
        assert!(!merkle_verify(after, slot, &entry(99), &path));
        assert!(!merkle_verify(after, slot + 1, &entries[slot], &path));
    }
}

#[test]
fn every_leaf_of_a_tree_has_a_path_to_its_root() {
    let leaves: Vec<Fr> = (1..8u64).map(Fr::from).collect();
    let root = compute_root_from_path(leaves[0], 0, &merkle_path_for_index(&leaves, 0));
    for (i, leaf) in leaves.iter().enumerate() {
        let path = merkle_path_for_index(&leaves, i);
        assert_eq!(compute_root_from_path(*leaf, i, &path), root);
    }
    let path = merkle_path_for_index(&leaves, 7);
    assert_eq!(compute_root_from_path(Fr::from(0u64), 7, &path), root);
}
