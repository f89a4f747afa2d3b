//! A chain of private coins.
//!
//! Coins are commitments. A spend publishes the nullifiers of its inputs and the commitments
//! of its outputs on a board, a Merkle tree that only grows, with the transaction encrypted
//! for its recipients. Spends and receipts are proved by circuits over MNT4-753, which verify
//! each other's proofs recursively through wraps over MNT6-753.
//!
//! - [`field`], [`limbs`], [`poseidon`], [`poseidon_params`], [`keys`]: the field, the hash
//!   and the keys.
//! - [`coin`], [`codec`], [`envelope`]: coins and transactions, their encodings, and their
//!   encryption.
//! - [`merkle`], [`board`], [`nullifier`]: the board and the accumulator of spent coins.
//! - [`relations`]: what it means for a spend and for a receipt to be valid.
//! - [`constraints`], [`gadgets`], [`circuit_spend`], [`circuit_coinproof`],
//!   [`circuit_wrap`]: the same as circuits, over any constraint system.
//! - [`groth16`], [`bn254`], [`sp1_groth16`], [`sp1_spend_proof`]: the verification of
//!   proofs.
//! - [`wallet`], [`ledger`], [`scenario`]: parties, the public state, and whole chains.
//! - [`guest`], [`report`], [`cli`]: what programs around the library compute.

pub mod field;
pub mod limbs;
pub mod poseidon_params;
pub mod poseidon;
pub mod keys;
pub mod coin;
pub mod merkle;
pub mod board;
pub mod nullifier;
pub mod codec;
pub mod envelope;
pub mod relations;
pub mod bn254;
pub mod sp1_groth16;
pub mod sp1_spend_proof;
pub mod groth16;
pub mod constraints;
pub mod gadgets;
pub mod circuit_wrap;
pub mod circuit_spend;
pub mod circuit_coinproof;
pub mod wallet;
pub mod ledger;
pub mod scenario;
pub mod report;
pub mod cli;
pub mod guest;

pub use board::{
    append_path_for_next, append_proof_for, entry_ciphertext_commitment, merkle_leaf,
    merkle_leaf_from_commitment, merkle_root_of, merkle_verify, BoardEntry,
};
pub use coin::{Coin, Transaction};
pub use envelope::{
    build_note_enc, decrypt_note, derive_enc_pk, encrypt_tx, recover_session_key, scan_entry,
    EK_SALT,
};
pub use field::{Fr, OwnerScalar};
pub use keys::{derive_owner_pk, genesis_pk, genesis_sk, owner_pk_to_field_pair, OwnerPk};
pub use merkle::{compute_root_from_path, empty_root, TREE_DEPTH};
pub use nullifier::{verify_nonmembership, IndexedLeaf, NonMembershipWitness, NullifierTree};
pub use poseidon::{fold_owner_scalar, poseidon_hash, poseidon_hash_bytes};
pub use relations::{
    check_coin_receipt, check_spend, CoinReceiptPublicValues, ValidPublicValues,
};
