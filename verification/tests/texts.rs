use ark_ec::AffineRepr;
use ark_groth16::{Proof, VerifyingKey};
use ark_mnt4_753::MNT4_753;
use ark_serialize::CanonicalSerialize;
use cloakkchain::cli::{peak_memory, select_mode, trim, vkey_line, Mode, StepKind};
use cloakkchain::guest::{mnt_test_program, receipt_program, spend_program, verification_program};
use cloakkchain::report::{fmt_bytes, fmt_constraints, fmt_mem_kb};
use cloakkchain::sp1_spend_proof::decode_hex32;
use cloakkchain::wallet;
use cloakkchain::{
    append_path_for_next, append_proof_for, encrypt_tx, fold_owner_scalar, genesis_pk, genesis_sk,
    poseidon_hash, CoinReceiptPublicValues, Fr, NullifierTree,
};
use sha2::{Digest, Sha256};

fn bytes<T: CanonicalSerialize>(value: &T) -> Vec<u8> {
    let mut out = vec![];
    value.serialize_compressed(&mut out).unwrap();
    out
}

fn constraints_by_doubles(c: usize) -> String {
    if c >= 1_000_000 {
        format!("{:.2}M", c as f64 / 1_000_000.0)
    } else if c >= 1_000 {
        format!("{:.1}K", c as f64 / 1_000.0)
    } else {
        format!("{c}")
    }
}

fn bytes_by_doubles(b: usize) -> String {
    if b >= 1_048_576 {
        format!("{:.2} MB", b as f64 / 1_048_576.0)
    } else if b >= 1024 {
        format!("{:.1} KB", b as f64 / 1024.0)
    } else {
        format!("{b} B")
    }
}

fn samples() -> Vec<usize> {
    let mut out: Vec<usize> = (0..3000).collect();
    for k in 0..64u32 {
        let p = 1usize << k;
        for d in 0..4usize {
            out.push(p.wrapping_add(d));
            out.push(p.wrapping_sub(d));
        }
    }
    let mut x: usize = 88172645463325252;
    for i in 0..20000u32 {
        x ^= x << 13;
        x ^= x >> 7;
        x ^= x << 17;
        out.push(x >> (i % 60));
    }
    for k in 0..20000usize {
        out.push(1_000_000 + 5_000 * k);
        out.push(1_000 + 50 * k);
        out.push(1024 + 128 * k / 5);
    }
    out.push(usize::MAX);
    out
}

#[test]
fn numbers_of_constraints_read_as_rounded_doubles() {
    assert_eq!(fmt_constraints(999), "999");
    assert_eq!(fmt_constraints(1_000), "1.0K");
    assert_eq!(fmt_constraints(601_250), "601.2K");
    assert_eq!(fmt_constraints(999_999), "1000.0K");
    assert_eq!(fmt_constraints(1_015_000), "1.01M");
    assert_eq!(fmt_constraints(12_345_678), "12.35M");
    for c in samples() {
        assert_eq!(fmt_constraints(c), constraints_by_doubles(c));
    }
}

#[test]
fn numbers_of_bytes_read_as_rounded_doubles() {
    assert_eq!(fmt_bytes(0), "0 B");
    assert_eq!(fmt_bytes(1023), "1023 B");
    assert_eq!(fmt_bytes(1024), "1.0 KB");
    assert_eq!(fmt_bytes(1536), "1.5 KB");
    assert_eq!(fmt_bytes(1_048_576), "1.00 MB");
    assert_eq!(fmt_mem_kb(1536), "1.50 MB");
    assert_eq!(fmt_mem_kb(0), "0 B");
    for b in samples() {
        assert_eq!(fmt_bytes(b), bytes_by_doubles(b));
    }
}

#[test]
fn exactly_one_demonstration_is_chosen() {
    let choose = |grid, execute, prove| select_mode(false, false, false, grid, execute, prove);
    assert_eq!(choose(false, true, false), Ok(Mode::Execute));
    assert_eq!(choose(false, false, true), Ok(Mode::Prove));
    assert_eq!(choose(true, true, true), Ok(Mode::GridCell));
    let message = "Error: specify exactly one of --execute, --prove";
    assert_eq!(choose(false, true, true), Err(message));
    assert_eq!(choose(false, false, false), Err(message));
    assert_eq!(select_mode(true, true, true, true, true, true), Ok(Mode::Step));
    assert_eq!(
        select_mode(true, false, true, false, false, false),
        Err("--internal-witness required with --internal-kind")
    );
    assert_eq!(
        select_mode(true, true, false, false, false, false),
        Err("--internal-output required with --internal-kind")
    );
}

#[test]
fn step_kinds_are_read_back_from_their_names() {
    for kind in [
        StepKind::Genesis,
        StepKind::SpendNonGenesis,
        StepKind::Receipt,
        StepKind::WrapSpend,
        StepKind::WrapReceipt,
    ] {
        assert_eq!(StepKind::parse(kind.name()), Some(kind));
    }
    assert_eq!(StepKind::WrapSpend.name(), "wrap6");
    assert_eq!(StepKind::parse("wrap7"), None);
    assert_eq!(StepKind::parse(""), None);
}

#[test]
fn peak_memory_is_the_largest_reading() {
    let status = "Name:\tx\nVmPeak:\t 90 kB\nVmHWM:\t   1234 kB\nThreads:\t1\n";
    assert_eq!(peak_memory(status, None), Some(1234));
    assert_eq!(peak_memory(status, Some(1000)), Some(1234));
    assert_eq!(peak_memory(status, Some(2000)), Some(2000));
    assert_eq!(peak_memory("", Some(5)), Some(5));
    assert_eq!(peak_memory("VmHWM: none", None), None);
    assert_eq!(peak_memory("VmHWM:", None), None);
    assert_eq!(peak_memory(" VmHWM: 3", None), None);
    assert_eq!(peak_memory("VmHWM:3\nVmHWM: +7 kB", None), Some(7));
    assert_eq!(peak_memory("VmHWM: 18446744073709551615", None), Some(u64::MAX));
    assert_eq!(peak_memory("VmHWM: 18446744073709551616", None), None);
    assert_eq!(peak_memory("VmHWM:\u{2003}12\u{a0}kB", None), Some(12));
}

#[test]
fn whitespace_is_that_of_unicode() {
    for u in 0..0x11_0000u32 {
        if let Some(c) = char::from_u32(u) {
            if c.is_whitespace() || u < 0x400 {
                let text = format!("{c}a{c}");
                assert_eq!(trim(&text), text.trim());
            }
        }
    }
    assert_eq!(trim(" \t\n"), "");
    assert_eq!(trim(""), "");
}

#[test]
fn key_hash_files_are_printed() {
    let raw: Vec<u8> = (0..32u8).map(|i| i * 8 + 7).collect();
    let line = vkey_line(&raw);
    assert_eq!(line, format!("0x{}", hex::encode(&raw)));
    assert_eq!(decode_hex32(&line).unwrap().to_vec(), raw);
    assert_eq!(vkey_line(b"  0xabc\n"), "0xabc");
    assert_eq!(vkey_line(&[0x61, 0xff, 0x62]), "a\u{fffd}b");
}

#[test]
fn failed_verification_leaves_its_inputs() {
    let ok = verification_program(&[1], vec![2, 3], "0xab", Ok(()));
    assert_eq!(ok.ok(), Some(vec![2, 3]));
    let nothing = verification_program(&[], vec![2], "", Err("unused"));
    assert_eq!(nothing.ok(), Some(vec![2]));
    let failure = verification_program(&[1], vec![2, 3], "ab", Err("why")).err().unwrap();
    assert_eq!(failure.dump, vec![1, 0, 0, 0, 1, 2, 0, 0, 0, 2, 3, 2, 0, 0, 0, b'a', b'b']);
    assert_eq!(
        failure.message,
        "Groth16 spend proof verification failed: why  proof_bytes.len()=1  \
         pv_encode.len()=2  spend_vkey_hash=ab"
    );
}

#[test]
fn guest_programs_commit_and_defer() {
    let genesis_coin = wallet::coin(1, 10, genesis_pk());
    let alice = wallet::Party::new("Alice", 1);
    let alice_coin = wallet::coin(2, 10, alice.pk_p);
    let outputs = [(alice_coin, alice.enc_pk)];
    let (tx, key, recipients) = wallet::make_tx(0, [0u8; 32], &[genesis_coin], &outputs);
    let tree = NullifierTree::new();
    let commitment = genesis_coin.commitment();
    let own = poseidon_hash(&[commitment, fold_owner_scalar(&genesis_sk())]);
    let run = |coin_proof: Option<CoinReceiptPublicValues>| {
        spend_program(
            [1; 8],
            [2; 8],
            genesis_sk(),
            genesis_pk(),
            commitment,
            0,
            append_path_for_next(&[]),
            tx.clone(),
            vec![genesis_coin],
            vec![alice_coin],
            coin_proof.is_none(),
            coin_proof,
            tree.prove_non_membership(own),
            tree.root(),
        )
    };
    let output = run(None).ok().unwrap();
    assert!(output.deferred.is_none());
    let entry = encrypt_tx(&tx, &genesis_sk(), &recipients, key);
    let values = cloakkchain::ValidPublicValues {
        vkey: [1; 8],
        board_root: cloakkchain::empty_root(),
        output_commitments: vec![alice_coin.commitment()],
        nullifier_root: tree.root(),
    };
    assert_eq!(output.committed, values.encode());

    let receipt = CoinReceiptPublicValues {
        vkey: [2; 8],
        owner_pk: genesis_pk(),
        coin_commitment: commitment,
        board_root: Fr::from(1u64),
        received_at: 0,
    };
    let output = run(Some(receipt.clone())).ok().unwrap();
    let wanted: [u8; 32] = Sha256::digest(receipt.encode()).into();
    assert_eq!(output.deferred, Some(wanted));
    let foreign = CoinReceiptPublicValues { owner_pk: alice.pk_p, ..receipt };
    assert_eq!(run(Some(foreign)).err(), Some("coin-proof owner must be P"));

    let entries = vec![entry.clone()];
    let output = receipt_program(
        [2; 8],
        alice.pk_p,
        alice_coin.commitment(),
        entry.clone(),
        0,
        append_proof_for(&entries),
        tree.prove_non_membership(entry.nullifier),
        tree.root(),
        values.clone(),
    )
    .ok()
    .unwrap();
    let wanted: [u8; 32] = Sha256::digest(values.encode()).into();
    assert_eq!(output.deferred, Some(wanted));
    let committed = CoinReceiptPublicValues {
        vkey: [2; 8],
        owner_pk: alice.pk_p,
        coin_commitment: alice_coin.commitment(),
        board_root: cloakkchain::merkle_root_of(&entries),
        received_at: 0,
    };
    assert_eq!(output.committed, committed.encode());
}

#[test]
fn measuring_program_refuses_what_it_cannot_read() {
    let generator = ark_mnt4_753::G1Affine::generator();
    let second = ark_mnt4_753::G2Affine::generator();
    let snark = bytes(&Proof::<MNT4_753> { a: generator, b: second, c: generator });
    let mut key = VerifyingKey::<MNT4_753> {
        alpha_g1: generator,
        beta_g2: second,
        gamma_g2: second,
        delta_g2: second,
        gamma_abc_g1: vec![generator, generator],
    };
    let vk = bytes(&key);
    // With every point a generator, e(a, b) is one pairing and the other side has three more
    // than the public input.
    let balanced = bytes(&-ark_mnt4_753::Fr::from(2u64));
    let other = bytes(&-ark_mnt4_753::Fr::from(3u64));
    assert_eq!(mnt_test_program(&snark, &vk, &balanced), Ok(()));
    assert_eq!(
        mnt_test_program(&snark, &vk, &other),
        Err("MNT4-753 Groth16 proof verification failed inside SP1")
    );
    assert_eq!(mnt_test_program(&[], &[], &[]), Err("proof deserialize"));
    assert_eq!(mnt_test_program(&snark, &[], &[]), Err("vk deserialize"));
    assert_eq!(mnt_test_program(&snark, &vk[1..], &balanced), Err("vk deserialize"));
    assert_eq!(mnt_test_program(&snark, &vk, &[]), Err("public input deserialize"));
    key.gamma_abc_g1.push(generator);
    assert_eq!(mnt_test_program(&snark, &bytes(&key), &balanced), Err("verify failed to run"));
}
