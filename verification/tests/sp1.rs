use cloakkchain::sp1_groth16::{
    compressed_g1, compressed_g2, hash_public_inputs, hash_public_inputs_blake3, is_key_in_group,
    load_proof, load_vk, to_fr, uncompressed_g1, uncompressed_g2, verify_algebraic, verify_sp1_groth16, Flag,
    Groth16Error,
};
use cloakkchain::sp1_spend_proof::{
    build_padded_vk, check_pairing, decode_hex32, nibble, prepare_spend_proof,
    real_vk_content_len, spend_proof_verdict, verify_sp1_spend_proof,
    verify_sp1_spend_proof_by_equation,
};
use sha2::{Digest, Sha256};
use substrate_bn_succinct_rs::{AffineG1, AffineG2, Fq, Fq2, Fr, Group, G1, G2};

const VKEY_HASH: [u8; 32] = [7u8; 32];

fn scalar(v: u64) -> Fr {
    Fr::from_str(&format!("{v}")).unwrap()
}

fn reduced(bytes: &[u8]) -> Fr {
    Fr::from_bytes_be_mod_order(bytes).unwrap()
}

fn g1(s: Fr) -> AffineG1 {
    AffineG1::from_jacobian(G1::one() * s).unwrap()
}

fn g2(s: Fr) -> AffineG2 {
    AffineG2::from_jacobian(G2::one() * s).unwrap()
}

fn scalar_bytes(x: Fr) -> [u8; 32] {
    let mut out = [0u8; 32];
    x.into_u256().to_big_endian(&mut out).unwrap();
    out
}

fn be(x: Fq) -> [u8; 32] {
    let mut out = [0u8; 32];
    x.to_big_endian(&mut out).unwrap();
    out
}

fn open_g1(p: AffineG1) -> Vec<u8> {
    let mut out = be(p.x()).to_vec();
    out.extend_from_slice(&be(p.y()));
    out
}

fn open_g2(p: AffineG2) -> Vec<u8> {
    let mut out = be(p.x().imaginary()).to_vec();
    out.extend_from_slice(&be(p.x().real()));
    out.extend_from_slice(&be(p.y().imaginary()));
    out.extend_from_slice(&be(p.y().real()));
    out
}

fn short_g1(p: AffineG1) -> Vec<u8> {
    let mut out = be(p.x()).to_vec();
    let larger = be(p.y()) > be(-p.y());
    out[0] |= if larger { 0xc0 } else { 0x80 };
    out
}

fn short_g2(p: AffineG2) -> Vec<u8> {
    let (first, _) = AffineG2::get_ys_from_x_unchecked(p.x()).unwrap();
    let mut out = be(p.x().imaginary()).to_vec();
    out.extend_from_slice(&be(p.x().real()));
    out[0] |= if p.y() == first { 0x80 } else { 0xc0 };
    out
}

struct Sample {
    vk: Vec<u8>,
    snark: Vec<u8>,
}

/// A key of six points and a proof of the given digest that satisfies the equation.
fn sample(digest: [u8; 32], points: u64) -> Sample {
    let (alpha, beta, gamma, delta) = (scalar(3), scalar(5), scalar(7), scalar(11));
    let (a, b) = (scalar(13), scalar(17));
    let k: Vec<Fr> = (0..points).map(|i| scalar(19 + i)).collect();

    let mut vk = short_g1(g1(alpha));
    vk.extend_from_slice(&[0u8; 32]);
    vk.extend(short_g2(g2(beta)));
    vk.extend(short_g2(g2(gamma)));
    vk.extend_from_slice(&[0u8; 32]);
    vk.extend(short_g2(g2(delta)));
    vk.extend_from_slice(&(points as u32).to_be_bytes());
    for x in &k {
        vk.extend(short_g1(g1(*x)));
    }
    vk.extend_from_slice(&[0u8; 8]);

    let mut snark = Sha256::digest(&vk)[..4].to_vec();
    for i in 0..3u8 {
        let mut word = [0u8; 32];
        word[31] = i;
        snark.extend_from_slice(&word);
    }
    let inputs = [
        reduced(&VKEY_HASH),
        reduced(&digest),
        reduced(&snark[4..36]),
        reduced(&snark[36..68]),
        reduced(&snark[68..100]),
    ];
    let mut prepared = k[0];
    for i in 0..5 {
        prepared = prepared + inputs[i] * k[(i + 1) % k.len()];
    }
    let c = (a * b - alpha * beta - prepared * gamma) * delta.inverse().unwrap();
    snark.extend(open_g1(g1(a)));
    snark.extend(open_g2(g2(b)));
    snark.extend(open_g1(g1(c)));
    Sample { vk, snark }
}

fn masked_sha(pv: &[u8]) -> [u8; 32] {
    let mut digest: [u8; 32] = Sha256::digest(pv).into();
    digest[0] &= 0x1f;
    digest
}

#[test]
fn proof_over_sha256_verifies() {
    let pv = b"public values";
    let s = sample(masked_sha(pv), 6);
    assert_eq!(s.vk.len(), 492);
    assert!(verify_sp1_groth16(&s.vk, &s.snark, pv, &VKEY_HASH).is_ok());
}

#[test]
fn proof_of_other_values_fails() {
    let s = sample(masked_sha(b"public values"), 6);
    let vk = load_vk(&s.vk).ok().unwrap();
    let parsed = load_proof(&s.snark[100..356]).ok().unwrap();
    let word = |from: usize| -> [u8; 32] { s.snark[from..from + 32].try_into().unwrap() };
    let inputs = [
        to_fr(&VKEY_HASH),
        to_fr(&masked_sha(b"other values")),
        to_fr(&word(4)),
        to_fr(&word(36)),
        to_fr(&word(68)),
    ];
    assert!(matches!(
        verify_algebraic(&vk, &parsed, &inputs),
        Err(Groth16Error::ProofVerificationFailed)
    ));
}

#[test]
fn malformed_bytes_are_told_apart() {
    let pv = b"public values";
    let s = sample(masked_sha(pv), 6);
    let outcome = |vk: &[u8], snark: &[u8]| verify_sp1_groth16(vk, snark, pv, &VKEY_HASH);

    assert!(matches!(outcome(&s.vk, &s.snark[..355]), Err(Groth16Error::InvalidProofBytes)));
    let mut snark = s.snark.clone();
    snark[0] ^= 1;
    assert!(matches!(outcome(&s.vk, &snark), Err(Groth16Error::VkHashMismatch)));

    let mut vk = s.vk.clone();
    vk[0] &= 0x3f;
    let mut snark = s.snark.clone();
    snark[..4].copy_from_slice(&Sha256::digest(&vk)[..4]);
    assert!(matches!(outcome(&vk, &snark), Err(Groth16Error::InvalidVkBytes)));
}

#[test]
fn proof_coordinates_must_be_canonical() {
    let pv = b"public values";
    let mut s = sample(masked_sha(pv), 6);
    for byte in s.snark.iter_mut().skip(100).take(32) {
        *byte = 0xff;
    }
    assert!(matches!(
        verify_sp1_groth16(&s.vk, &s.snark, pv, &VKEY_HASH),
        Err(Groth16Error::FieldError)
    ));
}

#[test]
fn proof_points_must_be_on_the_curve() {
    let pv = b"public values";
    let mut s = sample(masked_sha(pv), 6);
    for byte in s.snark.iter_mut().skip(100).take(64) {
        *byte = 1;
    }
    assert!(matches!(
        verify_sp1_groth16(&s.vk, &s.snark, pv, &VKEY_HASH),
        Err(Groth16Error::GroupError)
    ));
}

#[test]
fn key_must_have_a_point_for_each_input() {
    let pv = b"public values";
    let s = sample(masked_sha(pv), 5);
    assert!(matches!(
        verify_sp1_groth16(&s.vk, &s.snark, pv, &VKEY_HASH),
        Err(Groth16Error::PrepareInputsFailed)
    ));
}

#[test]
fn errors_have_names() {
    assert_eq!(Groth16Error::InvalidProofBytes.name(), "InvalidProofBytes");
    assert_eq!(Groth16Error::VkeyHashMismatch.name(), "VkeyHashMismatch");
    assert_eq!(Groth16Error::GroupError.name(), "GroupError");
}

#[test]
fn flags_are_the_top_two_bits() {
    assert_eq!(Flag::from_byte(0x80), Some(Flag::Positive));
    assert_eq!(Flag::from_byte(0xbf), Some(Flag::Positive));
    assert_eq!(Flag::from_byte(0xc0), Some(Flag::Negative));
    assert_eq!(Flag::from_byte(0x41), Some(Flag::Infinity));
    assert_eq!(Flag::from_byte(0x3f), None);
}

#[test]
fn points_are_parsed_in_both_forms() {
    let p = g1(scalar(9));
    assert!(uncompressed_g1(&open_g1(p)).is_ok());
    assert!(matches!(uncompressed_g1(&[0u8; 63]), Err(Groth16Error::InvalidProofBytes)));
    assert!(compressed_g1(&short_g1(p)).is_ok());
    let mut infinite = [0u8; 32];
    infinite[0] = 0x40;
    assert!(compressed_g1(&infinite).is_err());
    assert!(compressed_g1(&[0u8; 31]).is_err());

    let q = g2(scalar(9));
    assert!(uncompressed_g2(&open_g2(q)).is_ok());
    let mut swapped = open_g2(q);
    swapped.rotate_left(32);
    assert!(uncompressed_g2(&swapped).is_err());
    assert!(compressed_g2(&short_g2(q)).is_ok());
    let mut infinite = [0u8; 64];
    infinite[0] = 0x40;
    assert!(compressed_g2(&infinite).is_ok());
    assert!(compressed_g2(&[0u8; 64]).is_err());
}

/// The negative of 32 big-endian bytes in the base field.
fn negated(y: &[u8]) -> [u8; 32] {
    be(-Fq::from_slice(y).unwrap())
}

#[test]
fn sign_flags_give_opposite_roots() {
    for k in [1u64, 9, 12345] {
        let open = open_g1(g1(scalar(k)));
        let (x, y) = (&open[..32], &open[32..]);
        let other = negated(y);
        let (smaller, larger) = if *y < other[..] { (y, &other[..]) } else { (&other[..], y) };
        let with = |flag: u8| {
            let mut buf = x.to_vec();
            buf[0] |= flag;
            format!("{:?}", compressed_g1(&buf))
        };
        let point = |y: &[u8]| format!("{:?}", uncompressed_g1(&[x, y].concat()));
        assert_eq!(with(0x80), point(smaller));
        assert_eq!(with(0xc0), point(larger));
        assert_ne!(with(0x80), with(0xc0));
        assert_eq!(with(0x00), "Err(InvalidVkBytes)");
        assert_eq!(with(0x40), "Err(InvalidVkBytes)");

        let open = open_g2(g2(scalar(k)));
        let (x, y) = (&open[..64], &open[64..]);
        let other = [negated(&y[..32]), negated(&y[32..])].concat();
        let (smaller, larger) = if *y < other[..] { (y, &other[..]) } else { (&other[..], y) };
        let with = |flag: u8| {
            let mut buf = x.to_vec();
            buf[0] |= flag;
            format!("{:?}", compressed_g2(&buf))
        };
        let point = |y: &[u8]| format!("{:?}", uncompressed_g2(&[x, y].concat()));
        assert_eq!(with(0x80), point(smaller));
        assert_eq!(with(0xc0), point(larger));
        assert_eq!(with(0x00), "Err(InvalidVkBytes)");
    }
    // At zero the equation is y^2 = 3, and 3 has no square root.
    let mut buf = [0u8; 32];
    for flag in [0x80, 0xc0] {
        buf[0] = flag;
        assert!(matches!(compressed_g1(&buf), Err(Groth16Error::InvalidVkBytes)));
    }
}

#[test]
fn keys_need_all_announced_points() {
    let s = sample([0u8; 32], 6);
    assert!(load_vk(&s.vk).is_ok());
    assert!(load_vk(&s.vk[..484]).is_ok());
    assert!(load_vk(&s.vk[..483]).is_err());
    assert!(load_vk(&s.vk[..291]).is_err());
}

#[test]
fn digest_is_cut_to_the_field() {
    let digest = hash_public_inputs(b"abc");
    let mut wanted: [u8; 32] = Sha256::digest(b"abc").into();
    assert_eq!(wanted[0], 0xba);
    wanted[0] = 0x1a;
    assert_eq!(digest, wanted);
    let mut wanted = *blake3::hash(b"abc").as_bytes();
    wanted[0] &= 0x1f;
    assert_eq!(hash_public_inputs_blake3(b"abc"), wanted);
    let mut one = [0u8; 32];
    one[31] = 1;
    assert_eq!(to_fr(&one).to_bytes(), one);
    // The modulus plus one.
    let mut modulus = scalar_bytes(Fr::zero() - Fr::one());
    modulus[31] += 2;
    assert_eq!(to_fr(&modulus).to_bytes(), one);
}

#[test]
fn hexadecimal_text_is_decoded() {
    assert_eq!(nibble(b'0'), Ok(0));
    assert_eq!(nibble(b'9'), Ok(9));
    assert_eq!(nibble(b'a'), Ok(10));
    assert_eq!(nibble(b'F'), Ok(15));
    assert!(nibble(b'g').is_err());
    let digits = "0f".repeat(32);
    assert_eq!(decode_hex32(&digits), Ok([0x0fu8; 32]));
    assert_eq!(decode_hex32(&format!("0x{digits}")), Ok([0x0fu8; 32]));
    assert!(decode_hex32("0x").is_err());
    assert!(decode_hex32(&digits[1..]).is_err());
    assert!(decode_hex32(&"zz".repeat(32)).is_err());
}

#[test]
fn key_is_padded_behind_its_content() {
    let s = sample([0u8; 32], 6);
    let n = real_vk_content_len(&s.vk);
    assert_eq!(n, 488);
    let padded = build_padded_vk(&s.vk);
    assert_eq!(padded.len(), 620);
    assert_eq!(padded[..n], s.vk[..n]);
    assert_eq!(padded[n..n + 64], s.vk[128..192]);
    assert_eq!(padded[n + 64..n + 128], s.vk[128..192]);
    assert!(padded[n + 128..].iter().all(|b| *b == 0));
}

#[test]
fn spend_proof_is_prepared_and_judged() {
    let s = sample([0u8; 32], 6);
    let hash = "07".repeat(32);
    let pv = b"public values";
    let prepared = prepare_spend_proof(&s.vk, &s.snark, pv, &hash);
    let prepared = match prepared {
        Ok(prepared) => prepared,
        Err(message) => panic!("{message}"),
    };
    assert_eq!(prepared.gnark_bytes, s.snark[100..356].to_vec());
    assert_eq!(prepared.inputs[0].to_bytes(), scalar_bytes(reduced(&VKEY_HASH)));
    assert_eq!(prepared.inputs[1].to_bytes(), scalar_bytes(reduced(&masked_sha(pv))));
    assert_eq!(prepared.inputs[4].to_bytes()[31], 2);

    let check = |outcome: Result<bool, ()>| {
        verify_sp1_spend_proof(&s.vk, &s.snark, pv, &hash, move |_| outcome)
    };
    assert_eq!(check(Ok(true)), Ok(()));
    assert_eq!(check(Ok(false)), spend_proof_verdict(Ok(false)));
    assert!(check(Ok(false)).is_err());
    assert_eq!(check(Err(())), spend_proof_verdict(Err(())));
    assert!(check(Err(())).is_err());
    assert_eq!(
        verify_sp1_spend_proof(&s.vk, &s.snark[..10], pv, &hash, |_| Ok(true)),
        Err("proof bytes too short")
    );
    assert!(verify_sp1_spend_proof(&s.vk, &s.snark, pv, "07", |_| Ok(true)).is_err());
}

/// A point of the second curve outside the second group.
fn outside_g2() -> AffineG2 {
    for i in 1..50u64 {
        let x = Fq2::new(Fq::from_str(&format!("{i}")).unwrap(), Fq::zero());
        if let Some((y, _)) = AffineG2::get_ys_from_x_unchecked(x) {
            if AffineG2::new(x, y).is_err() {
                return AffineG2::new_unchecked(x, y);
            }
        }
    }
    unreachable!()
}

#[test]
fn compressed_points_outside_the_group_are_parsed() {
    let q = outside_g2();
    assert!(compressed_g2(&short_g2(q)).is_ok());
    assert!(matches!(uncompressed_g2(&open_g2(q)), Err(Groth16Error::GroupError)));

    let pv = b"public values";
    let s = sample(masked_sha(pv), 6);
    assert!(is_key_in_group(&load_vk(&s.vk).ok().unwrap()));
    let mut vk = s.vk.clone();
    vk[128..192].copy_from_slice(&short_g2(q));
    assert!(!is_key_in_group(&load_vk(&vk).ok().unwrap()));
    let mut snark = s.snark.clone();
    snark[..4].copy_from_slice(&Sha256::digest(&vk)[..4]);
    assert!(matches!(
        verify_sp1_groth16(&vk, &snark, pv, &VKEY_HASH),
        Err(Groth16Error::InvalidVkBytes)
    ));
}

#[test]
fn spend_proof_is_verified_by_the_equation() {
    let hash = "07".repeat(32);
    let pv = b"public values";
    let s = sample(masked_sha(pv), 6);
    // The first four bytes and what follows the proof do not count.
    let mut snark = s.snark.clone();
    snark[..4].copy_from_slice(&[0xffu8; 4]);
    snark.push(9);
    assert_eq!(verify_sp1_spend_proof_by_equation(&s.vk, &snark, pv, &hash), Ok(()));
}

#[test]
fn spend_proof_of_other_values_does_not_satisfy_the_equation() {
    let hash = "07".repeat(32);
    let s = sample(masked_sha(b"public values"), 6);
    assert_eq!(
        verify_sp1_spend_proof_by_equation(&s.vk, &s.snark, b"other values", &hash),
        Err("Groth16 verification returned false")
    );
}

#[test]
fn spend_proof_failures_come_in_order() {
    let hash = "07".repeat(32);
    let pv = b"public values";
    let s = sample(masked_sha(pv), 6);
    let outcome =
        |snark: &[u8], hash: &str| verify_sp1_spend_proof_by_equation(&s.vk, snark, pv, hash);
    assert_eq!(outcome(&s.snark[..355], &hash), Err("proof bytes too short"));
    assert_eq!(outcome(&s.snark[..355], "no hash"), Err("proof bytes too short"));
    assert_eq!(outcome(&s.snark, "no hash"), Err("vkey hash must be exactly 64 hex chars"));
    assert_eq!(outcome(&s.snark, &"zz".repeat(32)), Err("invalid hex char in vkey hash"));
    let mut snark = s.snark.clone();
    snark[131] ^= 1;
    assert_eq!(outcome(&snark, &hash), Err("Groth16 pairing check failed"));

    let few = sample(masked_sha(pv), 5);
    let prepared = prepare_spend_proof(&few.vk, &few.snark, pv, &hash).ok().unwrap();
    assert_eq!(check_pairing(prepared), Err(()));
}
