use cloakkchain::field::{Fr, OwnerScalar};
use cloakkchain::poseidon::{fold_bits_le, poseidon_hash_with};
use cloakkchain::poseidon_params::{mnt4_753_fr_poseidon_config, mnt6_753_fr_poseidon_config};
use cloakkchain::wallet::{outputs_agree, pad_outputs};
use cloakkchain::{fold_owner_scalar, poseidon_hash, poseidon_hash_bytes};

use ark_crypto_primitives::sponge::poseidon::{PoseidonConfig, PoseidonSponge};
use ark_crypto_primitives::sponge::{CryptographicSponge, FieldBasedCryptographicSponge};
use ark_ff::{BigInt, BigInteger, PrimeField, UniformRand};
use ark_std::rand::rngs::StdRng;
use ark_std::rand::SeedableRng;

fn native(x: &Fr) -> ark_mnt4_753::Fr {
    ark_mnt4_753::Fr::from_bigint(BigInt(x.to_limbs())).unwrap()
}

fn element(x: ark_mnt4_753::Fr) -> Fr {
    Fr::from_limbs(x.into_bigint().0).unwrap()
}

fn native_config() -> PoseidonConfig<ark_mnt4_753::Fr> {
    let config = mnt4_753_fr_poseidon_config();
    let rows = |m: &Vec<Vec<Fr>>| -> Vec<Vec<ark_mnt4_753::Fr>> {
        m.iter().map(|row| row.iter().map(native).collect()).collect()
    };
    PoseidonConfig::new(
        config.full_rounds,
        config.partial_rounds,
        config.alpha,
        rows(&config.mds),
        rows(&config.ark),
        config.rate,
        config.capacity,
    )
}

#[test]
fn mnt4_config_is_deterministic() {
    let a = mnt4_753_fr_poseidon_config();
    let b = mnt4_753_fr_poseidon_config();
    assert_eq!(a.ark, b.ark);
    assert_eq!(a.mds, b.mds);
}

#[test]
fn mnt4_and_mnt6_configs_differ() {
    let a = mnt4_753_fr_poseidon_config();
    let b = mnt6_753_fr_poseidon_config();
    assert_eq!(a.full_rounds, b.full_rounds);
    assert_eq!(a.partial_rounds, b.partial_rounds);
    assert_eq!(a.rate, b.rate);
    assert_eq!(a.capacity, b.capacity);
}

#[test]
fn mnt4_sponge_hash_is_deterministic() {
    let cfg = mnt4_753_fr_poseidon_config();
    let hash_once = || poseidon_hash_with(&cfg, &[Fr::from(7u64), Fr::from(9u64)]);
    assert_eq!(hash_once(), hash_once());
    let mut sponge = PoseidonSponge::new(&native_config());
    sponge.absorb(&vec![ark_mnt4_753::Fr::from(7u64), ark_mnt4_753::Fr::from(9u64)]);
    let squeezed: ark_mnt4_753::Fr = sponge.squeeze_native_field_elements(1)[0];
    assert_eq!(hash_once(), element(squeezed));
}

#[test]
fn constants_are_drawn_from_the_seeds_in_order() {
    let config = mnt4_753_fr_poseidon_config();
    assert_eq!(config.full_rounds, 8);
    assert_eq!(config.partial_rounds, 60);
    assert_eq!(config.alpha, 5);
    assert_eq!(config.ark.len(), 68);
    assert_eq!(config.mds.len(), 3);
    let mut rng = StdRng::seed_from_u64(0x434c_4f41_4b4d_5434);
    let mut drawn: Vec<Vec<Fr>> = Vec::new();
    for _ in 0..71 {
        let row: Vec<Fr> = (0..3).map(|_| element(ark_mnt4_753::Fr::rand(&mut rng))).collect();
        drawn.push(row);
    }
    let all: Vec<Vec<Fr>> = config.ark.iter().chain(config.mds.iter()).cloned().collect();
    assert_eq!(drawn, all);

    let other = mnt6_753_fr_poseidon_config();
    let mut rng = StdRng::seed_from_u64(0x434c_4f41_4b4d_5436);
    let first = ark_mnt6_753::Fr::rand(&mut rng);
    assert_eq!(other.ark[0][0], OwnerScalar::from_limbs(first.into_bigint().0).unwrap());
}

#[test]
fn hash_is_the_sponge_over_the_inputs() {
    for n in 0..6u64 {
        let inputs: Vec<Fr> = (0..n).map(|i| Fr::from(i * 1_000_003 + 5)).collect();
        let mut sponge = PoseidonSponge::new(&native_config());
        let elements: Vec<ark_mnt4_753::Fr> = inputs.iter().map(native).collect();
        sponge.absorb(&elements);
        let squeezed: ark_mnt4_753::Fr = sponge.squeeze_native_field_elements(1)[0];
        assert_eq!(poseidon_hash(&inputs), element(squeezed));
    }
}

#[test]
fn hash_ignores_a_zero_that_fills_the_rate() {
    let c = Fr::from(7u64);
    assert_eq!(poseidon_hash(&[c]), poseidon_hash(&[c, Fr::from(0u64)]));
    assert_ne!(poseidon_hash(&[c]), poseidon_hash(&[c, Fr::from(1u64)]));
    // A zero that starts a block is another input.
    assert_ne!(poseidon_hash(&[c, c]), poseidon_hash(&[c, c, Fr::from(0u64)]));
    assert_eq!(poseidon_hash(&[c, c, c]), poseidon_hash(&[c, c, c, Fr::from(0u64)]));
}

#[test]
fn filled_up_outputs_agree_with_the_entry() {
    let c = Fr::from(7u64);
    let d = Fr::from(8u64);
    assert!(outputs_agree(&[c], &pad_outputs(&[c])));
    assert!(outputs_agree(&[c, d], &pad_outputs(&[c, d])));
    assert!(!outputs_agree(&[c, d], &pad_outputs(&[c])));
    assert!(!outputs_agree(&[d], &pad_outputs(&[c])));
}

#[test]
fn byte_hash_reads_little_endian_pieces_of_31_bytes() {
    let bytes: Vec<u8> = (0..70u8).collect();
    let mut elements: Vec<Fr> = vec![];
    for piece in bytes.chunks(31) {
        elements.push(element(ark_mnt4_753::Fr::from_le_bytes_mod_order(piece)));
    }
    assert_eq!(poseidon_hash_bytes(&bytes), poseidon_hash(&elements));
    assert_eq!(poseidon_hash_bytes(&[]), poseidon_hash(&[Fr::from(0u64)]));
    assert_eq!(poseidon_hash_bytes(&[3, 1]), poseidon_hash(&[Fr::from(259u64)]));
}

#[test]
fn folding_a_scalar_folds_its_bits() {
    let sk = OwnerScalar::from(0x1234_5678_9abcu64);
    let bits = ark_mnt6_753::Fr::from(0x1234_5678_9abcu64).into_bigint().to_bits_le();
    assert_eq!(fold_owner_scalar(&sk), fold_bits_le(&bits[..753]));
    assert_ne!(fold_owner_scalar(&sk), fold_owner_scalar(&OwnerScalar::from(1u64)));
}
