use ark_crypto_primitives::snark::constraints::SNARKGadget;
use ark_crypto_primitives::snark::BooleanInputVar;
use ark_crypto_primitives::sponge::constraints::CryptographicSpongeVar;
use ark_crypto_primitives::sponge::poseidon::constraints::PoseidonSpongeVar;
use ark_crypto_primitives::sponge::poseidon::PoseidonConfig;
use ark_ec::{CurveGroup, PrimeGroup};
use ark_ff::{BigInt, PrimeField};
use ark_groth16::constraints::{Groth16VerifierGadget, ProofVar, VerifyingKeyVar};
use ark_groth16::{Groth16, Proof, ProvingKey, VerifyingKey};
use ark_mnt4_753::MNT4_753;
use ark_mnt6_753::MNT6_753;
use ark_r1cs_std::alloc::AllocVar;
use ark_r1cs_std::boolean::Boolean;
use ark_r1cs_std::convert::ToBitsGadget;
use ark_r1cs_std::eq::EqGadget;
use ark_r1cs_std::fields::fp::FpVar;
use ark_r1cs_std::fields::FieldVar;
use ark_r1cs_std::groups::CurveVar;
use ark_r1cs_std::select::CondSelectGadget;
use ark_r1cs_std::uint64::UInt64;
use ark_r1cs_std::R1CSVar;
use ark_relations::r1cs::{
    ConstraintSynthesizer, ConstraintSystem, ConstraintSystemRef, LinearCombination,
    SynthesisMode, Variable,
};
use ark_serialize::{CanonicalDeserialize, CanonicalSerialize};
use ark_snark::SNARK;
use ark_std::rand::rngs::StdRng;
use ark_std::rand::SeedableRng;
use cloakkchain::circuit_coinproof;
use cloakkchain::circuit_coinproof::ReceiptStepCircuit;
use cloakkchain::circuit_spend;
use cloakkchain::circuit_spend::{GenesisSpendCircuit, SpendStepCircuit};
use cloakkchain::circuit_wrap;
use cloakkchain::circuit_wrap::{
    chunks_per_value, public_input_chunks, EvaluatingWrapSystem, WrapBackend, WrapCircuit,
    WrapVariables,
};
use cloakkchain::constraints::{Assignment, ConstraintBackend, EvaluatingSystem, Variables};
use cloakkchain::gadgets::CoinVar;
use cloakkchain::groth16::SynthesisError;
use cloakkchain::poseidon_params::mnt4_753_fr_poseidon_config;
use cloakkchain::wallet::pad_outputs;
use cloakkchain::{
    append_path_for_next, compute_root_from_path, derive_owner_pk, entry_ciphertext_commitment,
    fold_owner_scalar, genesis_sk, merkle_leaf, owner_pk_to_field_pair, poseidon_hash, BoardEntry,
    Coin, Fr, NullifierTree, OwnerScalar,
};

type Pairing4 = ark_mnt4_753::constraints::PairingVar;
type Pairing6 = ark_mnt6_753::constraints::PairingVar;

/// A circuit with the given public inputs and nothing to show of them.
#[derive(Clone)]
struct Open<F: PrimeField> {
    inputs: Vec<F>,
}

impl<F: PrimeField> ConstraintSynthesizer<F> for Open<F> {
    fn generate_constraints(
        self,
        cs: ConstraintSystemRef<F>,
    ) -> Result<(), ark_relations::r1cs::SynthesisError> {
        for x in self.inputs {
            let public = cs.new_input_variable(|| Ok(x))?;
            let private = cs.new_witness_variable(|| Ok(x))?;
            cs.enforce_constraint(
                LinearCombination::from(private),
                LinearCombination::from(Variable::One),
                LinearCombination::from(public),
            )?;
        }
        Ok(())
    }
}

fn bytes<T: CanonicalSerialize>(value: &T) -> Vec<u8> {
    let mut out = vec![];
    value.serialize_compressed(&mut out).unwrap();
    out
}

fn native4(x: &Fr) -> ark_mnt4_753::Fr {
    ark_mnt4_753::Fr::from_bigint(BigInt(x.to_limbs())).unwrap()
}

fn native6(x: &OwnerScalar) -> ark_mnt6_753::Fr {
    ark_mnt6_753::Fr::from_bigint(BigInt(x.to_limbs())).unwrap()
}

fn next4(x: &Fr) -> Fr {
    Fr::from_limbs((native4(x) + ark_mnt4_753::Fr::from(1u64)).into_bigint().0).unwrap()
}

fn next6(x: &OwnerScalar) -> OwnerScalar {
    OwnerScalar::from_limbs((native6(x) + ark_mnt6_753::Fr::from(1u64)).into_bigint().0).unwrap()
}

fn given<T>(value: Option<T>) -> Result<T, ark_relations::r1cs::SynthesisError> {
    value.ok_or(ark_relations::r1cs::SynthesisError::AssignmentMissing)
}

/// A constraint system of arkworks.
struct ArkSystem {
    cs: ConstraintSystemRef<ark_mnt4_753::Fr>,
    config: PoseidonConfig<ark_mnt4_753::Fr>,
}

impl ArkSystem {
    fn new(cs: ConstraintSystemRef<ark_mnt4_753::Fr>) -> Self {
        let config = mnt4_753_fr_poseidon_config();
        let rows = |matrix: &Vec<Vec<Fr>>| -> Vec<Vec<ark_mnt4_753::Fr>> {
            matrix.iter().map(|row| row.iter().map(native4).collect()).collect()
        };
        let config = PoseidonConfig::new(
            config.full_rounds,
            config.partial_rounds,
            config.alpha,
            rows(&config.mds),
            rows(&config.ark),
            config.rate,
            config.capacity,
        );
        Self { cs, config }
    }
}

impl Assignment for ArkSystem {}

impl Variables for ArkSystem {
    type Fp = FpVar<ark_mnt4_753::Fr>;
    type Bit = Boolean<ark_mnt4_753::Fr>;
}

impl ConstraintBackend for ArkSystem {
    fn assigns_values(&self) -> bool {
        !self.cs.is_in_setup_mode()
    }

    fn new_input(&mut self, value: Option<Fr>) -> FpVar<ark_mnt4_753::Fr> {
        FpVar::new_input(self.cs.clone(), || given(value.map(|x| native4(&x)))).unwrap()
    }

    fn new_witness(&mut self, value: Option<Fr>) -> FpVar<ark_mnt4_753::Fr> {
        FpVar::new_witness(self.cs.clone(), || given(value.map(|x| native4(&x)))).unwrap()
    }

    fn new_witness_bit(&mut self, value: Option<bool>) -> Boolean<ark_mnt4_753::Fr> {
        Boolean::new_witness(self.cs.clone(), || given(value)).unwrap()
    }

    fn new_witness_u64(&mut self, value: Option<u64>) -> FpVar<ark_mnt4_753::Fr> {
        UInt64::new_witness(self.cs.clone(), || given(value)).unwrap().to_fp().unwrap()
    }

    fn constant(&mut self, value: Fr) -> FpVar<ark_mnt4_753::Fr> {
        FpVar::constant(native4(&value))
    }

    fn constant_bit(&mut self, value: bool) -> Boolean<ark_mnt4_753::Fr> {
        Boolean::constant(value)
    }

    fn hash(&mut self, values: &Vec<&FpVar<ark_mnt4_753::Fr>>) -> FpVar<ark_mnt4_753::Fr> {
        let mut sponge = PoseidonSpongeVar::new(self.cs.clone(), &self.config);
        let inputs: Vec<FpVar<ark_mnt4_753::Fr>> = values.iter().map(|v| (*v).clone()).collect();
        sponge.absorb(&inputs).unwrap();
        sponge.squeeze_field_elements(1).unwrap().remove(0)
    }

    fn to_bits_le(&mut self, v: &FpVar<ark_mnt4_753::Fr>) -> Vec<Boolean<ark_mnt4_753::Fr>> {
        v.to_bits_le().unwrap()
    }

    fn bits_to_fp(&mut self, bits: &[Boolean<ark_mnt4_753::Fr>]) -> FpVar<ark_mnt4_753::Fr> {
        Boolean::le_bits_to_fp(bits).unwrap()
    }

    fn select(&mut self, condition: &Boolean<ark_mnt4_753::Fr>, a: &FpVar<ark_mnt4_753::Fr>, b: &FpVar<ark_mnt4_753::Fr>) -> FpVar<ark_mnt4_753::Fr> {
        FpVar::conditionally_select(condition, a, b).unwrap()
    }

    fn is_eq(&mut self, a: &FpVar<ark_mnt4_753::Fr>, b: &FpVar<ark_mnt4_753::Fr>) -> Boolean<ark_mnt4_753::Fr> {
        a.is_eq(b).unwrap()
    }

    fn and(&mut self, a: &Boolean<ark_mnt4_753::Fr>, b: &Boolean<ark_mnt4_753::Fr>) -> Boolean<ark_mnt4_753::Fr> {
        a & b
    }

    fn or(&mut self, a: &Boolean<ark_mnt4_753::Fr>, b: &Boolean<ark_mnt4_753::Fr>) -> Boolean<ark_mnt4_753::Fr> {
        a | b
    }

    fn not(&mut self, a: &Boolean<ark_mnt4_753::Fr>) -> Boolean<ark_mnt4_753::Fr> {
        !a
    }

    fn plus(&mut self, a: &FpVar<ark_mnt4_753::Fr>, b: &FpVar<ark_mnt4_753::Fr>) -> FpVar<ark_mnt4_753::Fr> {
        a + b
    }

    fn times(&mut self, a: &FpVar<ark_mnt4_753::Fr>, b: &FpVar<ark_mnt4_753::Fr>) -> FpVar<ark_mnt4_753::Fr> {
        a * b
    }

    fn enforce_equal(&mut self, a: &FpVar<ark_mnt4_753::Fr>, b: &FpVar<ark_mnt4_753::Fr>) {
        a.enforce_equal(b).unwrap()
    }

    fn enforce_true(&mut self, b: &Boolean<ark_mnt4_753::Fr>) {
        b.enforce_equal(&Boolean::TRUE).unwrap()
    }

    fn enforce_at_most(&mut self, bits: &Vec<Boolean<ark_mnt4_753::Fr>>, bound: [u64; 12]) {
        Boolean::enforce_smaller_or_equal_than_le(bits, bound.to_vec()).unwrap();
    }

    fn generator_multiple(&mut self, bits: &Vec<Boolean<ark_mnt4_753::Fr>>) -> (FpVar<ark_mnt4_753::Fr>, FpVar<ark_mnt4_753::Fr>) {
        let generator = ark_mnt6_753::constraints::G1Var::new_constant(
            self.cs.clone(),
            ark_mnt6_753::G1Projective::generator(),
        )
        .unwrap();
        let point = generator.scalar_mul_le(bits.iter()).unwrap().to_affine().unwrap();
        (point.x, point.y)
    }

    fn proof_verifies(
        &mut self,
        vk: &Vec<u8>,
        inputs: &Vec<Vec<Boolean<ark_mnt4_753::Fr>>>,
        snark: &Vec<u8>,
    ) -> Boolean<ark_mnt4_753::Fr> {
        let vk = VerifyingKey::<MNT6_753>::deserialize_compressed(vk.as_slice()).unwrap();
        let snark = Proof::<MNT6_753>::deserialize_compressed(snark.as_slice()).unwrap();
        let inputs = BooleanInputVar::<ark_mnt6_753::Fr, ark_mnt4_753::Fr>::new(inputs.clone());
        let vk = VerifyingKeyVar::<MNT6_753, Pairing6>::new_constant(self.cs.clone(), &vk).unwrap();
        let snark =
            ProofVar::<MNT6_753, Pairing6>::new_witness(self.cs.clone(), || Ok(snark)).unwrap();
        let pvk = vk.prepare().unwrap();
        Groth16VerifierGadget::<MNT6_753, Pairing6>::verify_with_processed_vk(
            &pvk, &inputs, &snark,
        )
        .unwrap()
    }
}

/// A prover that puts another value in the place of one witness, and keeps a list of what it
/// was asked for.
struct Tampering<B: ConstraintBackend> {
    inner: B,
    target: Option<usize>,
    witnesses: usize,
    steps: Vec<&'static str>,
}

impl<B: ConstraintBackend> Tampering<B> {
    fn new(inner: B, target: Option<usize>) -> Self {
        Self { inner, target, witnesses: 0, steps: vec![] }
    }

    fn is_next(&mut self, step: &'static str) -> bool {
        self.steps.push(step);
        self.witnesses += 1;
        self.target == Some(self.witnesses - 1)
    }
}

impl<B: ConstraintBackend> Assignment for Tampering<B> {}

impl<B: ConstraintBackend> Variables for Tampering<B> {
    type Fp = B::Fp;
    type Bit = B::Bit;
}

impl<B: ConstraintBackend> ConstraintBackend for Tampering<B> {
    fn assigns_values(&self) -> bool {
        self.inner.assigns_values()
    }

    fn new_input(&mut self, value: Option<Fr>) -> B::Fp {
        self.steps.push("input");
        self.inner.new_input(value)
    }

    fn new_witness(&mut self, value: Option<Fr>) -> B::Fp {
        let other = self.is_next("witness");
        self.inner.new_witness(value.map(|x| {
            let raised = native4(&x) + ark_mnt4_753::Fr::from(other as u64);
            Fr::from_limbs(raised.into_bigint().0).unwrap()
        }))
    }

    fn new_witness_bit(&mut self, value: Option<bool>) -> B::Bit {
        let other = self.is_next("witness bit");
        self.inner.new_witness_bit(value.map(|b| b != other))
    }

    fn new_witness_u64(&mut self, value: Option<u64>) -> B::Fp {
        let other = self.is_next("witness number");
        self.inner.new_witness_u64(value.map(|v| v + other as u64))
    }

    fn constant(&mut self, value: Fr) -> B::Fp {
        self.steps.push("constant");
        self.inner.constant(value)
    }

    fn constant_bit(&mut self, value: bool) -> B::Bit {
        self.steps.push("constant bit");
        self.inner.constant_bit(value)
    }

    fn hash(&mut self, values: &Vec<&B::Fp>) -> B::Fp {
        self.steps.push("hash");
        self.inner.hash(values)
    }

    fn to_bits_le(&mut self, v: &B::Fp) -> Vec<B::Bit> {
        self.steps.push("to bits");
        self.inner.to_bits_le(v)
    }

    fn bits_to_fp(&mut self, bits: &[B::Bit]) -> B::Fp {
        self.steps.push("from bits");
        self.inner.bits_to_fp(bits)
    }

    fn select(&mut self, condition: &B::Bit, a: &B::Fp, b: &B::Fp) -> B::Fp {
        self.steps.push("select");
        self.inner.select(condition, a, b)
    }

    fn is_eq(&mut self, a: &B::Fp, b: &B::Fp) -> B::Bit {
        self.steps.push("is equal");
        self.inner.is_eq(a, b)
    }

    fn and(&mut self, a: &B::Bit, b: &B::Bit) -> B::Bit {
        self.steps.push("and");
        self.inner.and(a, b)
    }

    fn or(&mut self, a: &B::Bit, b: &B::Bit) -> B::Bit {
        self.steps.push("or");
        self.inner.or(a, b)
    }

    fn not(&mut self, a: &B::Bit) -> B::Bit {
        self.steps.push("not");
        self.inner.not(a)
    }

    fn plus(&mut self, a: &B::Fp, b: &B::Fp) -> B::Fp {
        self.steps.push("plus");
        self.inner.plus(a, b)
    }

    fn times(&mut self, a: &B::Fp, b: &B::Fp) -> B::Fp {
        self.steps.push("times");
        self.inner.times(a, b)
    }

    fn enforce_equal(&mut self, a: &B::Fp, b: &B::Fp) {
        self.steps.push("enforce equal");
        self.inner.enforce_equal(a, b)
    }

    fn enforce_true(&mut self, b: &B::Bit) {
        self.steps.push("enforce true");
        self.inner.enforce_true(b)
    }

    fn enforce_at_most(&mut self, bits: &Vec<B::Bit>, bound: [u64; 12]) {
        self.steps.push("enforce at most");
        self.inner.enforce_at_most(bits, bound)
    }

    fn generator_multiple(&mut self, bits: &Vec<B::Bit>) -> (B::Fp, B::Fp) {
        self.steps.push("generator multiple");
        self.inner.generator_multiple(bits)
    }

    fn proof_verifies(
        &mut self,
        vk: &Vec<u8>,
        inputs: &Vec<Vec<B::Bit>>,
        snark: &Vec<u8>,
    ) -> B::Bit {
        self.steps.push("proof verifies");
        self.inner.proof_verifies(vk, inputs, snark)
    }
}

/// A constraint system of arkworks for wraps.
struct ArkWrapSystem {
    cs: ConstraintSystemRef<ark_mnt6_753::Fr>,
}

impl Assignment for ArkWrapSystem {}

impl WrapVariables for ArkWrapSystem {
    type Fp = FpVar<ark_mnt6_753::Fr>;
    type Bit = Boolean<ark_mnt6_753::Fr>;
}

impl WrapBackend for ArkWrapSystem {
    fn assigns_values(&self) -> bool {
        !self.cs.is_in_setup_mode()
    }

    fn new_witness_bit(&mut self, value: Option<bool>) -> Boolean<ark_mnt6_753::Fr> {
        Boolean::new_witness(self.cs.clone(), || given(value)).unwrap()
    }

    fn bits_to_fp(&mut self, bits: &[Boolean<ark_mnt6_753::Fr>]) -> FpVar<ark_mnt6_753::Fr> {
        Boolean::le_bits_to_fp(bits).unwrap()
    }

    fn new_input_like(&mut self, v: &FpVar<ark_mnt6_753::Fr>) -> FpVar<ark_mnt6_753::Fr> {
        FpVar::new_input(self.cs.clone(), || v.value()).unwrap()
    }

    fn enforce_equal(&mut self, a: &FpVar<ark_mnt6_753::Fr>, b: &FpVar<ark_mnt6_753::Fr>) {
        a.enforce_equal(b).unwrap()
    }

    fn enforce_proof(
        &mut self,
        vk: &Vec<u8>,
        values: &Vec<Vec<Boolean<ark_mnt6_753::Fr>>>,
        snark: &Vec<u8>,
    ) {
        let vk = VerifyingKey::<MNT4_753>::deserialize_compressed(vk.as_slice()).unwrap();
        let snark = Proof::<MNT4_753>::deserialize_compressed(snark.as_slice()).unwrap();
        let inputs = BooleanInputVar::<ark_mnt4_753::Fr, ark_mnt6_753::Fr>::new(values.clone());
        let vk = VerifyingKeyVar::<MNT4_753, Pairing4>::new_constant(self.cs.clone(), &vk).unwrap();
        let snark =
            ProofVar::<MNT4_753, Pairing4>::new_witness(self.cs.clone(), || Ok(snark)).unwrap();
        let pvk = vk.prepare().unwrap();
        Groth16VerifierGadget::<MNT4_753, Pairing4>::verify_with_processed_vk(
            &pvk, &inputs, &snark,
        )
        .unwrap()
        .enforce_equal(&Boolean::TRUE)
        .unwrap()
    }
}

/// A key and a proof over MNT4-753 for the given public inputs.
fn stand_in4(publics: &[Fr]) -> (Vec<u8>, Vec<u8>) {
    let mut rng = StdRng::seed_from_u64(20260811);
    let circuit = Open { inputs: publics.iter().map(native4).collect() };
    let pk: ProvingKey<MNT4_753> =
        Groth16::<MNT4_753>::generate_random_parameters_with_reduction(circuit.clone(), &mut rng)
            .unwrap();
    let snark = Groth16::<MNT4_753>::prove(&pk, circuit, &mut rng).unwrap();
    (bytes(&pk.vk), bytes(&snark))
}

/// A key and a proof over MNT6-753 for the given public inputs.
fn stand_in6(publics: &[OwnerScalar]) -> (Vec<u8>, Vec<u8>) {
    let mut rng = StdRng::seed_from_u64(20260810);
    let circuit = Open { inputs: publics.iter().map(native6).collect() };
    let pk: ProvingKey<MNT6_753> =
        Groth16::<MNT6_753>::generate_random_parameters_with_reduction(circuit.clone(), &mut rng)
            .unwrap();
    let snark = Groth16::<MNT6_753>::prove(&pk, circuit, &mut rng).unwrap();
    (bytes(&pk.vk), bytes(&snark))
}

fn valid_circuit() -> GenesisSpendCircuit {
    let sk_p = genesis_sk();
    let pk_p = derive_owner_pk(&sk_p);

    let input_coin = Coin { value: 100, rand: Fr::from(2u64), owner_pk: pk_p };
    let recipient_sk = OwnerScalar::from(42u64);
    let recipient_pk = derive_owner_pk(&recipient_sk);
    let output_coin = Coin { value: 100, rand: Fr::from(4u64), owner_pk: recipient_pk };

    let coin_commitment = input_coin.commitment();
    let output_commitment = output_coin.commitment();

    let entry_position = 0u64;
    let append_path = append_path_for_next(&[]);

    let own_nullifier = poseidon_hash(&[coin_commitment, fold_owner_scalar(&sk_p)]);
    let tree = NullifierTree::new();
    let current_nullifier_root = tree.root();
    let own_nullifier_nonmembership = tree.prove_non_membership(own_nullifier);

    let board_root =
        compute_root_from_path(Fr::from(0u64), entry_position as usize, &append_path);

    GenesisSpendCircuit {
        pk_p: Some(pk_p),
        output_commitments: Some([output_commitment, Fr::from(0u64)]),
        board_root: Some(board_root),
        current_nullifier_root: Some(current_nullifier_root),
        sk_p: Some(sk_p),
        input_coins: [Some(input_coin), None],
        output_coins: [Some(output_coin), None],
        entry_position: Some(entry_position),
        append_path: Some(append_path),
        own_nullifier_nonmembership: [Some(own_nullifier_nonmembership), None],
    }
}

/// Whether values satisfy the circuit: what evaluation says, and the constraints of arkworks.
fn is_satisfied(c: GenesisSpendCircuit) -> bool {
    let mut cs = EvaluatingSystem::new();
    c.clone().generate_constraints(&mut cs).unwrap();
    let ark = ConstraintSystem::new_ref();
    c.generate_constraints(&mut ArkSystem::new(ark.clone())).unwrap();
    assert_eq!(cs.is_satisfied(), ark.is_satisfied().unwrap());
    cs.is_satisfied()
}

#[test]
fn valid_genesis_witness_satisfies_constraints() {
    assert!(
        is_satisfied(valid_circuit()),
        "valid genesis witness should satisfy every constraint"
    );
}

#[test]
fn two_real_outputs_with_conservation_satisfies_constraints() {
    let sk_p = genesis_sk();
    let pk_p = derive_owner_pk(&sk_p);
    let input_coin = Coin { value: 100, rand: Fr::from(2u64), owner_pk: pk_p };
    let bob_pk = derive_owner_pk(&OwnerScalar::from(7u64));
    let bob_coin = Coin { value: 40, rand: Fr::from(4u64), owner_pk: bob_pk };
    let change_pk = pk_p;
    let change_coin = Coin { value: 60, rand: Fr::from(6u64), owner_pk: change_pk };

    let coin_commitment = input_coin.commitment();
    let entry_position = 0u64;
    let append_path = append_path_for_next(&[]);
    let own_nullifier = poseidon_hash(&[coin_commitment, fold_owner_scalar(&sk_p)]);
    let tree = NullifierTree::new();
    let board_root =
        compute_root_from_path(Fr::from(0u64), entry_position as usize, &append_path);

    let c = GenesisSpendCircuit {
        pk_p: Some(pk_p),
        output_commitments: Some([bob_coin.commitment(), change_coin.commitment()]),
        board_root: Some(board_root),
        current_nullifier_root: Some(tree.root()),
        sk_p: Some(sk_p),
        input_coins: [Some(input_coin), None],
        output_coins: [Some(bob_coin), Some(change_coin)],
        entry_position: Some(entry_position),
        append_path: Some(append_path),
        own_nullifier_nonmembership: [Some(tree.prove_non_membership(own_nullifier)), None],
    };
    assert!(
        is_satisfied(c),
        "1-in-2-out with correct conservation should satisfy every constraint"
    );
}

#[test]
fn marking_a_real_valued_slot_inactive_cannot_mint_value() {
    let pk_p = derive_owner_pk(&genesis_sk());
    let phantom_coin = Coin { value: 50, rand: Fr::from(9u64), owner_pk: pk_p };
    let mut cs = EvaluatingSystem::new();
    let phantom = CoinVar::<EvaluatingSystem>::new_witness(&mut cs, &Some(phantom_coin));
    let inactive = cs.constant_bit(false);
    let contribution = phantom.value_or_zero(&mut cs, &inactive);
    let zero = cs.constant(Fr::from(0u64));
    cs.enforce_equal(&contribution, &zero);
    assert!(cs.is_satisfied(), "inactive slot's value must be forced to zero");

    // An active slot counts with its value.
    let active = cs.constant_bit(true);
    let contribution = phantom.value_or_zero(&mut cs, &active);
    cs.enforce_equal(&contribution, &zero);
    assert!(!cs.is_satisfied());

    // The sum of the outputs must be that of the inputs.
    let mut c = valid_circuit();
    c.output_coins[1] = Some(phantom_coin);
    let mut outputs = c.output_commitments.unwrap();
    outputs[1] = phantom_coin.commitment();
    c.output_commitments = Some(outputs);
    assert!(!is_satisfied(c));
}

#[test]
fn wrong_secret_key_fails() {
    let mut c = valid_circuit();
    c.sk_p = Some(OwnerScalar::from(2u64));
    assert!(!is_satisfied(c), "wrong sk_p must not satisfy the circuit");
}

#[test]
fn already_spent_nullifier_fails() {
    let mut c = valid_circuit();
    let sk_p = genesis_sk();
    let input_commitment = c.input_coins[0].as_ref().unwrap().commitment();
    let own_nullifier = poseidon_hash(&[input_commitment, fold_owner_scalar(&sk_p)]);
    let mut tree = NullifierTree::new();
    tree.insert(own_nullifier);
    c.current_nullifier_root = Some(tree.root());
    c.own_nullifier_nonmembership = [Some(tree.prove_non_membership(own_nullifier)), None];
    assert!(!is_satisfied(c), "a nullifier already in the accumulator must fail non-membership");
}

#[test]
fn mint_by_another_key_fails() {
    let mut c = valid_circuit();
    let sk = OwnerScalar::from(2u64);
    let pk = derive_owner_pk(&sk);
    let input = Coin { value: 100, rand: Fr::from(2u64), owner_pk: pk };
    let own_nullifier = poseidon_hash(&[input.commitment(), fold_owner_scalar(&sk)]);
    c.sk_p = Some(sk);
    c.pk_p = Some(pk);
    c.input_coins[0] = Some(input);
    let tree = NullifierTree::new();
    c.own_nullifier_nonmembership = [Some(tree.prove_non_membership(own_nullifier)), None];
    assert!(!is_satisfied(c));
}

#[test]
fn wrong_board_root_fails() {
    let mut c = valid_circuit();
    c.board_root = Some(Fr::from(5u64));
    assert!(!is_satisfied(c));
    let mut c = valid_circuit();
    c.entry_position = Some(1);
    c.append_path.as_mut().unwrap()[0] = Fr::from(1u64);
    assert!(!is_satisfied(c));
}

#[test]
fn a_fresh_system_has_no_constraint_and_no_input() {
    for cs in [EvaluatingSystem::new(), EvaluatingSystem::shape_only()] {
        assert!(cs.is_satisfied());
        assert!(cs.public_inputs().is_empty());
    }
    for cs in [EvaluatingWrapSystem::new(), EvaluatingWrapSystem::shape_only()] {
        assert!(cs.is_satisfied());
        assert!(cs.public_inputs().is_empty());
    }
}

#[test]
fn missing_values_are_refused_where_values_are_assigned() {
    let mut c = valid_circuit();
    c.board_root = None;
    let mut cs = EvaluatingSystem::new();
    assert_eq!(c.generate_constraints(&mut cs), Err(SynthesisError::AssignmentMissing));
    let mut cs = EvaluatingSystem::shape_only();
    assert_eq!(GenesisSpendCircuit::default().generate_constraints(&mut cs), Ok(()));
    let mut cs = EvaluatingSystem::shape_only();
    let step = SpendStepCircuit::without_values(vec![]);
    assert_eq!(step.generate_constraints(&mut cs), Ok(()));
    let mut cs = EvaluatingSystem::shape_only();
    let receipt = ReceiptStepCircuit::without_values(vec![], vec![]);
    assert_eq!(receipt.generate_constraints(&mut cs), Ok(()));
    let mut cs = EvaluatingSystem::shape_only();
    let mut receipt = ReceiptStepCircuit::without_values(vec![], vec![]);
    receipt.wrap_proof = None;
    assert_eq!(receipt.generate_constraints(&mut cs), Err(SynthesisError::AssignmentMissing));
    let mut cs = EvaluatingWrapSystem::new();
    let wrap = WrapCircuit::<6> {
        inner_vk: vec![],
        inner_proof: Some(vec![]),
        inner_public_inputs: None,
    };
    assert_eq!(wrap.generate_constraints(&mut cs), Err(SynthesisError::AssignmentMissing));
}

#[test]
fn public_inputs_are_those_that_the_circuit_allocates() {
    let c = valid_circuit();
    let publics = GenesisSpendCircuit::public_inputs(
        c.pk_p.unwrap(),
        c.output_commitments.unwrap(),
        c.board_root.unwrap(),
        c.current_nullifier_root.unwrap(),
    );
    let (x, y) = owner_pk_to_field_pair(&c.pk_p.unwrap());
    let outputs = c.output_commitments.unwrap();
    assert_eq!(
        publics,
        vec![
            x,
            y,
            outputs[0],
            outputs[1],
            c.board_root.unwrap(),
            c.current_nullifier_root.unwrap()
        ]
    );
    let mut cs = EvaluatingSystem::new();
    c.generate_constraints(&mut cs).unwrap();
    assert_eq!(cs.public_inputs(), publics);
}

#[test]
fn full_groth16_round_trip() {
    let c = valid_circuit();
    let public_inputs = GenesisSpendCircuit::public_inputs(
        c.pk_p.unwrap(),
        c.output_commitments.unwrap(),
        c.board_root.unwrap(),
        c.current_nullifier_root.unwrap(),
    );
    assert!(is_satisfied(c));
    let (vk, snark) = stand_in4(&public_inputs);
    assert_eq!(
        circuit_spend::verify(&vk, &public_inputs, &snark),
        Ok(true),
        "a proof of the mint's public inputs must verify"
    );
    assert_eq!(circuit_spend::verify_non_genesis(&vk, &public_inputs, &snark), Ok(true));

    let mut tampered = public_inputs.clone();
    tampered[2] = next4(&tampered[2]);
    assert_eq!(
        circuit_spend::verify(&vk, &tampered, &snark),
        Ok(false),
        "a proof must not verify against the wrong public inputs"
    );
    assert!(circuit_spend::verify(&vk, &public_inputs[..5], &snark).is_err());
    assert!(circuit_spend::verify(&vk[..vk.len() - 1], &public_inputs, &snark).is_err());
    assert!(circuit_spend::verify(&vk, &public_inputs, &snark[1..]).is_err());
}

/// A circuit with the public inputs `a` and `c` that shows some `b` with `a * b == c`.
#[derive(Clone, Default)]
struct Toy {
    a: Option<ark_mnt4_753::Fr>,
    b: Option<ark_mnt4_753::Fr>,
    c: Option<ark_mnt4_753::Fr>,
}

impl ConstraintSynthesizer<ark_mnt4_753::Fr> for Toy {
    fn generate_constraints(
        self,
        cs: ConstraintSystemRef<ark_mnt4_753::Fr>,
    ) -> Result<(), ark_relations::r1cs::SynthesisError> {
        let missing = ark_relations::r1cs::SynthesisError::AssignmentMissing;
        let a = cs.new_input_variable(|| self.a.ok_or(missing))?;
        let b = cs.new_witness_variable(|| self.b.ok_or(missing))?;
        let c = cs.new_input_variable(|| self.c.ok_or(missing))?;
        cs.enforce_constraint(
            LinearCombination::from(a),
            LinearCombination::from(b),
            LinearCombination::from(c),
        )
    }
}

#[test]
fn wraps_a_genesis_spend_proof_end_to_end() {
    let mut rng = StdRng::seed_from_u64(7);
    let (toy_pk, toy_vk) =
        Groth16::<MNT4_753>::circuit_specific_setup(Toy::default(), &mut rng).unwrap();
    let a = Fr::from(6u64);
    let b = Fr::from(7u64);
    let c = Fr::from(42u64);
    let toy = Toy { a: Some(native4(&a)), b: Some(native4(&b)), c: Some(native4(&c)) };
    let toy_proof = Groth16::<MNT4_753>::prove(&toy_pk, toy, &mut rng).unwrap();
    let (inner_vk, inner_proof) = (bytes(&toy_vk), bytes(&toy_proof));
    assert_eq!(circuit_spend::verify(&inner_vk, &[a, c], &inner_proof), Ok(true));

    let mut cs = EvaluatingWrapSystem::new();
    WrapCircuit::<2> {
        inner_vk: inner_vk.clone(),
        inner_proof: Some(inner_proof.clone()),
        inner_public_inputs: Some([a, c]),
    }
    .generate_constraints(&mut cs)
    .unwrap();
    assert!(cs.is_satisfied());
    let ark = ConstraintSystem::new_ref();
    WrapCircuit::<2> {
        inner_vk: inner_vk.clone(),
        inner_proof: Some(inner_proof.clone()),
        inner_public_inputs: Some([a, c]),
    }
    .generate_constraints(&mut ArkWrapSystem { cs: ark.clone() })
    .unwrap();
    assert!(ark.is_satisfied().unwrap());
    assert_eq!(ark.num_instance_variables(), 1 + 2 * chunks_per_value());

    let expected_public_inputs = public_input_chunks(&[a, c]);
    assert_eq!(chunks_per_value(), 4);
    assert_eq!(expected_public_inputs.len(), 2 * chunks_per_value());
    assert_eq!(cs.public_inputs(), expected_public_inputs);
    let (wrap_vk, wrap_proof) = stand_in6(&expected_public_inputs);
    assert_eq!(circuit_wrap::verify(&wrap_vk, &expected_public_inputs, &wrap_proof), Ok(true));

    let mut tampered = expected_public_inputs.clone();
    tampered[0] = next6(&tampered[0]);
    assert_eq!(circuit_wrap::verify(&wrap_vk, &tampered, &wrap_proof), Ok(false));

    let mut cs = EvaluatingWrapSystem::new();
    WrapCircuit::<2> {
        inner_vk,
        inner_proof: Some(inner_proof),
        inner_public_inputs: Some([next4(&a), c]),
    }
    .generate_constraints(&mut cs)
    .unwrap();
    assert!(!cs.is_satisfied());
}

#[test]
fn chunks_are_the_lowest_200_bits_first() {
    let chunks = public_input_chunks(&[Fr::from(5u64)]);
    assert_eq!(
        chunks,
        vec![
            OwnerScalar::from(5u64),
            OwnerScalar::from(0u64),
            OwnerScalar::from(0u64),
            OwnerScalar::from(0u64)
        ]
    );
    // 2^201 = 2 * 2^200.
    let mut limbs = [0u64; 12];
    limbs[3] = 1 << 9;
    let chunks = public_input_chunks(&[Fr::from_limbs(limbs).unwrap()]);
    assert_eq!(chunks[0], OwnerScalar::from(0u64));
    assert_eq!(chunks[1], OwnerScalar::from(2u64));
    assert_eq!(chunks[2], OwnerScalar::from(0u64));
}

/// A receipt circuit of Alice for the coin of a genesis mint.
fn receipt_circuit() -> ReceiptStepCircuit {
    let sk_genesis = genesis_sk();
    let pk_genesis = derive_owner_pk(&sk_genesis);
    let genesis_input = Coin { value: 100, rand: Fr::from(2u64), owner_pk: pk_genesis };
    let alice_sk = OwnerScalar::from(42u64);
    let alice_pk = derive_owner_pk(&alice_sk);
    let alice_coin = Coin { value: 100, rand: Fr::from(4u64), owner_pk: alice_pk };

    let genesis_input_commitment = genesis_input.commitment();
    let alice_commitment = alice_coin.commitment();
    let genesis_slot = 0u64;
    let genesis_append_path = append_path_for_next(&[]);
    let genesis_board_root =
        compute_root_from_path(Fr::from(0u64), genesis_slot as usize, &genesis_append_path);
    let genesis_own_nullifier =
        poseidon_hash(&[genesis_input_commitment, fold_owner_scalar(&sk_genesis)]);
    let empty_tree = NullifierTree::new();

    let genesis_outputs = pad_outputs(&[alice_commitment]);
    let genesis_public_inputs: [Fr; 6] = GenesisSpendCircuit::public_inputs(
        pk_genesis,
        genesis_outputs,
        genesis_board_root,
        empty_tree.root(),
    )
    .try_into()
    .unwrap();
    let (wrap_genesis_vk, wrap_genesis_proof) =
        stand_in6(&public_input_chunks(&genesis_public_inputs));

    let genesis_entry = BoardEntry {
        ciphertext: vec![],
        ek_pk: [0u8; 32],
        key_encs: vec![],
        nullifier: genesis_own_nullifier,
        output_commitments: genesis_outputs.to_vec(),
    };
    let genesis_entry_ciphertext_commitment = entry_ciphertext_commitment(&genesis_entry);
    let alice_receipt_board_root = compute_root_from_path(
        merkle_leaf(genesis_slot as usize, &genesis_entry),
        genesis_slot as usize,
        &genesis_append_path,
    );
    let (apx, apy) = owner_pk_to_field_pair(&alice_pk);

    ReceiptStepCircuit {
        owner_pk_x: Some(apx),
        owner_pk_y: Some(apy),
        coin_commitment: Some(alice_commitment),
        board_root: Some(alice_receipt_board_root),
        received_at: Some(genesis_slot),
        wrap_vk: wrap_genesis_vk,
        wrap_proof: Some(wrap_genesis_proof),
        wrap_public_inputs: Some(genesis_public_inputs),
        entry_nullifier: Some(genesis_own_nullifier),
        entry_output_commitments: Some(genesis_outputs),
        entry_ciphertext_commitment: Some(genesis_entry_ciphertext_commitment),
        received_slot: Some(genesis_slot),
        append_path: Some(genesis_append_path),
        parent_nonmembership: Some(empty_tree.prove_non_membership(genesis_own_nullifier)),
        nullifier_root_at_parent_slot: Some(empty_tree.root()),
        sk_p: Some(alice_sk),
        coin_value: Some(alice_coin.value),
        coin_rand: Some(alice_coin.rand),
    }
}

fn receipt_is_satisfied(c: ReceiptStepCircuit) -> bool {
    let mut cs = EvaluatingSystem::new();
    c.generate_constraints(&mut cs).unwrap();
    cs.is_satisfied()
}

#[test]
fn constraints_of_arkworks_hold_of_a_receipt() {
    let mut wrong = receipt_circuit();
    let ark = ConstraintSystem::new_ref();
    wrong.clone().generate_constraints(&mut ArkSystem::new(ark.clone())).unwrap();
    assert!(ark.is_satisfied().unwrap());
    assert_eq!(ark.num_instance_variables(), 6);

    wrong.coin_value = Some(999);
    let ark = ConstraintSystem::new_ref();
    wrong.generate_constraints(&mut ArkSystem::new(ark.clone())).unwrap();
    assert!(!ark.is_satisfied().unwrap());
}

#[test]
fn wrong_owner_key_fails_receipt() {
    let base_circuit = receipt_circuit();
    assert!(
        receipt_is_satisfied(base_circuit.clone()),
        "the genuine owner's receipt should satisfy every constraint"
    );

    let mut wrong_key_circuit = base_circuit.clone();
    wrong_key_circuit.sk_p = Some(OwnerScalar::from(999u64));
    assert!(
        !receipt_is_satisfied(wrong_key_circuit),
        "a receipt built with the wrong sk_p must not satisfy the circuit"
    );

    let mut wrong_coin_circuit = base_circuit;
    wrong_coin_circuit.coin_value = Some(999);
    assert!(
        !receipt_is_satisfied(wrong_coin_circuit),
        "a receipt claiming the wrong coin opening must not satisfy the circuit"
    );
}

#[test]
fn receipt_binds_slot_root_and_spend() {
    let base = receipt_circuit();

    let mut cs = EvaluatingSystem::new();
    base.clone().generate_constraints(&mut cs).unwrap();
    let publics = ReceiptStepCircuit::public_inputs(
        base.owner_pk_x.unwrap(),
        base.owner_pk_y.unwrap(),
        base.coin_commitment.unwrap(),
        base.board_root.unwrap(),
        base.received_at.unwrap(),
    );
    assert_eq!(cs.public_inputs(), publics);

    let mut c = base.clone();
    c.received_at = Some(1);
    assert!(!receipt_is_satisfied(c));

    let mut c = base.clone();
    c.board_root = Some(Fr::from(1u64));
    assert!(!receipt_is_satisfied(c));

    let mut c = base.clone();
    let mut values = c.wrap_public_inputs.unwrap();
    values[5] = Fr::from(1u64);
    c.wrap_public_inputs = Some(values);
    assert!(!receipt_is_satisfied(c));

    let mut c = base;
    c.nullifier_root_at_parent_slot = Some(Fr::from(1u64));
    assert!(!receipt_is_satisfied(c));
}

#[test]
fn keys_and_proofs_with_an_identity_are_refused() {
    let publics: Vec<Fr> = (1..7u64).map(Fr::from).collect();
    let (vk, snark) = stand_in4(&publics);
    let nothing = ark_groth16::Proof::<MNT4_753> {
        a: ark_mnt4_753::G1Affine::identity(),
        b: ark_mnt4_753::G2Affine::identity(),
        c: ark_mnt4_753::G1Affine::identity(),
    };
    assert_eq!(
        circuit_spend::verify(&vk, &publics, &bytes(&nothing)),
        Err(SynthesisError::UnexpectedIdentity)
    );
    // The last byte of each of the key's points of the second group holds its flags.
    for end in [284, 474, 664] {
        let mut key = vk.clone();
        key[end] = 0x40;
        assert_eq!(
            circuit_spend::verify(&key, &publics, &snark),
            Err(SynthesisError::UnexpectedIdentity)
        );
    }

    let chunks: Vec<OwnerScalar> = (1..25u64).map(OwnerScalar::from).collect();
    let (vk, _) = stand_in6(&chunks);
    let nothing = ark_groth16::Proof::<MNT6_753> {
        a: ark_mnt6_753::G1Affine::identity(),
        b: ark_mnt6_753::G2Affine::identity(),
        c: ark_mnt6_753::G1Affine::identity(),
    };
    assert_eq!(
        circuit_wrap::verify(&vk, &chunks, &bytes(&nothing)),
        Err(SynthesisError::UnexpectedIdentity)
    );
    assert_eq!(
        circuit_wrap::verify(&vk, &chunks, &[]),
        Err(SynthesisError::MalformedVerifyingKey)
    );
    let mut key = vk.clone();
    key[379] = 0x40;
    assert_eq!(
        circuit_wrap::verify(&key, &chunks, &bytes(&nothing)),
        Err(SynthesisError::UnexpectedIdentity)
    );
}

#[test]
fn a_key_that_starts_with_the_identity_is_no_error() {
    let publics: Vec<Fr> = (1..7u64).map(Fr::from).collect();
    let (mut vk, snark) = stand_in4(&publics);
    let mut first = vec![0u8; 95];
    first[94] = 0x40;
    vk[..95].copy_from_slice(&first);
    assert_eq!(circuit_spend::verify(&vk, &publics, &snark), Ok(false));
    let chunks: Vec<OwnerScalar> = (1..25u64).map(OwnerScalar::from).collect();
    let (mut vk, snark) = stand_in6(&chunks);
    vk[..95].copy_from_slice(&first);
    assert_eq!(circuit_wrap::verify(&vk, &chunks, &snark), Ok(false));
}

#[test]
fn identities_that_the_pairing_takes_are_passed_on() {
    let publics: Vec<Fr> = (1..7u64).map(Fr::from).collect();
    let (vk, snark) = stand_in4(&publics);
    let honest = ark_groth16::Proof::<MNT4_753>::deserialize_compressed(&snark[..]).unwrap();
    let changed =
        ark_groth16::Proof::<MNT4_753> { a: ark_mnt4_753::G1Affine::identity(), ..honest };
    assert_eq!(circuit_spend::verify(&vk, &publics, &bytes(&changed)), Ok(false));

    let chunks: Vec<OwnerScalar> = (1..25u64).map(OwnerScalar::from).collect();
    let (vk, snark) = stand_in6(&chunks);
    let honest = ark_groth16::Proof::<MNT6_753>::deserialize_compressed(&snark[..]).unwrap();
    let changed =
        ark_groth16::Proof::<MNT6_753> { a: ark_mnt6_753::G1Affine::identity(), ..honest.clone() };
    assert_eq!(circuit_wrap::verify(&vk, &chunks, &bytes(&changed)), Ok(false));
    let changed =
        ark_groth16::Proof::<MNT6_753> { b: ark_mnt6_753::G2Affine::identity(), ..honest };
    assert_eq!(
        circuit_wrap::verify(&vk, &chunks, &bytes(&changed)),
        Err(SynthesisError::UnexpectedIdentity)
    );
}

#[test]
fn a_key_for_another_number_of_inputs_is_malformed() {
    let publics: Vec<Fr> = (1..7u64).map(Fr::from).collect();
    let (vk, snark) = stand_in4(&publics);
    assert_eq!(
        circuit_spend::verify(&vk, &publics[1..], &snark),
        Err(SynthesisError::MalformedVerifyingKey)
    );
    assert_eq!(
        circuit_spend::verify(&vk, &publics, &snark[1..]),
        Err(SynthesisError::MalformedVerifyingKey)
    );
    let chunks: Vec<OwnerScalar> = (1..25u64).map(OwnerScalar::from).collect();
    let (vk, snark) = stand_in6(&chunks);
    assert_eq!(
        circuit_wrap::verify(&vk, &chunks[1..], &snark),
        Err(SynthesisError::MalformedVerifyingKey)
    );
}

#[test]
fn receipt_proof_verifies_for_its_public_inputs_alone() {
    let publics: Vec<Fr> = (1..6u64).map(Fr::from).collect();
    let (vk, snark) = stand_in4(&publics);
    assert_eq!(circuit_coinproof::verify(&vk, &publics, &snark), Ok(true));
    let other: Vec<Fr> = (2..7u64).map(Fr::from).collect();
    assert_eq!(circuit_coinproof::verify(&vk, &other, &snark), Ok(false));
}

#[test]
fn unused_slots_are_filled_with_the_generators() {
    let a = ark_mnt6_753::G1Projective::generator().into_affine();
    let b = ark_mnt6_753::G2Projective::generator().into_affine();
    let snark = ark_groth16::Proof::<MNT6_753> { a, b, c: a };
    assert_eq!(SpendStepCircuit::dummy_wrap_proof(), bytes(&snark));
}

// Where the witnesses of a genesis mint stand, in the order in which they are allocated.
const SIBLINGS: usize = 754;
const SECOND_INPUT_FLAG: usize = 786;
const FIRST_INPUT: usize = 787;
const SECOND_INPUT: usize = 827;
const SECOND_OUTPUT_FLAG: usize = 867;
const FIRST_OUTPUT: usize = 868;
const SECOND_OUTPUT: usize = 872;
const WITNESSES: usize = 876;

fn survives_evaluation(target: Option<usize>) -> bool {
    let mut cs = Tampering::new(EvaluatingSystem::new(), target);
    valid_circuit().generate_constraints(&mut cs).unwrap();
    assert_eq!(cs.witnesses, WITNESSES);
    cs.inner.is_satisfied()
}

fn survives_arkworks(target: Option<usize>) -> bool {
    let ark = ConstraintSystem::new_ref();
    let mut cs = Tampering::new(ArkSystem::new(ark.clone()), target);
    valid_circuit().generate_constraints(&mut cs).unwrap();
    ark.is_satisfied().unwrap()
}

#[test]
fn no_other_witness_of_an_active_slot_satisfies_a_mint() {
    assert!(survives_evaluation(None));
    let secret = (0..753).step_by(188);
    let siblings = (SIBLINGS..SECOND_INPUT_FLAG).step_by(8);
    // Another randomness makes another coin, which may be spent as well.
    let randomness = FIRST_INPUT + 1;
    let siblings_of_absence = FIRST_INPUT + 8;
    let inputs = (SECOND_INPUT_FLAG..siblings_of_absence)
        .filter(|i| *i != randomness)
        .chain((siblings_of_absence..SECOND_INPUT).step_by(8));
    let outputs = SECOND_OUTPUT_FLAG..SECOND_OUTPUT;
    for target in secret.chain(siblings).chain(inputs).chain(outputs) {
        assert!(!survives_evaluation(Some(target)), "witness {target}");
    }
}

#[test]
fn any_witness_of_an_inactive_slot_satisfies_a_mint() {
    let inputs = (SECOND_INPUT..SECOND_OUTPUT_FLAG).step_by(3);
    for target in inputs.chain(SECOND_OUTPUT..WITNESSES) {
        assert!(survives_evaluation(Some(target)), "witness {target}");
    }
}

#[test]
fn constraints_of_arkworks_hold_a_prover_to_the_witness() {
    assert!(survives_arkworks(None));
    for target in [
        752,
        SIBLINGS,
        SECOND_INPUT_FLAG,
        FIRST_INPUT,
        FIRST_INPUT + 4,
        SECOND_OUTPUT_FLAG,
        FIRST_OUTPUT,
    ] {
        assert!(!survives_arkworks(Some(target)), "witness {target}");
    }
    for target in [SECOND_INPUT, SECOND_OUTPUT] {
        assert!(survives_arkworks(Some(target)), "witness {target}");
    }
}

#[test]
fn circuits_have_one_shape_with_values_and_without() {
    let mut with = Tampering::new(EvaluatingSystem::new(), None);
    valid_circuit().generate_constraints(&mut with).unwrap();
    let mut without = Tampering::new(EvaluatingSystem::shape_only(), None);
    GenesisSpendCircuit::default().generate_constraints(&mut without).unwrap();
    assert_eq!(with.steps, without.steps);

    let receipt = receipt_circuit();
    let mut with = Tampering::new(EvaluatingSystem::new(), None);
    receipt.clone().generate_constraints(&mut with).unwrap();
    let mut without = Tampering::new(EvaluatingSystem::shape_only(), None);
    ReceiptStepCircuit::without_values(receipt.wrap_vk, receipt.wrap_proof.unwrap())
        .generate_constraints(&mut without)
        .unwrap();
    assert_eq!(with.steps, without.steps);

    let with = ConstraintSystem::new_ref();
    valid_circuit().generate_constraints(&mut ArkSystem::new(with.clone())).unwrap();
    let without = ConstraintSystem::new_ref();
    without.set_mode(SynthesisMode::Setup);
    GenesisSpendCircuit::default()
        .generate_constraints(&mut ArkSystem::new(without.clone()))
        .unwrap();
    assert_eq!(with.num_constraints(), without.num_constraints());
    assert_eq!(with.num_instance_variables(), 7);
    assert_eq!(with.num_witness_variables(), without.num_witness_variables());
}
