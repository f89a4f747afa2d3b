//! What a circuit needs of a constraint system, and a constraint system that evaluates.
//!
//! A circuit is written once, against [`ConstraintBackend`]. Run on an
//! [`EvaluatingSystem`] it tells whether a witness satisfies it; run on a backend that
//! records constraints it yields the circuit for proving.
//!
//! A backend either assigns values to variables (to prove or to evaluate) or only records
//! the shape of a circuit (to set it up). A proof has to convince those who do not trust the
//! prover, who may pick any witness. So what is said of values is said of any assignment that
//! satisfies the constraints; what is said of the given values holds of the honest assignment
//! alone.

use vstd::prelude::*;
use vstd::arithmetic::power2::pow2;
use crate::field;
use crate::field::{fr_plus, fr_times, limbs_from_bits_le, limbs_to_bits_le, Fr, OwnerScalar};
use crate::groth16;
use crate::groth16::mnt6_verify;
use crate::keys;
use crate::keys::{derive_owner_pk, owner_pk_to_field_pair};
use crate::limbs;
use crate::limbs::limbs_less;
use crate::poseidon;
use crate::poseidon::Hasher;

verus! {

/// Number of binary digits of an element of either field.
pub const FIELD_BITS: usize = 753;

/// The first of two numbers, given by their bits with the most significant first, is the
/// smaller one.
pub open spec fn bits_below(a: Seq<bool>, b: Seq<bool>) -> bool
    decreases a.len(),
{
    if a.len() == 0 || b.len() == 0 {
        false
    } else if a[0] != b[0] {
        b[0]
    } else {
        bits_below(a.drop_first(), b.drop_first())
    }
}

/// The state of a constraint system: one assignment of values to its variables, and what was
/// recorded.
pub trait Assignment: Sized {
    /// The system assigns values to variables.
    closed spec fn assigns(&self) -> bool {
        arbitrary()
    }

    /// The assignment takes the given values.
    closed spec fn honest(&self) -> bool {
        arbitrary()
    }

    /// Every constraint so far holds of the assignment.
    closed spec fn satisfied(&self) -> bool {
        arbitrary()
    }

    /// The values of the public inputs so far.
    closed spec fn inputs(&self) -> Seq<nat> {
        arbitrary()
    }

    /// What was recorded so far.
    closed spec fn shape(&self) -> Seq<Step> {
        arbitrary()
    }
}

/// The variables of a constraint system over the data-model field. What they stand for is up
/// to each system.
pub trait Variables: Assignment {
    /// A variable that stands for a field element.
    type Fp;

    /// A variable that stands for a bit.
    type Bit;

    /// The value of a variable.
    closed spec fn fp(v: Self::Fp) -> nat {
        arbitrary()
    }

    /// The value of a bit.
    closed spec fn bit(b: Self::Bit) -> bool {
        arbitrary()
    }
}

/// The values of bits.
pub open spec fn bit_values<B: Variables>(bits: Seq<B::Bit>) -> Seq<bool> {
    bits.map_values(|b: B::Bit| B::bit(b))
}

/// The values of variables.
pub open spec fn fp_values<B: Variables>(variables: Seq<B::Fp>) -> Seq<nat> {
    variables.map_values(|v: B::Fp| B::fp(v))
}

/// The values of referenced variables.
pub open spec fn referenced_values<B: Variables>(variables: Seq<&B::Fp>) -> Seq<nat> {
    variables.map_values(|v: &B::Fp| B::fp(*v))
}

/// The number that bits write, least significant first.
pub open spec fn number<B: Variables>(bits: Seq<B::Bit>) -> nat {
    field::bits_value(bit_values::<B>(bits))
}

/// The numbers that lists of bits write.
pub open spec fn numbers<B: Variables>(lists: Seq<Vec<B::Bit>>) -> Seq<nat> {
    lists.map_values(|bits: Vec<B::Bit>| number::<B>(bits@))
}

/// One step that a constraint system records, without the variables that it works on.
pub enum Step {
    Input,
    Witness,
    WitnessBit,
    WitnessNumber,
    Constant(nat),
    ConstantBit(bool),
    Hash(nat),
    ToBits,
    FromBits(nat),
    Select,
    IsEqual,
    And,
    Or,
    Not,
    Plus,
    Times,
    EnforceEqual,
    EnforceTrue,
    EnforceAtMost(nat),
    GeneratorMultiple,
    ProofVerifies(Seq<u8>, nat),
    EnforceProof(Seq<u8>, nat),
}

/// What is said of values can be relied on: the assignment is the honest one, or it satisfies
/// every constraint so far.
pub open spec fn reliable<B: Assignment>(cs: B) -> bool {
    cs.satisfied() || cs.honest()
}

/// A step that leaves the mode and the kind of assignment as they are.
pub open spec fn keeps_mode<B: Assignment>(before: B, after: B) -> bool {
    &&& after.assigns() == before.assigns()
    &&& after.honest() == before.honest()
}

/// A step that adds variables and what ties them together, and no public input. The honest
/// assignment satisfies what it adds.
pub open spec fn undisturbed<B: Assignment>(before: B, after: B) -> bool {
    &&& keeps_mode(before, after)
    &&& after.inputs() == before.inputs()
    &&& after.satisfied() ==> before.satisfied()
    &&& before.honest() ==> after.satisfied() == before.satisfied()
}

/// A step that adds constraints, which hold only where `condition` does, and no public input.
/// The honest assignment satisfies them where `condition` holds.
pub open spec fn constrained<B: Assignment>(before: B, after: B, condition: bool) -> bool {
    &&& keeps_mode(before, after)
    &&& after.inputs() == before.inputs()
    &&& after.satisfied() ==> before.satisfied() && condition
    &&& before.honest() ==> after.satisfied() == (before.satisfied() && condition)
}

/// Numbers as scalars: each reduced.
pub open spec fn scalars_of(values: Seq<nat>) -> Seq<nat> {
    values.map_values(|n: nat| n % field::owner_modulus())
}

/// A constraint system over the data-model field.
///
/// What is said of values is said of one assignment of values to the system's variables, which
/// may be any: nothing ties a witness to the value that is given for it but a constraint. The
/// honest assignment is the one that takes the given values. Where a system only records the
/// shape of a circuit, the clauses hold of every assignment to what it recorded.
pub trait ConstraintBackend: Variables {
    /// Whether the backend assigns values to variables.
    fn assigns_values(&self) -> (r: bool)
        ensures
            r == self.assigns(),
            self.honest() ==> r,
    ;

    /// A public input.
    fn new_input(&mut self, value: Option<Fr>) -> (v: Self::Fp)
        requires
            old(self).assigns() ==> value is Some,
        ensures
            keeps_mode(*old(self), *final(self)),
            final(self).shape() == old(self).shape().push(Step::Input),
            final(self).satisfied() == old(self).satisfied(),
            final(self).inputs() == old(self).inputs().push(Self::fp(v)),
            Self::fp(v) < field::fr_modulus(),
            final(self).honest() ==> Self::fp(v) == value->0@,
    ;

    /// A private witness.
    fn new_witness(&mut self, value: Option<Fr>) -> (v: Self::Fp)
        requires
            old(self).assigns() ==> value is Some,
        ensures
            undisturbed(*old(self), *final(self)),
            final(self).shape() == old(self).shape().push(Step::Witness),
            Self::fp(v) < field::fr_modulus(),
            final(self).honest() ==> Self::fp(v) == value->0@,
    ;

    /// A private witness that is a bit.
    fn new_witness_bit(&mut self, value: Option<bool>) -> (b: Self::Bit)
        requires
            old(self).assigns() ==> value is Some,
        ensures
            undisturbed(*old(self), *final(self)),
            final(self).shape() == old(self).shape().push(Step::WitnessBit),
            final(self).honest() ==> Self::bit(b) == value->0,
    ;

    /// A private witness that is held to 64 bits.
    fn new_witness_u64(&mut self, value: Option<u64>) -> (v: Self::Fp)
        requires
            old(self).assigns() ==> value is Some,
        ensures
            undisturbed(*old(self), *final(self)),
            final(self).shape() == old(self).shape().push(Step::WitnessNumber),
            reliable(*final(self)) ==> Self::fp(v) < pow2(64),
            final(self).honest() ==> Self::fp(v) == value->0 as nat,
    ;

    /// A constant.
    fn constant(&mut self, value: Fr) -> (v: Self::Fp)
        ensures
            undisturbed(*old(self), *final(self)),
            final(self).shape() == old(self).shape().push(Step::Constant(value@)),
            Self::fp(v) == value@,
    ;

    /// A constant bit.
    fn constant_bit(&mut self, value: bool) -> (b: Self::Bit)
        ensures
            undisturbed(*old(self), *final(self)),
            final(self).shape() == old(self).shape().push(Step::ConstantBit(value)),
            Self::bit(b) == value,
    ;

    /// The Poseidon hash of variables.
    fn hash(&mut self, values: &Vec<&Self::Fp>) -> (v: Self::Fp)
        ensures
            undisturbed(*old(self), *final(self)),
            final(self).shape() == old(self).shape().push(Step::Hash(values@.len())),
            reliable(*final(self)) ==> Self::fp(v) == poseidon::poseidon(
                referenced_values::<Self>(values@),
            ),
    ;

    /// The canonical binary digits of a variable, least significant first.
    fn to_bits_le(&mut self, v: &Self::Fp) -> (bits: Vec<Self::Bit>)
        ensures
            undisturbed(*old(self), *final(self)),
            final(self).shape() == old(self).shape().push(Step::ToBits),
            bits@.len() == FIELD_BITS,
            reliable(*final(self)) ==> number::<Self>(bits@) == Self::fp(*v),
    ;

    /// The number that bits write, least significant first.
    fn bits_to_fp(&mut self, bits: &[Self::Bit]) -> (v: Self::Fp)
        requires
            bits@.len() <= 248,
        ensures
            undisturbed(*old(self), *final(self)),
            final(self).shape() == old(self).shape().push(Step::FromBits(bits@.len())),
            reliable(*final(self)) ==> Self::fp(v) == number::<Self>(bits@),
    ;

    /// The first variable where the bit is set, else the second.
    fn select(&mut self, condition: &Self::Bit, a: &Self::Fp, b: &Self::Fp) -> (v: Self::Fp)
        ensures
            undisturbed(*old(self), *final(self)),
            final(self).shape() == old(self).shape().push(Step::Select),
            reliable(*final(self)) ==> Self::fp(v) == if Self::bit(*condition) {
                Self::fp(*a)
            } else {
                Self::fp(*b)
            },
    ;

    /// Whether two variables are equal.
    fn is_eq(&mut self, a: &Self::Fp, b: &Self::Fp) -> (r: Self::Bit)
        ensures
            undisturbed(*old(self), *final(self)),
            final(self).shape() == old(self).shape().push(Step::IsEqual),
            reliable(*final(self)) ==> Self::bit(r) == (Self::fp(*a) == Self::fp(*b)),
    ;

    /// Both bits.
    fn and(&mut self, a: &Self::Bit, b: &Self::Bit) -> (r: Self::Bit)
        ensures
            undisturbed(*old(self), *final(self)),
            final(self).shape() == old(self).shape().push(Step::And),
            reliable(*final(self)) ==> Self::bit(r) == (Self::bit(*a) && Self::bit(*b)),
    ;

    /// Either bit.
    fn or(&mut self, a: &Self::Bit, b: &Self::Bit) -> (r: Self::Bit)
        ensures
            undisturbed(*old(self), *final(self)),
            final(self).shape() == old(self).shape().push(Step::Or),
            reliable(*final(self)) ==> Self::bit(r) == (Self::bit(*a) || Self::bit(*b)),
    ;

    /// The opposite bit.
    fn not(&mut self, a: &Self::Bit) -> (r: Self::Bit)
        ensures
            undisturbed(*old(self), *final(self)),
            final(self).shape() == old(self).shape().push(Step::Not),
            reliable(*final(self)) ==> Self::bit(r) == !Self::bit(*a),
    ;

    /// The sum of two variables.
    fn plus(&mut self, a: &Self::Fp, b: &Self::Fp) -> (v: Self::Fp)
        ensures
            undisturbed(*old(self), *final(self)),
            final(self).shape() == old(self).shape().push(Step::Plus),
            reliable(*final(self)) ==> Self::fp(v) == (Self::fp(*a) + Self::fp(*b))
                % field::fr_modulus(),
    ;

    /// The product of two variables.
    fn times(&mut self, a: &Self::Fp, b: &Self::Fp) -> (v: Self::Fp)
        ensures
            undisturbed(*old(self), *final(self)),
            final(self).shape() == old(self).shape().push(Step::Times),
            reliable(*final(self)) ==> Self::fp(v) == (Self::fp(*a) * Self::fp(*b))
                % field::fr_modulus(),
    ;

    /// Constrain two variables to be equal.
    fn enforce_equal(&mut self, a: &Self::Fp, b: &Self::Fp)
        ensures
            constrained(*old(self), *final(self), Self::fp(*a) == Self::fp(*b)),
            final(self).shape() == old(self).shape().push(Step::EnforceEqual),
    ;

    /// Constrain a bit to be set.
    fn enforce_true(&mut self, b: &Self::Bit)
        ensures
            constrained(*old(self), *final(self), Self::bit(*b)),
            final(self).shape() == old(self).shape().push(Step::EnforceTrue),
    ;

    /// Constrain the number that bits write, least significant first, to be at most a bound.
    fn enforce_at_most(&mut self, bits: &Vec<Self::Bit>, bound: [u64; 12])
        requires
            bits@.len() == FIELD_BITS,
        ensures
            constrained(
                *old(self),
                *final(self),
                number::<Self>(bits@) <= limbs::limbs_value(bound@),
            ),
            final(self).shape() == old(self).shape().push(
                Step::EnforceAtMost(limbs::limbs_value(bound@)),
            ),
    ;

    /// The coordinates of the multiple of the key group's generator by a scalar, given by
    /// its bits with the least significant first.
    fn generator_multiple(&mut self, bits: &Vec<Self::Bit>) -> (r: (Self::Fp, Self::Fp))
        requires
            bits@.len() == FIELD_BITS,
        ensures
            undisturbed(*old(self), *final(self)),
            final(self).shape() == old(self).shape().push(Step::GeneratorMultiple),
            reliable(*final(self)) && number::<Self>(bits@) < field::owner_modulus() ==> (
                Self::fp(r.0),
                Self::fp(r.1),
            ) == keys::coordinates(keys::owner_point(number::<Self>(bits@))),
    ;

    /// Whether a proof over MNT6-753 verifies under a fixed key, for public inputs that are
    /// given by their bits with the least significant first. The proof is a witness, so a
    /// set bit tells that there is one. The bits of an input may write a number beyond the
    /// modulus; the input is that number, reduced. A circuit's shape needs some proof even
    /// where no values are assigned.
    fn proof_verifies(&mut self, vk: &Vec<u8>, inputs: &Vec<Vec<Self::Bit>>, snark: &Vec<u8>) -> (r:
        Self::Bit)
        requires
            old(self).honest() ==> forall|i: int|
                0 <= i < inputs@.len() ==> (#[trigger] inputs@[i])@.len() <= FIELD_BITS
                    && number::<Self>(inputs@[i]@) < field::owner_modulus(),
        ensures
            undisturbed(*old(self), *final(self)),
            final(self).shape() == old(self).shape().push(Step::ProofVerifies(vk@, inputs@.len())),
            reliable(*final(self)) && Self::bit(r) ==> groth16::mnt6_provable(
                vk@,
                scalars_of(numbers::<Self>(inputs@)),
            ),
            final(self).honest() ==> Self::bit(r) == (groth16::mnt6_outcome(
                vk@,
                numbers::<Self>(inputs@),
                snark@,
            ) == Ok::<bool, groth16::SynthesisError>(true)),
    ;
}

/// Both moduli have 753 binary digits.
pub proof fn lemma_moduli_below_753_bits()
    ensures
        field::fr_modulus() < pow2(753),
        field::owner_modulus() < pow2(753),
{
    vstd::arithmetic::power2::lemma2_to64();
    vstd::arithmetic::power2::lemma_pow2_adds(64, 64);
    vstd::arithmetic::power2::lemma_pow2_adds(128, 128);
    vstd::arithmetic::power2::lemma_pow2_adds(256, 256);
    vstd::arithmetic::power2::lemma_pow2_adds(512, 128);
    vstd::arithmetic::power2::lemma_pow2_adds(640, 64);
    vstd::arithmetic::power2::lemma_pow2_adds(704, 32);
    vstd::arithmetic::power2::lemma_pow2_adds(736, 17);
    assert(pow2(128) == 0x100000000000000000000000000000000nat) by (nonlinear_arith)
        requires
            pow2(128) == pow2(64) * pow2(64),
            pow2(64) == 0x10000000000000000nat,
            pow2(64) == 0x10000000000000000nat,
    ;
    assert(pow2(256) == 0x10000000000000000000000000000000000000000000000000000000000000000nat) by (nonlinear_arith)
        requires
            pow2(256) == pow2(128) * pow2(128),
            pow2(128) == 0x100000000000000000000000000000000nat,
            pow2(128) == 0x100000000000000000000000000000000nat,
    ;
    assert(pow2(512) == 0x100000000000000000000000000000000000000000000000000000000000000000000000000000000000000000000000000000000000000000000000000000000nat) by (nonlinear_arith)
        requires
            pow2(512) == pow2(256) * pow2(256),
            pow2(256) == 0x10000000000000000000000000000000000000000000000000000000000000000nat,
            pow2(256) == 0x10000000000000000000000000000000000000000000000000000000000000000nat,
    ;
    assert(pow2(640) == 0x10000000000000000000000000000000000000000000000000000000000000000000000000000000000000000000000000000000000000000000000000000000000000000000000000000000000000000nat) by (nonlinear_arith)
        requires
            pow2(640) == pow2(512) * pow2(128),
            pow2(512) == 0x100000000000000000000000000000000000000000000000000000000000000000000000000000000000000000000000000000000000000000000000000000000nat,
            pow2(128) == 0x100000000000000000000000000000000nat,
    ;
    assert(pow2(704) == 0x100000000000000000000000000000000000000000000000000000000000000000000000000000000000000000000000000000000000000000000000000000000000000000000000000000000000000000000000000000000nat) by (nonlinear_arith)
        requires
            pow2(704) == pow2(640) * pow2(64),
            pow2(640) == 0x10000000000000000000000000000000000000000000000000000000000000000000000000000000000000000000000000000000000000000000000000000000000000000000000000000000000000000nat,
            pow2(64) == 0x10000000000000000nat,
    ;
    assert(pow2(736) == 0x10000000000000000000000000000000000000000000000000000000000000000000000000000000000000000000000000000000000000000000000000000000000000000000000000000000000000000000000000000000000000000nat) by (nonlinear_arith)
        requires
            pow2(736) == pow2(704) * pow2(32),
            pow2(704) == 0x100000000000000000000000000000000000000000000000000000000000000000000000000000000000000000000000000000000000000000000000000000000000000000000000000000000000000000000000000000000nat,
            pow2(32) == 0x100000000nat,
    ;
    assert(pow2(753) == 0x200000000000000000000000000000000000000000000000000000000000000000000000000000000000000000000000000000000000000000000000000000000000000000000000000000000000000000000000000000000000000000000nat) by (nonlinear_arith)
        requires
            pow2(753) == pow2(736) * pow2(17),
            pow2(736) == 0x10000000000000000000000000000000000000000000000000000000000000000000000000000000000000000000000000000000000000000000000000000000000000000000000000000000000000000000000000000000000000000nat,
            pow2(17) == 0x20000nat,
    ;
}

/// The high bits of a small number are zero, so its low bits write the whole number.
pub proof fn lemma_low_bits_suffice(bits: Seq<bool>, k: nat)
    requires
        k <= bits.len(),
        field::bits_value(bits) < pow2(k),
    ensures
        field::bits_value(bits.take(k as int)) == field::bits_value(bits),
{
    poseidon::lemma_bits_value_split(bits, k as int);
    let high = field::bits_value(bits.skip(k as int));
    if high > 0 {
        assert(pow2(k) * high >= pow2(k)) by (nonlinear_arith)
            requires
                high >= 1,
        ;
    } else {
        assert(pow2(k) * 0 == 0) by (nonlinear_arith);
    }
}

/// The 753 canonical binary digits of a number below either modulus.
pub fn canonical_bits(limbs: [u64; 12]) -> (r: Vec<bool>)
    requires
        limbs::limbs_value(limbs@) < pow2(753),
    ensures
        r@.len() == FIELD_BITS,
        field::bits_value(r@) == limbs::limbs_value(limbs@),
{
    let mut bits = limbs_to_bits_le(limbs);
    proof {
        lemma_low_bits_suffice(bits@, 753);
    }
    let ghost all = bits@;
    bits.truncate(FIELD_BITS);
    assert(bits@ =~= all.take(753));
    bits
}

/// A constraint system that evaluates every constraint as it comes.
pub struct EvaluatingSystem {
    hasher: Hasher,
    assigning: bool,
    holds: bool,
    publics: Vec<Fr>,
    recorded: Ghost<Seq<Step>>,
}

impl EvaluatingSystem {
    /// A system that evaluates the values it is given.
    pub fn new() -> (r: EvaluatingSystem)
        ensures
            r.assigns(),
            r.honest(),
            r.satisfied(),
            r.inputs() == Seq::<nat>::empty(),
            r.shape() == Seq::<Step>::empty(),
    {
        let r = EvaluatingSystem {
            hasher: Hasher::new(),
            assigning: true,
            holds: true,
            publics: Vec::new(),
            recorded: Ghost(Seq::empty()),
        };
        assert(r.inputs() =~= Seq::<nat>::empty());
        r
    }

    /// A system that assigns no values and looks at a circuit's shape alone. It starts with no
    /// constraint and no public input.
    pub fn shape_only() -> (r: EvaluatingSystem)
        ensures
            !r.assigns(),
            !r.honest(),
            r.satisfied(),
            r.inputs() == Seq::<nat>::empty(),
            r.shape() == Seq::<Step>::empty(),
    {
        let r = EvaluatingSystem {
            hasher: Hasher::new(),
            assigning: false,
            holds: true,
            publics: Vec::new(),
            recorded: Ghost(Seq::empty()),
        };
        assert(r.inputs() =~= Seq::<nat>::empty());
        r
    }

    /// Whether every constraint so far holds.
    pub fn is_satisfied(&self) -> (r: bool)
        ensures
            r == self.satisfied(),
    {
        self.holds
    }

    /// The public inputs so far.
    pub fn public_inputs(&self) -> (r: Vec<Fr>)
        ensures
            field::fr_values(r@) == self.inputs(),
    {
        crate::coin::copy_frs(self.publics.as_slice())
    }
}

/// The given value, or zero where none is given.
fn or_zero(value: Option<Fr>) -> (r: Fr)
    ensures
        value is Some ==> r@ == value->0@,
{
    match value {
        Some(x) => x,
        None => Fr::from(0u64),
    }
}

impl Variables for EvaluatingSystem {
    type Fp = Fr;

    type Bit = bool;

    open spec fn fp(v: Fr) -> nat {
        v@
    }

    open spec fn bit(b: bool) -> bool {
        b
    }
}

impl Assignment for EvaluatingSystem {
    closed spec fn assigns(&self) -> bool {
        self.assigning
    }

    closed spec fn honest(&self) -> bool {
        self.assigning
    }

    closed spec fn satisfied(&self) -> bool {
        self.holds
    }

    closed spec fn inputs(&self) -> Seq<nat> {
        field::fr_values(self.publics@)
    }

    closed spec fn shape(&self) -> Seq<Step> {
        self.recorded@
    }
}

impl ConstraintBackend for EvaluatingSystem {
    fn assigns_values(&self) -> (r: bool) {
        self.assigning
    }

    fn new_input(&mut self, value: Option<Fr>) -> (v: Fr) {
        self.recorded = Ghost(self.recorded@.push(Step::Input));
        let v = or_zero(value);
        self.publics.push(v);
        proof {
            use_type_invariant(&v);
            assert(field::fr_values(self.publics@) =~= field::fr_values(old(self).publics@).push(
                v@,
            ));
        }
        v
    }

    fn new_witness(&mut self, value: Option<Fr>) -> (v: Fr) {
        self.recorded = Ghost(self.recorded@.push(Step::Witness));
        let v = or_zero(value);
        proof {
            use_type_invariant(&v);
        }
        v
    }

    fn new_witness_bit(&mut self, value: Option<bool>) -> (b: bool) {
        self.recorded = Ghost(self.recorded@.push(Step::WitnessBit));
        match value {
            Some(b) => b,
            None => false,
        }
    }

    fn new_witness_u64(&mut self, value: Option<u64>) -> (v: Fr) {
        self.recorded = Ghost(self.recorded@.push(Step::WitnessNumber));
        proof {
            vstd::arithmetic::power2::lemma2_to64();
        }
        match value {
            Some(x) => Fr::from(x),
            None => Fr::from(0u64),
        }
    }

    fn constant(&mut self, value: Fr) -> (v: Fr) {
        self.recorded = Ghost(self.recorded@.push(Step::Constant(value@)));
        value
    }

    fn constant_bit(&mut self, value: bool) -> (b: bool) {
        self.recorded = Ghost(self.recorded@.push(Step::ConstantBit(value)));
        value
    }

    fn hash(&mut self, values: &Vec<&Fr>) -> (v: Fr) {
        self.recorded = Ghost(self.recorded@.push(Step::Hash(values@.len())));
        let mut owned: Vec<Fr> = Vec::new();
        let mut i: usize = 0;
        while i < values.len()
            invariant
                i <= values@.len(),
                owned@.len() == i,
                forall|j: int| 0 <= j < i ==> (#[trigger] owned@[j])@ == (*values@[j])@,
            decreases values@.len() - i,
        {
            owned.push(*values[i]);
            i += 1;
        }
        assert(field::fr_values(owned@) =~= referenced_values::<Self>(values@));
        self.hasher.hash(owned.as_slice())
    }

    fn to_bits_le(&mut self, v: &Fr) -> (bits: Vec<bool>) {
        self.recorded = Ghost(self.recorded@.push(Step::ToBits));
        proof {
            use_type_invariant(v);
            lemma_moduli_below_753_bits();
        }
        let bits = canonical_bits(v.to_limbs());
        assert(bit_values::<Self>(bits@) =~= bits@);
        bits
    }

    fn bits_to_fp(&mut self, bits: &[bool]) -> (v: Fr) {
        self.recorded = Ghost(self.recorded@.push(Step::FromBits(bits@.len())));
        proof {
            poseidon::lemma_bits_value_bound(bits@);
            poseidon::lemma_modulus_exceeds_248_bits();
            if bits@.len() < 248 {
                vstd::arithmetic::power2::lemma_pow2_strictly_increases(bits@.len(), 248);
            }
            assert(bit_values::<Self>(bits@) =~= bits@);
        }
        match Fr::from_limbs(limbs_from_bits_le(bits)) {
            Some(v) => v,
            None => Fr::from(0u64),
        }
    }

    fn select(&mut self, condition: &bool, a: &Fr, b: &Fr) -> (v: Fr) {
        self.recorded = Ghost(self.recorded@.push(Step::Select));
        if *condition {
            *a
        } else {
            *b
        }
    }

    fn is_eq(&mut self, a: &Fr, b: &Fr) -> (r: bool) {
        self.recorded = Ghost(self.recorded@.push(Step::IsEqual));
        *a == *b
    }

    fn and(&mut self, a: &bool, b: &bool) -> (r: bool) {
        self.recorded = Ghost(self.recorded@.push(Step::And));
        *a && *b
    }

    fn or(&mut self, a: &bool, b: &bool) -> (r: bool) {
        self.recorded = Ghost(self.recorded@.push(Step::Or));
        *a || *b
    }

    fn not(&mut self, a: &bool) -> (r: bool) {
        self.recorded = Ghost(self.recorded@.push(Step::Not));
        !*a
    }

    fn plus(&mut self, a: &Fr, b: &Fr) -> (v: Fr) {
        self.recorded = Ghost(self.recorded@.push(Step::Plus));
        fr_plus(*a, *b)
    }

    fn times(&mut self, a: &Fr, b: &Fr) -> (v: Fr) {
        self.recorded = Ghost(self.recorded@.push(Step::Times));
        fr_times(*a, *b)
    }

    fn enforce_equal(&mut self, a: &Fr, b: &Fr) {
        self.recorded = Ghost(self.recorded@.push(Step::EnforceEqual));
        let equal = *a == *b;
        self.holds = self.holds && equal;
    }

    fn enforce_true(&mut self, b: &bool) {
        self.recorded = Ghost(self.recorded@.push(Step::EnforceTrue));
        self.holds = self.holds && *b;
    }

    fn enforce_at_most(&mut self, bits: &Vec<bool>, bound: [u64; 12]) {
        self.recorded = Ghost(self.recorded@.push(Step::EnforceAtMost(limbs::limbs_value(bound@))));
        assert(bit_values::<Self>(bits@) =~= bits@);
        let above = limbs_less(&bound, &limbs_from_bits_le(bits.as_slice()));
        self.holds = self.holds && !above;
    }

    fn generator_multiple(&mut self, bits: &Vec<bool>) -> (r: (Fr, Fr)) {
        self.recorded = Ghost(self.recorded@.push(Step::GeneratorMultiple));
        assert(bit_values::<Self>(bits@) =~= bits@);
        let scalar = match OwnerScalar::from_limbs(limbs_from_bits_le(bits.as_slice())) {
            Some(scalar) => scalar,
            None => OwnerScalar::from(0u64),
        };
        owner_pk_to_field_pair(&derive_owner_pk(&scalar))
    }

    fn proof_verifies(&mut self, vk: &Vec<u8>, inputs: &Vec<Vec<bool>>, snark: &Vec<u8>) -> (r:
        bool) {
        self.recorded = Ghost(self.recorded@.push(Step::ProofVerifies(vk@, inputs@.len())));
        if !self.assigning {
            return false;
        }
        let mut scalars: Vec<OwnerScalar> = Vec::new();
        let mut i: usize = 0;
        while i < inputs.len()
            invariant
                i <= inputs@.len(),
                scalars@.len() == i,
                forall|j: int|
                    0 <= j < inputs@.len() ==> (#[trigger] inputs@[j])@.len() <= FIELD_BITS
                        && number::<Self>(inputs@[j]@) < field::owner_modulus(),
                forall|j: int|
                    0 <= j < i ==> (#[trigger] scalars@[j])@ == number::<Self>(inputs@[j]@),
            decreases inputs@.len() - i,
        {
            assert(bit_values::<Self>(inputs@[i as int]@) =~= inputs@[i as int]@);
            let scalar = match OwnerScalar::from_limbs(limbs_from_bits_le(inputs[i].as_slice())) {
                Some(scalar) => scalar,
                None => OwnerScalar::from(0u64),
            };
            scalars.push(scalar);
            i += 1;
        }
        proof {
            let values = numbers::<Self>(inputs@);
            assert(groth16::owner_values(scalars@) =~= values);
            assert forall|j: int| 0 <= j < values.len() implies scalars_of(values)[j]
                == #[trigger] values[j] by {
                assert(number::<Self>(inputs@[j]@) < field::owner_modulus());
                vstd::arithmetic::div_mod::lemma_small_mod(values[j], field::owner_modulus());
            }
            assert(scalars_of(values) =~= values);
        }
        match mnt6_verify(vk.as_slice(), scalars.as_slice(), snark.as_slice()) {
            Ok(accepted) => accepted,
            Err(_) => false,
        }
    }
}

} // verus!
