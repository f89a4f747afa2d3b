//! The wrap circuit: it verifies a proof over MNT4-753 recursively, under a fixed key, and
//! exposes each of its public inputs again, cut into small pieces that are the same number
//! in either field.
//!
//! This is the translation layer between the two curves. It hashes nothing: the circuits
//! with the actual rules stay native to the data-model field.

use vstd::prelude::*;
use vstd::arithmetic::power2::pow2;
use crate::constraints;
use crate::constraints::{canonical_bits, Assignment, ConstraintBackend, Step, FIELD_BITS};
use crate::field;
use crate::field::{limbs_from_bits_le, Fr, OwnerScalar};
use crate::gadgets;
use crate::groth16;
use crate::groth16::{mnt4_verify, mnt6_verify, SynthesisError};
use crate::limbs;
use crate::poseidon;

verus! {

/// Bits per piece of a public input: few enough for a piece to be the same number in
/// either field.
pub const CHUNK_BITS: usize = 200;

/// How many pieces a field element is cut into.
pub fn chunks_per_value() -> (r: usize)
    ensures
        r == poseidon::piece_count(FIELD_BITS as nat, CHUNK_BITS as nat),
        r == 4,
{
    (FIELD_BITS + CHUNK_BITS - 1) / CHUNK_BITS
}

/// The `k`-th piece of a number.
pub open spec fn chunk_of(value: nat, k: nat) -> nat {
    (value / pow2(200 * k)) % pow2(200)
}

/// The pieces of numbers, each number's pieces together and the lowest first.
pub open spec fn chunks_of(values: Seq<nat>) -> Seq<nat> {
    Seq::new(4 * values.len(), |j: int| chunk_of(values[j / 4], (j % 4) as nat))
}

/// The pieces of the 753 bits of a number are its digits in base 2 to the power 200.
pub proof fn lemma_pieces_are_chunks(bits: Seq<bool>, k: nat)
    requires
        bits.len() == FIELD_BITS,
        k < 4,
    ensures
        field::bits_value(poseidon::piece(bits, 200, k as int)) == chunk_of(
            field::bits_value(bits),
            k,
        ),
        poseidon::piece(bits, 200, k as int).len() <= 200,
{
    let value = field::bits_value(bits);
    let start = 200 * k;
    let n = if k < 3 {
        200nat
    } else {
        153nat
    };
    assert(poseidon::piece(bits, 200, k as int) =~= bits.subrange(
        start as int,
        (start + n) as int,
    ));
    poseidon::lemma_bits_value_window(bits, start, n);
    if k == 3 {
        poseidon::lemma_bits_value_bound(bits);
        let high = value / pow2(600);
        vstd::arithmetic::power2::lemma_pow2_pos(600);
        vstd::arithmetic::power2::lemma_pow2_adds(600, 153);
        vstd::arithmetic::div_mod::lemma_multiply_divide_lt(
            value as int,
            pow2(600) as int,
            pow2(153) as int,
        );
        vstd::arithmetic::power2::lemma_pow2_strictly_increases(153, 200);
        vstd::arithmetic::div_mod::lemma_small_mod(high, pow2(153));
        vstd::arithmetic::div_mod::lemma_small_mod(high, pow2(200));
    }
}

/// A piece is below 2 to the power 200, and so below either modulus.
pub proof fn lemma_chunk_is_small(value: nat, k: nat)
    ensures
        chunk_of(value, k) < pow2(200),
        pow2(200) < field::fr_modulus(),
        pow2(200) < field::owner_modulus(),
{
    vstd::arithmetic::power2::lemma_pow2_pos(200);
    vstd::arithmetic::div_mod::lemma_mod_bound(
        (value / pow2(200 * k)) as int,
        pow2(200) as int,
    );
    vstd::arithmetic::power2::lemma2_to64_rest();
    vstd::arithmetic::power2::lemma_pow2_adds(50, 50);
    vstd::arithmetic::power2::lemma_pow2_adds(100, 100);
    assert(pow2(100) == 0x10000000000000000000000000nat) by (nonlinear_arith)
        requires
            pow2(100) == pow2(50) * pow2(50),
            pow2(50) == 0x4000000000000,
    ;
    assert(pow2(200) == 0x100000000000000000000000000000000000000000000000000nat)
        by (nonlinear_arith)
        requires
            pow2(200) == pow2(100) * pow2(100),
            pow2(100) == 0x10000000000000000000000000nat,
    ;
}

/// The public inputs of a wrapped proof: the pieces of the inner proof's public inputs.
pub fn public_input_chunks(values: &[Fr]) -> (r: Vec<OwnerScalar>)
    ensures
        groth16::owner_values(r@) == chunks_of(field::fr_values(values@)),
{
    let ghost all = field::fr_values(values@);
    let mut out: Vec<OwnerScalar> = Vec::new();
    let mut i: usize = 0;
    while i < values.len()
        invariant
            i <= values@.len(),
            all == field::fr_values(values@),
            out@.len() == 4 * i,
            forall|j: int| 0 <= j < out@.len() ==> (#[trigger] out@[j])@ == chunks_of(all)[j],
        decreases values@.len() - i,
    {
        let v = values[i];
        proof {
            use_type_invariant(&v);
            constraints::lemma_moduli_below_753_bits();
        }
        let bits = canonical_bits(v.to_limbs());
        let mut k: usize = 0;
        while k < 4
            invariant
                k <= 4,
                i < values@.len(),
                all == field::fr_values(values@),
                v@ == all[i as int],
                bits@.len() == FIELD_BITS,
                field::bits_value(bits@) == v@,
                out@.len() == 4 * i + k,
                forall|j: int| 0 <= j < out@.len() ==> (#[trigger] out@[j])@ == chunks_of(all)[j],
            decreases 4 - k,
        {
            let start: usize = CHUNK_BITS * k;
            let end: usize = if k < 3 {
                start + CHUNK_BITS
            } else {
                FIELD_BITS
            };
            let part = vstd::slice::slice_subrange(bits.as_slice(), start, end);
            proof {
                assert(part@ =~= poseidon::piece(bits@, 200, k as int));
                lemma_pieces_are_chunks(bits@, k as nat);
                lemma_chunk_is_small(v@, k as nat);
                let j = 4 * i + k;
                assert(j / 4 == i && j % 4 == k);
            }
            let chunk = match OwnerScalar::from_limbs(limbs_from_bits_le(part)) {
                Some(chunk) => chunk,
                None => OwnerScalar::from(0u64),
            };
            out.push(chunk);
            k += 1;
        }
        i += 1;
    }
    assert(groth16::owner_values(out@) =~= chunks_of(all));
    out
}

/// The place value of the `k`-th piece, in the field.
pub open spec fn place_value(k: nat) -> nat
    decreases k,
{
    if k == 0 {
        1
    } else {
        (place_value((k - 1) as nat) * pow2(200)) % field::fr_modulus()
    }
}

/// A field element put together from pieces, the lowest first.
pub open spec fn joined(pieces: Seq<nat>) -> nat
    decreases pieces.len(),
{
    if pieces.len() == 0 {
        0
    } else {
        let k = (pieces.len() - 1) as nat;
        (joined(pieces.drop_last()) + (pieces.last() * place_value(k)) % field::fr_modulus())
            % field::fr_modulus()
    }
}

/// Cutting a number of 753 bits into pieces and joining them loses nothing: it gives the number
/// back as a field element.
pub proof fn joining_chunks_loses_nothing(value: nat)
    requires
        value < pow2(753),
    ensures
        joined(
            seq![
                chunk_of(value, 0),
                chunk_of(value, 1),
                chunk_of(value, 2),
                chunk_of(value, 3),
            ],
        ) == value % field::fr_modulus(),
{
    let p = field::fr_modulus();
    let b = pow2(200);
    lemma_chunk_is_small(value, 0);
    vstd::arithmetic::power2::lemma2_to64();
    vstd::arithmetic::power2::lemma_pow2_adds(200, 200);
    vstd::arithmetic::power2::lemma_pow2_adds(400, 200);
    vstd::arithmetic::power2::lemma_pow2_adds(600, 153);
    vstd::arithmetic::power2::lemma_pow2_adds(600, 200);
    vstd::arithmetic::power2::lemma_pow2_strictly_increases(0, 200);
    vstd::arithmetic::power2::lemma_pow2_strictly_increases(200, 400);
    vstd::arithmetic::power2::lemma_pow2_strictly_increases(400, 600);
    lemma_modulus_exceeds_600_bits();
    // The digits.
    let d0 = chunk_of(value, 0);
    let d1 = chunk_of(value, 1);
    let d2 = chunk_of(value, 2);
    let d3 = chunk_of(value, 3);
    let q1 = value / b;
    let q2 = q1 / b;
    let q3 = q2 / b;
    vstd::arithmetic::power2::lemma_pow2_pos(200);
    vstd::arithmetic::div_mod::lemma_fundamental_div_mod(value as int, b as int);
    vstd::arithmetic::div_mod::lemma_fundamental_div_mod(q1 as int, b as int);
    vstd::arithmetic::div_mod::lemma_fundamental_div_mod(q2 as int, b as int);
    vstd::arithmetic::div_mod::lemma_div_denominator(value as int, b as int, b as int);
    vstd::arithmetic::div_mod::lemma_div_denominator(value as int, pow2(400) as int, b as int);
    assert(value / pow2(0) == value);
    assert(d0 == value % b);
    assert(d1 == q1 % b);
    assert(value / pow2(400) == q2);
    assert(d2 == q2 % b);
    assert(value / pow2(600) == q3);
    // The top digit is small.
    vstd::arithmetic::div_mod::lemma_multiply_divide_lt(
        value as int,
        pow2(600) as int,
        pow2(153) as int,
    );
    vstd::arithmetic::power2::lemma_pow2_strictly_increases(153, 200);
    vstd::arithmetic::div_mod::lemma_small_mod(q3, b);
    assert(d3 == q3);
    // The place values.
    reveal_with_fuel(place_value, 4);
    vstd::arithmetic::div_mod::lemma_small_mod(pow2(200), p);
    vstd::arithmetic::div_mod::lemma_small_mod(pow2(400), p);
    vstd::arithmetic::div_mod::lemma_small_mod(pow2(600), p);
    assert(place_value(0) == 1);
    assert(1 * b == b) by (nonlinear_arith);
    assert(place_value(1) == b);
    assert(place_value(2) == pow2(400));
    assert(place_value(3) == pow2(600));
    // The partial sums.
    let s0 = d0;
    let s1 = d0 + d1 * b;
    let s2 = s1 + d2 * pow2(400);
    let s3 = s2 + d3 * pow2(600);
    assert(value == s3) by (nonlinear_arith)
        requires
            value == b * q1 + d0,
            q1 == b * q2 + d1,
            q2 == b * q3 + d2,
            d3 == q3,
            pow2(400) == b * b,
            pow2(600) == pow2(400) * b,
            s1 == d0 + d1 * b,
            s2 == s1 + d2 * pow2(400),
            s3 == s2 + d3 * pow2(600),
    ;
    assert(0 <= d1 * b && 0 <= d2 * pow2(400) && 0 <= d3 * pow2(600)) by (nonlinear_arith);
    assert(s1 < pow2(400) && s2 < pow2(600)) by (nonlinear_arith)
        requires
            d0 < b,
            d1 < b,
            d2 < b,
            pow2(400) == b * b,
            pow2(600) == pow2(400) * b,
            s1 == d0 + d1 * b,
            s2 == s1 + d2 * pow2(400),
    ;
    assert(s0 < p && s1 < p && s2 < p);
    assert(d1 * b < p && d2 * pow2(400) < p);
    assert(d0 * 1 == d0) by (nonlinear_arith);
    vstd::arithmetic::div_mod::lemma_small_mod(d0, p);
    vstd::arithmetic::div_mod::lemma_small_mod(d1 * b, p);
    vstd::arithmetic::div_mod::lemma_small_mod(d2 * pow2(400), p);
    vstd::arithmetic::div_mod::lemma_small_mod(s1, p);
    vstd::arithmetic::div_mod::lemma_small_mod(s2, p);
    vstd::arithmetic::div_mod::lemma_add_mod_noop_right(
        s2 as int,
        (d3 * pow2(600)) as int,
        p as int,
    );
    let l1 = seq![d0];
    let l2 = seq![d0, d1];
    let l3 = seq![d0, d1, d2];
    let l4 = seq![d0, d1, d2, d3];
    assert(l1.drop_last().len() == 0);
    assert(l2.drop_last() =~= l1);
    assert(l3.drop_last() =~= l2);
    assert(l4.drop_last() =~= l3);
    assert(joined(l1.drop_last()) == 0);
    assert(joined(l1) == s0);
    assert(joined(l2) == s1);
    assert(joined(l3) == s2);
    assert(joined(l4) == s3 % p);
}

proof fn lemma_modulus_exceeds_600_bits()
    ensures
        pow2(600) < field::fr_modulus(),
{
    vstd::arithmetic::power2::lemma_pow2_adds(200, 200);
    vstd::arithmetic::power2::lemma_pow2_adds(400, 200);
    lemma_chunk_is_small(0, 0);
    vstd::arithmetic::power2::lemma2_to64_rest();
    vstd::arithmetic::power2::lemma_pow2_adds(50, 50);
    vstd::arithmetic::power2::lemma_pow2_adds(100, 100);
    assert(pow2(100) == 0x10000000000000000000000000nat) by (nonlinear_arith)
        requires
            pow2(100) == pow2(50) * pow2(50),
            pow2(50) == 0x4000000000000,
    ;
    assert(pow2(200) == 0x100000000000000000000000000000000000000000000000000nat) by (nonlinear_arith)
        requires
            pow2(200) == pow2(100) * pow2(100),
            pow2(100) == 0x10000000000000000000000000nat,
            pow2(100) == 0x10000000000000000000000000nat,
    ;
    assert(pow2(400) == 0x10000000000000000000000000000000000000000000000000000000000000000000000000000000000000000000000000000nat) by (nonlinear_arith)
        requires
            pow2(400) == pow2(200) * pow2(200),
            pow2(200) == 0x100000000000000000000000000000000000000000000000000nat,
            pow2(200) == 0x100000000000000000000000000000000000000000000000000nat,
    ;
    assert(pow2(600) == 0x1000000000000000000000000000000000000000000000000000000000000000000000000000000000000000000000000000000000000000000000000000000000000000000000000000000nat) by (nonlinear_arith)
        requires
            pow2(600) == pow2(400) * pow2(200),
            pow2(400) == 0x10000000000000000000000000000000000000000000000000000000000000000000000000000000000000000000000000000nat,
            pow2(200) == 0x100000000000000000000000000000000000000000000000000nat,
    ;
}


/// The place value of one piece.
fn chunk_base() -> (r: Fr)
    ensures
        r@ == pow2(200),
{
    let base: [u64; 12] = [0, 0, 0, 0x100, 0, 0, 0, 0, 0, 0, 0, 0];
    proof {
        limbs::lemma_value_of_twelve(base@);
        lemma_chunk_is_small(0, 0);
        vstd::arithmetic::power2::lemma2_to64();
        vstd::arithmetic::power2::lemma_pow2_adds(64, 64);
        vstd::arithmetic::power2::lemma_pow2_adds(128, 64);
        vstd::arithmetic::power2::lemma_pow2_adds(192, 8);
        assert(pow2(200) == 0x100000000000000000000000000000000000000000000000000nat)
            by (nonlinear_arith)
            requires
                pow2(128) == pow2(64) * pow2(64),
                pow2(192) == pow2(128) * pow2(64),
                pow2(200) == pow2(192) * pow2(8),
                pow2(64) == 0x10000000000000000,
                pow2(8) == 0x100,
        ;
    }
    match Fr::from_limbs(base) {
        Some(r) => r,
        None => Fr::from(0u64),
    }
}

/// The low bits of pieces, as numbers.
pub open spec fn low_numbers<B: ConstraintBackend>(lists: Seq<Vec<B::Bit>>) -> Seq<nat> {
    lists.map_values(
        |bits: Vec<B::Bit>|
            field::bits_value(
                constraints::bit_values::<B>(
                    bits@.take(
                        if bits@.len() < 200 {
                            bits@.len() as int
                        } else {
                            200
                        },
                    ),
                ),
            ),
    )
}

/// The lengths of lists.
pub open spec fn lengths<T>(lists: Seq<Vec<T>>) -> Seq<nat> {
    lists.map_values(|list: Vec<T>| list@.len())
}

/// The steps of [`combine_chunks_var`] for the first `n` of pieces of the given lengths.
pub open spec fn combine_shape(s: Seq<Step>, lens: Seq<nat>, n: nat) -> Seq<Step>
    decreases n,
{
    if n == 0 {
        s.push(Step::Constant(0)).push(Step::Constant(1))
    } else {
        combine_shape(s, lens, (n - 1) as nat).push(
            Step::FromBits(
                if lens[n - 1] < 200 {
                    lens[n - 1]
                } else {
                    200
                },
            ),
        ).push(Step::Times).push(Step::Plus).push(Step::Constant(pow2(200))).push(Step::Times)
    }
}

/// Join pieces, given by their bits, to a field element. Each piece is taken to be below 2
/// to the power 200, which the wrap circuit's own proof enforces.
pub fn combine_chunks_var<B: ConstraintBackend>(cs: &mut B, chunk_bits: &[Vec<B::Bit>]) -> (r: B::Fp)
    ensures
        constraints::undisturbed(*old(cs), *final(cs)),
        final(cs).shape() == combine_shape(
            old(cs).shape(),
            lengths(chunk_bits@),
            chunk_bits@.len(),
        ),
        constraints::reliable(*final(cs)) ==> B::fp(r) == joined(low_numbers::<B>(chunk_bits@)),
{
    let ghost pieces = low_numbers::<B>(chunk_bits@);
    let base_value = chunk_base();
    let mut acc = cs.constant(Fr::from(0u64));
    let mut place = cs.constant(Fr::from(1u64));
    let mut i: usize = 0;
    assert(pieces.take(0).len() == 0);
    while i < chunk_bits.len()
        invariant
            constraints::undisturbed(*old(cs), *cs),
            i <= chunk_bits@.len(),
            base_value@ == pow2(200),
            pieces == low_numbers::<B>(chunk_bits@),
            cs.shape() == combine_shape(old(cs).shape(), lengths(chunk_bits@), i as nat),
            constraints::reliable(*cs) ==> B::fp(acc) == joined(pieces.take(i as int)),
            constraints::reliable(*cs) ==> B::fp(place) == place_value(i as nat),
        decreases chunk_bits@.len() - i,
    {
        let bits = &chunk_bits[i];
        let low: usize = if bits.len() < CHUNK_BITS {
            bits.len()
        } else {
            CHUNK_BITS
        };
        let part = vstd::slice::slice_subrange(bits.as_slice(), 0, low);
        proof {
            assert(part@ =~= bits@.take(low as int));
            let prefix = pieces.take(i + 1);
            assert(prefix.drop_last() =~= pieces.take(i as int));
            assert(prefix.last() == pieces[i as int]);
        }
        let value = cs.bits_to_fp(part);
        let term = cs.times(&value, &place);
        acc = cs.plus(&acc, &term);
        let base = cs.constant(base_value);
        place = cs.times(&place, &base);
        i += 1;
    }
    assert(pieces.take(i as int) =~= pieces);
    acc
}

/// The variables of a constraint system over the scalar field of MNT6-753. What they stand
/// for is up to each system.
pub trait WrapVariables: Assignment {
    /// A variable that stands for a field element.
    type Fp;

    /// A variable that stands for a bit.
    type Bit;

    /// The value of a variable.
    closed spec fn fp(v: Self::Fp) -> nat {
        arbitrary()
    }

    /// The value of a bit.
    closed spec fn bit(b: Self::Bit) -> bool {
        arbitrary()
    }
}

/// The values of bits.
pub open spec fn wrap_bit_values<B: WrapVariables>(bits: Seq<B::Bit>) -> Seq<bool> {
    bits.map_values(|b: B::Bit| B::bit(b))
}

/// The numbers that lists of bits write.
pub open spec fn wrap_numbers<B: WrapVariables>(lists: Seq<Vec<B::Bit>>) -> Seq<nat> {
    lists.map_values(|bits: Vec<B::Bit>| field::bits_value(wrap_bit_values::<B>(bits@)))
}

/// Numbers as field elements: each reduced.
pub open spec fn elements_of(values: Seq<nat>) -> Seq<nat> {
    values.map_values(|n: nat| n % field::fr_modulus())
}

/// What the wrap circuit needs of a constraint system over the scalar field of MNT6-753. As
/// with a [`ConstraintBackend`], what is said of values is said of any one assignment.
pub trait WrapBackend: WrapVariables {
    /// Whether the backend assigns values to variables.
    fn assigns_values(&self) -> (r: bool)
        ensures
            r == self.assigns(),
            self.honest() ==> r,
    ;

    /// A private witness that is a bit.
    fn new_witness_bit(&mut self, value: Option<bool>) -> (b: Self::Bit)
        requires
            old(self).assigns() ==> value is Some,
        ensures
            constraints::undisturbed(*old(self), *final(self)),
            final(self).shape() == old(self).shape().push(Step::WitnessBit),
            final(self).honest() ==> Self::bit(b) == value->0,
    ;

    /// The number that bits write, least significant first.
    fn bits_to_fp(&mut self, bits: &[Self::Bit]) -> (v: Self::Fp)
        requires
            bits@.len() <= 200,
        ensures
            constraints::undisturbed(*old(self), *final(self)),
            final(self).shape() == old(self).shape().push(Step::FromBits(bits@.len())),
            constraints::reliable(*final(self)) ==> Self::fp(v) == field::bits_value(
                wrap_bit_values::<Self>(bits@),
            ),
    ;

    /// A public input. The value of a variable is given for it.
    fn new_input_like(&mut self, v: &Self::Fp) -> (r: Self::Fp)
        ensures
            constraints::keeps_mode(*old(self), *final(self)),
            final(self).shape() == old(self).shape().push(Step::Input),
            final(self).satisfied() == old(self).satisfied(),
            final(self).inputs() == old(self).inputs().push(Self::fp(r)),
            final(self).honest() ==> Self::fp(r) == Self::fp(*v),
    ;

    /// Constrain two variables to be equal.
    fn enforce_equal(&mut self, a: &Self::Fp, b: &Self::Fp)
        ensures
            constraints::constrained(*old(self), *final(self), Self::fp(*a) == Self::fp(*b)),
            final(self).shape() == old(self).shape().push(Step::EnforceEqual),
    ;

    /// Constrain a proof over MNT4-753 to verify under a fixed key, for public inputs that
    /// are given by their bits with the least significant first. The proof is a witness. The
    /// bits of an input may write a number beyond the modulus; the input is that number,
    /// reduced.
    fn enforce_proof(&mut self, vk: &Vec<u8>, values: &Vec<Vec<Self::Bit>>, snark: &Vec<u8>)
        requires
            old(self).honest() ==> forall|i: int|
                0 <= i < values@.len() ==> (#[trigger] values@[i])@.len() <= FIELD_BITS
                    && field::bits_value(wrap_bit_values::<Self>(values@[i]@))
                    < field::fr_modulus(),
        ensures
            constraints::keeps_mode(*old(self), *final(self)),
            final(self).shape() == old(self).shape().push(Step::EnforceProof(vk@, values@.len())),
            final(self).inputs() == old(self).inputs(),
            final(self).satisfied() ==> old(self).satisfied() && groth16::mnt4_provable(
                vk@,
                elements_of(wrap_numbers::<Self>(values@)),
            ),
            old(self).honest() ==> final(self).satisfied() == (old(self).satisfied()
                && groth16::mnt4_outcome(vk@, wrap_numbers::<Self>(values@), snark@) == Ok::<
                bool,
                SynthesisError,
            >(true)),
    ;
}

/// Verifies a proof over MNT4-753 with `N` public inputs under a fixed key, and exposes the
/// pieces of each input: in input order, each input's pieces together and the lowest first.
#[derive(Clone, Debug)]
pub struct WrapCircuit<const N: usize> {
    /// Fixed for one use of the circuit: a verifying key is no secret.
    pub inner_vk: Vec<u8>,
    pub inner_proof: Option<Vec<u8>>,
    pub inner_public_inputs: Option<[Fr; N]>,
}

/// The bits of the first `n` values, as witnesses.
pub open spec fn value_bits_shape(s: Seq<Step>, n: nat) -> Seq<Step>
    decreases n,
{
    if n == 0 {
        s
    } else {
        gadgets::repeated(
            value_bits_shape(s, (n - 1) as nat),
            Step::WitnessBit,
            FIELD_BITS as nat,
        )
    }
}

/// The bits of each value, as witnesses.
fn alloc_value_bits<B: WrapBackend, const N: usize>(cs: &mut B, values: &Option<[Fr; N]>) -> (r: Vec<
    Vec<B::Bit>,
>)
    requires
        old(cs).assigns() ==> values is Some,
    ensures
        constraints::undisturbed(*old(cs), *final(cs)),
        final(cs).shape() == value_bits_shape(old(cs).shape(), N as nat),
        r@.len() == N,
        forall|i: int| 0 <= i < N ==> (#[trigger] r@[i])@.len() == FIELD_BITS,
        final(cs).honest() && final(cs).assigns() ==> wrap_numbers::<B>(r@) == field::fr_values(
            values->0@,
        ),
        final(cs).honest() && final(cs).assigns() ==> forall|i: int|
            0 <= i < N ==> field::bits_value(wrap_bit_values::<B>((#[trigger] r@[i])@))
                < field::fr_modulus(),
{
    let mut out: Vec<Vec<B::Bit>> = Vec::new();
    let mut i: usize = 0;
    while i < N
        invariant
            constraints::undisturbed(*old(cs), *cs),
            cs.shape() == value_bits_shape(old(cs).shape(), i as nat),
            i <= N,
            out@.len() == i,
            old(cs).assigns() ==> values is Some,
            forall|j: int| 0 <= j < i ==> (#[trigger] out@[j])@.len() == FIELD_BITS,
            cs.honest() && cs.assigns() ==> forall|j: int|
                0 <= j < i ==> field::bits_value(wrap_bit_values::<B>((#[trigger] out@[j])@))
                    == values->0@[j]@ && values->0@[j]@ < field::fr_modulus(),
        decreases N - i,
    {
        let native: Option<Vec<bool>> = match values {
            Some(list) => {
                let v = list[i];
                proof {
                    use_type_invariant(&v);
                    constraints::lemma_moduli_below_753_bits();
                }
                Some(canonical_bits(v.to_limbs()))
            },
            None => None,
        };
        let ghost start = cs.shape();
        let mut bits: Vec<B::Bit> = Vec::new();
        let mut j: usize = 0;
        while j < FIELD_BITS
            invariant
                constraints::undisturbed(*old(cs), *cs),
                cs.shape() == gadgets::repeated(start, Step::WitnessBit, j as nat),
                j <= FIELD_BITS,
                bits@.len() == j,
                native matches Some(list) ==> list@.len() == FIELD_BITS,
                old(cs).assigns() ==> native is Some,
                cs.honest() && cs.assigns() ==> forall|k: int|
                    0 <= k < j ==> B::bit(#[trigger] bits@[k]) == native->0@[k],
            decreases FIELD_BITS - j,
        {
            let value: Option<bool> = match &native {
                Some(list) => Some(list[j]),
                None => None,
            };
            let bit = cs.new_witness_bit(value);
            bits.push(bit);
            j += 1;
        }
        proof {
            if cs.honest() && cs.assigns() {
                assert(wrap_bit_values::<B>(bits@) =~= native->0@);
            }
        }
        out.push(bits);
        i += 1;
    }
    proof {
        if cs.honest() && cs.assigns() {
            assert(wrap_numbers::<B>(out@) =~= field::fr_values(values->0@));
        }
    }
    out
}

/// The steps that expose the first `n` pieces.
pub open spec fn expose_shape(s: Seq<Step>, n: nat) -> Seq<Step>
    decreases n,
{
    if n == 0 {
        s
    } else {
        expose_shape(s, (n - 1) as nat).push(
            Step::FromBits(
                if (n - 1) % 4 < 3 {
                    200nat
                } else {
                    153
                },
            ),
        ).push(Step::Input).push(Step::EnforceEqual)
    }
}

/// The steps of the wrap circuit for `n` values. They depend on the fixed key alone.
pub open spec fn wrap_shape(s: Seq<Step>, inner_vk: Seq<u8>, n: nat) -> Seq<Step> {
    expose_shape(value_bits_shape(s, n).push(Step::EnforceProof(inner_vk, n)), 4 * n)
}

/// What a satisfied wrap circuit tells of its public inputs, whoever made the assignment: they
/// are the pieces of as many numbers of 753 bits, and there is a proof for these numbers as
/// public inputs, reduced to field elements.
pub open spec fn wraps_a_proof(inner_vk: Seq<u8>, n: nat, publics: Seq<nat>) -> bool {
    exists|values: Seq<nat>| #[trigger] is_wrapped(inner_vk, n, values, publics)
}

/// The pieces of as many numbers of 753 bits, for which there is a proof.
pub open spec fn is_wrapped(
    inner_vk: Seq<u8>,
    n: nat,
    values: Seq<nat>,
    publics: Seq<nat>,
) -> bool {
    &&& values.len() == n
    &&& forall|i: int| 0 <= i < n ==> #[trigger] values[i] < pow2(753)
    &&& groth16::mnt4_provable(inner_vk, elements_of(values))
    &&& publics == chunks_of(values)
}

impl<const N: usize> WrapCircuit<N> {
    /// Every value is there that a proof or an evaluation needs.
    pub open spec fn is_complete(&self) -> bool {
        self.inner_public_inputs is Some
    }

    /// What the circuit constrains: the inner proof verifies for the inner public inputs.
    pub open spec fn relation(&self) -> bool {
        groth16::mnt4_outcome(
            self.inner_vk@,
            field::fr_values(self.inner_public_inputs->0@),
            self.inner_proof->0@,
        ) == Ok::<bool, SynthesisError>(true)
    }

    /// Put the circuit's constraints into a constraint system. The shape of the circuit needs
    /// some inner proof even where no values are assigned.
    ///
    /// Any assignment that satisfies the constraints wraps a proof. The honest one satisfies
    /// them if and only if the inner proof verifies. The steps that are recorded are the same
    /// with values and without.
    pub fn generate_constraints<B: WrapBackend>(self, cs: &mut B) -> (r: Result<(), SynthesisError>)
        ensures
            r is Ok == (self.inner_proof is Some && (old(cs).assigns() ==> self.is_complete())),
            r is Err ==> r->Err_0 == SynthesisError::AssignmentMissing && *final(cs) == *old(cs),
            constraints::keeps_mode(*old(cs), *final(cs)),
            r is Ok ==> final(cs).shape() == wrap_shape(
                old(cs).shape(),
                self.inner_vk@,
                N as nat,
            ),
            r is Ok && final(cs).satisfied() ==> old(cs).satisfied() && exists|publics: Seq<nat>|
                final(cs).inputs() == old(cs).inputs() + publics && #[trigger] wraps_a_proof(
                    self.inner_vk@,
                    N as nat,
                    publics,
                ),
            r is Ok && old(cs).honest() ==> final(cs).satisfied() == (old(cs).satisfied()
                && self.relation()),
            r is Ok && old(cs).honest() ==> final(cs).inputs() == old(cs).inputs() + chunks_of(
                field::fr_values(self.inner_public_inputs->0@),
            ),
    {
        let snark = match &self.inner_proof {
            Some(snark) => snark,
            None => {
                return Err(SynthesisError::AssignmentMissing);
            },
        };
        if cs.assigns_values() && self.inner_public_inputs.is_none() {
            return Err(SynthesisError::AssignmentMissing);
        }
        let per_value_bits = alloc_value_bits(cs, &self.inner_public_inputs);
        let ghost values = wrap_numbers::<B>(per_value_bits@);
        cs.enforce_proof(&self.inner_vk, &per_value_bits, snark);
        let ghost verified = cs.satisfied();
        let ghost start = cs.shape();
        let mut i: usize = 0;
        assert(cs.inputs() =~= old(cs).inputs() + chunks_of(values).take(0));
        while i < N
            invariant
                constraints::keeps_mode(*old(cs), *cs),
                cs.shape() == expose_shape(start, 4 * i as nat),
                i <= N,
                values == wrap_numbers::<B>(per_value_bits@),
                values.len() == N,
                per_value_bits@.len() == N,
                forall|j: int| 0 <= j < N ==> (#[trigger] per_value_bits@[j])@.len() == FIELD_BITS,
                cs.satisfied() ==> verified,
                old(cs).honest() ==> cs.satisfied() == verified,
                constraints::reliable(*cs) ==> cs.inputs() == old(cs).inputs() + chunks_of(
                    values,
                ).take(4 * i),
            decreases N - i,
        {
            let bits = &per_value_bits[i];
            assert(values[i as int] == field::bits_value(wrap_bit_values::<B>(bits@)));
            let mut k: usize = 0;
            while k < 4
                invariant
                    constraints::keeps_mode(*old(cs), *cs),
                    cs.shape() == expose_shape(start, (4 * i + k) as nat),
                    k <= 4,
                    i < N,
                    values.len() == N,
                    bits@.len() == FIELD_BITS,
                    field::bits_value(wrap_bit_values::<B>(bits@)) == values[i as int],
                    cs.satisfied() ==> verified,
                    old(cs).honest() ==> cs.satisfied() == verified,
                    constraints::reliable(*cs) ==> cs.inputs() == old(cs).inputs() + chunks_of(
                        values,
                    ).take(4 * i + k),
                decreases 4 - k,
            {
                let start_bit: usize = CHUNK_BITS * k;
                let end: usize = if k < 3 {
                    start_bit + CHUNK_BITS
                } else {
                    FIELD_BITS
                };
                let part = vstd::slice::slice_subrange(bits.as_slice(), start_bit, end);
                proof {
                    let all = wrap_bit_values::<B>(bits@);
                    assert(wrap_bit_values::<B>(part@) =~= poseidon::piece(all, 200, k as int));
                    lemma_pieces_are_chunks(all, k as nat);
                    assert((4 * i + k) % 4 == k);
                }
                let chunk = cs.bits_to_fp(part);
                let public_chunk = cs.new_input_like(&chunk);
                cs.enforce_equal(&chunk, &public_chunk);
                proof {
                    if constraints::reliable(*cs) {
                        let j = 4 * i + k;
                        assert(j / 4 == i && j % 4 == k);
                        assert(B::fp(public_chunk) == chunks_of(values)[j]);
                        assert(chunks_of(values).take(j + 1) =~= chunks_of(values).take(j).push(
                            chunks_of(values)[j],
                        ));
                        assert(cs.inputs() =~= old(cs).inputs() + chunks_of(values).take(j + 1));
                    }
                }
                k += 1;
            }
            i += 1;
        }
        proof {
            assert(chunks_of(values).take(4 * N as int) =~= chunks_of(values));
            if cs.satisfied() {
                assert forall|j: int| 0 <= j < N implies #[trigger] values[j] < pow2(753) by {
                    let bits = wrap_bit_values::<B>(per_value_bits@[j]@);
                    assert(bits.len() == 753);
                    poseidon::lemma_bits_value_bound(bits);
                }
                assert(is_wrapped(self.inner_vk@, N as nat, values, chunks_of(values)));
                assert(wraps_a_proof(self.inner_vk@, N as nat, chunks_of(values)));
            }
        }
        Ok(())
    }
}

/// Verify a wrapped proof.
pub fn verify(vk: &[u8], public_inputs: &[OwnerScalar], snark: &[u8]) -> (r: Result<
    bool,
    SynthesisError,
>)
    ensures
        r == groth16::mnt6_outcome(vk@, groth16::owner_values(public_inputs@), snark@),
{
    mnt6_verify(vk, public_inputs, snark)
}

/// A constraint system over the scalar field of MNT6-753 that evaluates every constraint as
/// it comes.
pub struct EvaluatingWrapSystem {
    assigning: bool,
    holds: bool,
    publics: Vec<OwnerScalar>,
    recorded: Ghost<Seq<Step>>,
}

impl EvaluatingWrapSystem {
    /// A system that evaluates the values it is given.
    pub fn new() -> (r: EvaluatingWrapSystem)
        ensures
            r.assigns(),
            r.honest(),
            r.satisfied(),
            r.inputs() == Seq::<nat>::empty(),
            r.shape() == Seq::<Step>::empty(),
    {
        let r = EvaluatingWrapSystem {
            assigning: true,
            holds: true,
            publics: Vec::new(),
            recorded: Ghost(Seq::empty()),
        };
        assert(r.inputs() =~= Seq::<nat>::empty());
        r
    }

    /// A system that assigns no values and looks at a circuit's shape alone. It starts with no
    /// constraint and no public input.
    pub fn shape_only() -> (r: EvaluatingWrapSystem)
        ensures
            !r.assigns(),
            !r.honest(),
            r.satisfied(),
            r.inputs() == Seq::<nat>::empty(),
            r.shape() == Seq::<Step>::empty(),
    {
        let r = EvaluatingWrapSystem {
            assigning: false,
            holds: true,
            publics: Vec::new(),
            recorded: Ghost(Seq::empty()),
        };
        assert(r.inputs() =~= Seq::<nat>::empty());
        r
    }

    /// Whether every constraint so far holds.
    pub fn is_satisfied(&self) -> (r: bool)
        ensures
            r == self.satisfied(),
    {
        self.holds
    }

    /// The public inputs so far.
    pub fn public_inputs(&self) -> (r: Vec<OwnerScalar>)
        ensures
            groth16::owner_values(r@) == self.inputs(),
    {
        let mut out: Vec<OwnerScalar> = Vec::new();
        let mut i: usize = 0;
        while i < self.publics.len()
            invariant
                i <= self.publics@.len(),
                out@ == self.publics@.take(i as int),
            decreases self.publics@.len() - i,
        {
            out.push(self.publics[i]);
            i += 1;
            assert(out@ =~= self.publics@.take(i as int));
        }
        assert(out@ =~= self.publics@);
        out
    }
}

impl WrapVariables for EvaluatingWrapSystem {
    type Fp = OwnerScalar;

    type Bit = bool;

    open spec fn fp(v: OwnerScalar) -> nat {
        v@
    }

    open spec fn bit(b: bool) -> bool {
        b
    }
}

impl Assignment for EvaluatingWrapSystem {
    closed spec fn assigns(&self) -> bool {
        self.assigning
    }

    closed spec fn honest(&self) -> bool {
        self.assigning
    }

    closed spec fn satisfied(&self) -> bool {
        self.holds
    }

    closed spec fn inputs(&self) -> Seq<nat> {
        groth16::owner_values(self.publics@)
    }

    closed spec fn shape(&self) -> Seq<Step> {
        self.recorded@
    }
}

impl WrapBackend for EvaluatingWrapSystem {
    fn assigns_values(&self) -> (r: bool) {
        self.assigning
    }

    fn new_witness_bit(&mut self, value: Option<bool>) -> (b: bool) {
        self.recorded = Ghost(self.recorded@.push(Step::WitnessBit));
        match value {
            Some(b) => b,
            None => false,
        }
    }

    fn bits_to_fp(&mut self, bits: &[bool]) -> (v: OwnerScalar) {
        self.recorded = Ghost(self.recorded@.push(Step::FromBits(bits@.len())));
        proof {
            poseidon::lemma_bits_value_bound(bits@);
            lemma_chunk_is_small(0, 0);
            if bits@.len() < 200 {
                vstd::arithmetic::power2::lemma_pow2_strictly_increases(bits@.len(), 200);
            }
            assert(wrap_bit_values::<Self>(bits@) =~= bits@);
        }
        match OwnerScalar::from_limbs(limbs_from_bits_le(bits)) {
            Some(v) => v,
            None => OwnerScalar::from(0u64),
        }
    }

    fn new_input_like(&mut self, v: &OwnerScalar) -> (r: OwnerScalar) {
        self.recorded = Ghost(self.recorded@.push(Step::Input));
        self.publics.push(*v);
        assert(groth16::owner_values(self.publics@) =~= groth16::owner_values(
            old(self).publics@,
        ).push(v@));
        *v
    }

    fn enforce_equal(&mut self, a: &OwnerScalar, b: &OwnerScalar) {
        self.recorded = Ghost(self.recorded@.push(Step::EnforceEqual));
        let equal = *a == *b;
        self.holds = self.holds && equal;
    }

    fn enforce_proof(&mut self, vk: &Vec<u8>, values: &Vec<Vec<bool>>, snark: &Vec<u8>) {
        self.recorded = Ghost(self.recorded@.push(Step::EnforceProof(vk@, values@.len())));
        if !self.assigning {
            self.holds = false;
            return ;
        }
        let mut elements: Vec<Fr> = Vec::new();
        let mut i: usize = 0;
        while i < values.len()
            invariant
                i <= values@.len(),
                elements@.len() == i,
                forall|j: int|
                    0 <= j < values@.len() ==> (#[trigger] values@[j])@.len() <= FIELD_BITS
                        && field::bits_value(wrap_bit_values::<Self>(values@[j]@))
                        < field::fr_modulus(),
                forall|j: int|
                    0 <= j < i ==> (#[trigger] elements@[j])@ == field::bits_value(
                        wrap_bit_values::<Self>(values@[j]@),
                    ),
            decreases values@.len() - i,
        {
            assert(wrap_bit_values::<Self>(values@[i as int]@) =~= values@[i as int]@);
            let element = match Fr::from_limbs(limbs_from_bits_le(values[i].as_slice())) {
                Some(element) => element,
                None => Fr::from(0u64),
            };
            elements.push(element);
            i += 1;
        }
        proof {
            let all = wrap_numbers::<Self>(values@);
            assert(field::fr_values(elements@) =~= all);
            assert forall|j: int| 0 <= j < all.len() implies elements_of(all)[j]
                == #[trigger] all[j] by {
                assert(all[j] == field::bits_value(wrap_bit_values::<Self>(values@[j]@)));
                vstd::arithmetic::div_mod::lemma_small_mod(all[j], field::fr_modulus());
            }
            assert(elements_of(all) =~= all);
        }
        let accepted = match mnt4_verify(vk.as_slice(), elements.as_slice(), snark.as_slice()) {
            Ok(accepted) => accepted,
            Err(_) => false,
        };
        self.holds = self.holds && accepted;
    }
}

/// A number of 753 bits is put together from its pieces, each below 2 to the power 200.
pub proof fn pieces_add_up(value: nat)
    requires
        value < pow2(753),
    ensures
        forall|k: nat| #[trigger] chunk_of(value, k) < pow2(200),
        value == chunk_of(value, 0) + pow2(200) * (chunk_of(value, 1) + pow2(200) * (chunk_of(
            value,
            2,
        ) + pow2(200) * chunk_of(value, 3))),
{
    let b = pow2(200);
    assert forall|k: nat| #[trigger] chunk_of(value, k) < b by {
        lemma_chunk_is_small(value, k);
    }
    vstd::arithmetic::power2::lemma2_to64();
    vstd::arithmetic::power2::lemma_pow2_adds(200, 200);
    vstd::arithmetic::power2::lemma_pow2_adds(400, 200);
    vstd::arithmetic::power2::lemma_pow2_adds(600, 153);
    vstd::arithmetic::power2::lemma_pow2_pos(200);
    vstd::arithmetic::power2::lemma_pow2_pos(400);
    vstd::arithmetic::power2::lemma_pow2_pos(600);
    let q1 = value / b;
    let q2 = q1 / b;
    let q3 = q2 / b;
    vstd::arithmetic::div_mod::lemma_fundamental_div_mod(value as int, b as int);
    vstd::arithmetic::div_mod::lemma_fundamental_div_mod(q1 as int, b as int);
    vstd::arithmetic::div_mod::lemma_fundamental_div_mod(q2 as int, b as int);
    vstd::arithmetic::div_mod::lemma_div_denominator(value as int, b as int, b as int);
    vstd::arithmetic::div_mod::lemma_div_denominator(value as int, pow2(400) as int, b as int);
    assert(value / pow2(0) == value);
    assert(value / pow2(400) == q2);
    assert(value / pow2(600) == q3);
    vstd::arithmetic::div_mod::lemma_multiply_divide_lt(
        value as int,
        pow2(600) as int,
        pow2(153) as int,
    );
    vstd::arithmetic::power2::lemma_pow2_strictly_increases(153, 200);
    vstd::arithmetic::div_mod::lemma_small_mod(q3, b);
    assert(chunk_of(value, 0) == value % b);
    assert(chunk_of(value, 1) == q1 % b);
    assert(chunk_of(value, 2) == q2 % b);
    assert(chunk_of(value, 3) == q3);
}

/// Public inputs are cut into four pieces each, in order, that add up to them again.
pub proof fn public_inputs_are_the_sums_of_their_pieces(
    values: &[Fr],
    r: Vec<OwnerScalar>,
    i: int,
)
    requires
        call_ensures(public_input_chunks, (values,), r),
        0 <= i < values@.len(),
        values@[i]@ < field::fr_modulus(),
    ensures
        r@.len() == 4 * values@.len(),
        values@[i]@ == r@[4 * i]@ + pow2(200) * (r@[4 * i + 1]@ + pow2(200) * (r@[4 * i + 2]@
            + pow2(200) * r@[4 * i + 3]@)),
        r@[4 * i]@ < pow2(200),
        r@[4 * i + 1]@ < pow2(200),
        r@[4 * i + 2]@ < pow2(200),
        r@[4 * i + 3]@ < pow2(200),
{
    let all = groth16::owner_values(r@);
    let value = values@[i]@;
    constraints::lemma_moduli_below_753_bits();
    pieces_add_up(value);
    assert(all.len() == r@.len());
    assert forall|d: int| 0 <= d < 4 implies (#[trigger] r@[4 * i + d])@ == chunk_of(
        value,
        d as nat,
    ) by {
        let j = 4 * i + d;
        assert(j / 4 == i && j % 4 == d);
        assert(all[j] == r@[j]@);
        assert(field::fr_values(values@)[i] == value);
    }
    assert(r@[4 * i + 0]@ == chunk_of(value, 0));
    assert(r@[4 * i + 1]@ == chunk_of(value, 1));
    assert(r@[4 * i + 2]@ == chunk_of(value, 2));
    assert(r@[4 * i + 3]@ == chunk_of(value, 3));
}

/// What a wrap shows of its public inputs: they are pieces below 2 to the power 200, four for
/// each public input of a proof under the inner key, and they add up to it, but for a multiple
/// of the modulus.
pub proof fn wrapped_pieces_add_up_to_proven_inputs(
    inner_vk: Seq<u8>,
    n: nat,
    publics: Seq<nat>,
) -> (inputs: Seq<nat>)
    requires
        wraps_a_proof(inner_vk, n, publics),
    ensures
        inputs.len() == n,
        publics.len() == 4 * n,
        groth16::mnt4_provable(inner_vk, inputs),
        forall|i: int|
            0 <= i < n ==> #[trigger] inputs[i] == (publics[4 * i] + pow2(200) * (publics[4 * i + 1]
                + pow2(200) * (publics[4 * i + 2] + pow2(200) * publics[4 * i + 3])))
                % field::fr_modulus(),
        forall|j: int| 0 <= j < 4 * n ==> #[trigger] publics[j] < pow2(200),
{
    let values = choose|values: Seq<nat>| #[trigger] is_wrapped(inner_vk, n, values, publics);
    let inputs = elements_of(values);
    assert forall|i: int| 0 <= i < n implies #[trigger] inputs[i] == (publics[4 * i] + pow2(200) * (
    publics[4 * i + 1] + pow2(200) * (publics[4 * i + 2] + pow2(200) * publics[4 * i + 3])))
        % field::fr_modulus() by {
        pieces_add_up(values[i]);
        assert forall|d: int| 0 <= d < 4 implies #[trigger] publics[4 * i + d] == chunk_of(
            values[i],
            d as nat,
        ) by {
            let j = 4 * i + d;
            assert(j / 4 == i && j % 4 == d);
        }
        assert(publics[4 * i + 0] == chunk_of(values[i], 0));
        assert(publics[4 * i + 1] == chunk_of(values[i], 1));
        assert(publics[4 * i + 2] == chunk_of(values[i], 2));
        assert(publics[4 * i + 3] == chunk_of(values[i], 3));
    }
    assert forall|j: int| 0 <= j < 4 * n implies #[trigger] publics[j] < pow2(200) by {
        lemma_chunk_is_small(values[j / 4], (j % 4) as nat);
    }
    inputs
}

/// Verifying a wrap is verifying a proof over MNT6-753.
pub proof fn verifying_a_wrap_is_verifying_its_proof(
    vk: &[u8],
    public_inputs: &[OwnerScalar],
    snark: &[u8],
    r: Result<bool, SynthesisError>,
    direct: Result<bool, SynthesisError>,
)
    requires
        call_ensures(verify, (vk, public_inputs, snark), r),
        call_ensures(mnt6_verify, (vk, public_inputs, snark), direct),
    ensures
        r == direct,
{
}

} // verus!
