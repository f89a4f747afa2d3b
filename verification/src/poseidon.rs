//! Poseidon hashing over the data-model field, and the folding of bytes and of
//! foreign-field scalars into it.

use vstd::prelude::*;
use vstd::arithmetic::power2::pow2;
use ark_crypto_primitives::sponge::poseidon::PoseidonSponge;
use ark_crypto_primitives::sponge::{CryptographicSponge, FieldBasedCryptographicSponge};
use ark_ff::{BigInt, PrimeField};
use crate::constraints;
use crate::field;
use crate::field::{fr_from_le_bytes_mod_order, fr_plus, fr_times, limbs_to_bits_le, Fr, OwnerScalar};
use crate::poseidon_params;
use crate::poseidon_params::{mnt4_753_fr_poseidon_config, PoseidonConfig};

verus! {

/// The first element squeezed from a Poseidon sponge with the given parameters
/// after it absorbed `inputs`.
pub uninterp spec fn sponge_output(
    full_rounds: nat,
    partial_rounds: nat,
    alpha: nat,
    ark: Seq<Seq<nat>>,
    mds: Seq<Seq<nat>>,
    rate: nat,
    capacity: nat,
    inputs: Seq<nat>,
) -> nat;

/// The sponge output of a set of parameters.
pub open spec fn config_output(config: PoseidonConfig<Fr>, inputs: Seq<nat>) -> nat {
    sponge_output(
        config.full_rounds as nat,
        config.partial_rounds as nat,
        config.alpha as nat,
        poseidon_params::matrix_values(config.ark@),
        poseidon_params::matrix_values(config.mds@),
        config.rate as nat,
        config.capacity as nat,
        inputs,
    )
}

/// The inputs end in a zero that starts no block of the rate: the zero is added to a block
/// that holds another input already.
pub open spec fn ends_in_filling_zero(inputs: Seq<nat>, rate: nat) -> bool {
    &&& inputs.len() > 0
    &&& inputs.last() == 0
    &&& (inputs.len() - 1) % rate as int != 0
}

/// `PoseidonSponge::new`, one `absorb` of all inputs and
/// `squeeze_native_field_elements(1)` of `ark-crypto-primitives`: the squeezed
/// element depends on the parameters and on the inputs alone. Inputs are added to the
/// state, a block of the rate before each permutation, so a zero at the end that starts no
/// block changes nothing. The permutation itself is not written out here.
#[verifier::external_body]
fn first_squeezed(config: &PoseidonConfig<Fr>, inputs: &[Fr]) -> (r: Fr)
    requires
        config.well_formed(),
    ensures
        r@ == sponge_output(
            config.full_rounds as nat,
            config.partial_rounds as nat,
            config.alpha as nat,
            poseidon_params::matrix_values(config.ark@),
            poseidon_params::matrix_values(config.mds@),
            config.rate as nat,
            config.capacity as nat,
            field::fr_values(inputs@),
        ),
        ends_in_filling_zero(field::fr_values(inputs@), config.rate as nat) ==> r@
            == sponge_output(
            config.full_rounds as nat,
            config.partial_rounds as nat,
            config.alpha as nat,
            poseidon_params::matrix_values(config.ark@),
            poseidon_params::matrix_values(config.mds@),
            config.rate as nat,
            config.capacity as nat,
            field::fr_values(inputs@).drop_last(),
        ),
{
    let lift = |x: &Fr| ark_mnt4_753::Fr::from_bigint(BigInt(x.limbs)).unwrap();
    let ark_config = ark_crypto_primitives::sponge::poseidon::PoseidonConfig::new(
        config.full_rounds,
        config.partial_rounds,
        config.alpha,
        config.mds.iter().map(|row| row.iter().map(lift).collect()).collect(),
        config.ark.iter().map(|row| row.iter().map(lift).collect()).collect(),
        config.rate,
        config.capacity,
    );
    let mut sponge = PoseidonSponge::new(&ark_config);
    sponge.absorb(&inputs.iter().map(lift).collect::<Vec<ark_mnt4_753::Fr>>());
    Fr { limbs: sponge.squeeze_native_field_elements(1)[0].into_bigint().0 }
}

/// Poseidon hash of any number of elements with the given parameters.
pub fn poseidon_hash_with(config: &PoseidonConfig<Fr>, inputs: &[Fr]) -> (r: Fr)
    requires
        config.well_formed(),
    ensures
        r@ == config_output(*config, field::fr_values(inputs@)),
        ends_in_filling_zero(field::fr_values(inputs@), config.rate as nat) ==> r@
            == config_output(*config, field::fr_values(inputs@).drop_last()),
{
    first_squeezed(config, inputs)
}

/// The Poseidon hash of the data model.
pub open spec fn poseidon(inputs: Seq<nat>) -> nat {
    sponge_output(
        poseidon_params::FULL_ROUNDS as nat,
        poseidon_params::PARTIAL_ROUNDS as nat,
        poseidon_params::ALPHA as nat,
        poseidon_params::mnt4_ark(),
        poseidon_params::mnt4_mds(),
        poseidon_params::RATE as nat,
        poseidon_params::CAPACITY as nat,
        inputs,
    )
}

/// The parameters are those of the data model: the numbers of rounds, the exponent, the rate
/// and the capacity, the round keys and the mixing matrix.
pub open spec fn has_data_model_parameters(config: PoseidonConfig<Fr>) -> bool {
    &&& config.well_formed()
    &&& config.full_rounds == poseidon_params::FULL_ROUNDS
    &&& config.partial_rounds == poseidon_params::PARTIAL_ROUNDS
    &&& config.alpha == poseidon_params::ALPHA
    &&& config.rate == poseidon_params::RATE
    &&& config.capacity == poseidon_params::CAPACITY
    &&& poseidon_params::matrix_values(config.ark@) == poseidon_params::mnt4_ark()
    &&& poseidon_params::matrix_values(config.mds@) == poseidon_params::mnt4_mds()
}

/// A Poseidon hasher with the parameters of the data model in place, so that
/// many hashes share them.
#[derive(Debug)]
pub struct Hasher {
    config: PoseidonConfig<Fr>,
}

impl Hasher {
    /// The parameters that the hasher works with.
    pub closed spec fn parameters(&self) -> PoseidonConfig<Fr> {
        self.config
    }

    #[verifier::type_invariant]
    spec fn is_data_model(self) -> bool {
        has_data_model_parameters(self.config)
    }

    /// A hasher with the parameters of the data model.
    pub fn new() -> (r: Hasher)
        ensures
            has_data_model_parameters(r.parameters()),
    {
        let config = mnt4_753_fr_poseidon_config();
        Hasher { config }
    }

    /// Poseidon hash of any number of elements. A zero that fills up a block at the end is
    /// not told apart from no input at all.
    pub fn hash(&self, inputs: &[Fr]) -> (r: Fr)
        ensures
            r@ == poseidon(field::fr_values(inputs@)),
            ends_in_filling_zero(field::fr_values(inputs@), poseidon_params::RATE as nat) ==> r@
                == poseidon(field::fr_values(inputs@).drop_last()),
    {
        proof {
            use_type_invariant(self);
        }
        poseidon_hash_with(&self.config, inputs)
    }

    /// Poseidon hash of bytes, folded into elements 31 at a time.
    pub fn hash_bytes(&self, bytes: &[u8]) -> (r: Fr)
        ensures
            r@ == poseidon(bytes_elements(bytes@)),
    {
        if bytes.len() == 0 {
            let inputs = [Fr::from(0u64)];
            assert(field::fr_values(inputs@) =~= seq![0nat]);
            return self.hash(&inputs);
        }
        let mut elements: Vec<Fr> = Vec::new();
        let mut start: usize = 0;
        while start < bytes.len()
            invariant
                start <= bytes@.len(),
                start == bytes@.len() || start == 31 * elements@.len(),
                elements@.len() <= piece_count(bytes@.len(), 31),
                start == bytes@.len() ==> elements@.len() == piece_count(bytes@.len(), 31),
                forall|k: int|
                    0 <= k < elements@.len() ==> (#[trigger] elements@[k])@ == field::bytes_value(
                        piece(bytes@, 31, k),
                    ),
            decreases bytes@.len() - start,
        {
            let end: usize = if bytes.len() - start > 31 {
                start + 31
            } else {
                bytes.len()
            };
            proof {
                lemma_piece_bounds(bytes@.len(), 31, elements@.len());
                lemma_piece_bounds(bytes@.len(), 31, elements@.len() + 1);
                let part = bytes@.subrange(start as int, end as int);
                assert(piece(bytes@, 31, elements@.len() as int) =~= part);
                lemma_bytes_value_bound(part);
                lemma_modulus_exceeds_248_bits();
                if part.len() < 31 {
                    vstd::arithmetic::power2::lemma_pow2_strictly_increases(8 * part.len(), 248);
                }
                vstd::arithmetic::div_mod::lemma_small_mod(
                    field::bytes_value(part),
                    field::fr_modulus(),
                );
            }
            elements.push(
                fr_from_le_bytes_mod_order(vstd::slice::slice_subrange(bytes, start, end)),
            );
            start = end;
        }
        assert(field::fr_values(elements@) =~= bytes_elements(bytes@));
        self.hash(elements.as_slice())
    }

    /// Poseidon hash of two elements.
    pub fn hash2(&self, a: Fr, b: Fr) -> (r: Fr)
        ensures
            r@ == poseidon(seq![a@, b@]),
    {
        let inputs = [a, b];
        assert(field::fr_values(inputs@) =~= seq![a@, b@]);
        self.hash(&inputs)
    }

    /// Poseidon hash of three elements.
    pub fn hash3(&self, a: Fr, b: Fr, c: Fr) -> (r: Fr)
        ensures
            r@ == poseidon(seq![a@, b@, c@]),
    {
        let inputs = [a, b, c];
        assert(field::fr_values(inputs@) =~= seq![a@, b@, c@]);
        self.hash(&inputs)
    }

    /// Poseidon hash of four elements.
    pub fn hash4(&self, a: Fr, b: Fr, c: Fr, d: Fr) -> (r: Fr)
        ensures
            r@ == poseidon(seq![a@, b@, c@, d@]),
    {
        let inputs = [a, b, c, d];
        assert(field::fr_values(inputs@) =~= seq![a@, b@, c@, d@]);
        self.hash(&inputs)
    }
}

impl Clone for Hasher {
    /// A hasher has one set of parameters only, so a copy is a fresh one.
    fn clone(&self) -> (r: Hasher)
        ensures
            has_data_model_parameters(r.parameters()),
    {
        Hasher::new()
    }
}

/// General-purpose Poseidon hash of any number of field elements. A zero that fills up a
/// block at the end is not told apart from no input at all.
pub fn poseidon_hash(inputs: &[Fr]) -> (r: Fr)
    ensures
        r@ == poseidon(field::fr_values(inputs@)),
        ends_in_filling_zero(field::fr_values(inputs@), poseidon_params::RATE as nat) ==> r@
            == poseidon(field::fr_values(inputs@).drop_last()),
{
    Hasher::new().hash(inputs)
}

/// Number of pieces of at most `size` items that `len` items are cut into.
pub open spec fn piece_count(len: nat, size: nat) -> nat {
    (len + size - 1) as nat / size
}

/// The `i`-th piece of at most `size` items.
pub open spec fn piece<T>(s: Seq<T>, size: nat, i: int) -> Seq<T> {
    s.subrange(size * i, if size * i + size <= s.len() { size * i + size } else { s.len() as int })
}

/// Bytes as field elements: one little-endian number for each piece of at most
/// 31 bytes, and a single zero for no bytes at all.
pub open spec fn bytes_elements(bytes: Seq<u8>) -> Seq<nat> {
    if bytes.len() == 0 {
        seq![0nat]
    } else {
        Seq::new(piece_count(bytes.len(), 31), |i: int| field::bytes_value(piece(bytes, 31, i)))
    }
}

/// Bits as field elements: one little-endian number for each piece of at most
/// 248 bits.
pub open spec fn bits_elements(bits: Seq<bool>) -> Seq<nat> {
    Seq::new(piece_count(bits.len(), 248), |i: int| field::bits_value(piece(bits, 248, i)))
}

pub proof fn lemma_modulus_exceeds_248_bits()
    ensures
        pow2(248) < field::fr_modulus(),
{
    vstd::arithmetic::power2::lemma2_to64_rest();
    vstd::arithmetic::power2::lemma_pow2_adds(62, 62);
    vstd::arithmetic::power2::lemma_pow2_adds(124, 124);
    assert(pow2(62) == 0x4000_0000_0000_0000);
    assert(pow2(124) == 0x1000_0000_0000_0000_0000_0000_0000_0000nat) by (nonlinear_arith)
        requires
            pow2(124) == pow2(62) * pow2(62),
            pow2(62) == 0x4000_0000_0000_0000,
    ;
    assert(pow2(248) == 0x100000000000000000000000000000000000000000000000000000000000000nat) by (nonlinear_arith)
        requires
            pow2(248) == pow2(124) * pow2(124),
            pow2(124) == 0x1000_0000_0000_0000_0000_0000_0000_0000nat,
    ;
}

/// A little-endian number of `n` bytes is below 256 to the power `n`.
pub proof fn lemma_bytes_value_bound(bytes: Seq<u8>)
    ensures
        field::bytes_value(bytes) < pow2(8 * bytes.len()),
    decreases bytes.len(),
{
    vstd::arithmetic::power2::lemma2_to64();
    if bytes.len() > 0 {
        lemma_bytes_value_bound(bytes.drop_first());
        vstd::arithmetic::power2::lemma_pow2_adds(8, (8 * (bytes.len() - 1)) as nat);
        assert(pow2(8 * bytes.len()) == 256 * pow2((8 * (bytes.len() - 1)) as nat));
    }
}

/// A little-endian number of `n` bits is below 2 to the power `n`.
pub proof fn lemma_bits_value_bound(bits: Seq<bool>)
    ensures
        field::bits_value(bits) < pow2(bits.len()),
    decreases bits.len(),
{
    vstd::arithmetic::power2::lemma2_to64();
    if bits.len() > 0 {
        lemma_bits_value_bound(bits.drop_last());
        vstd::arithmetic::power2::lemma_pow2_unfold(bits.len());
    }
}


/// Bounds of the `i`-th of the pieces that `len` items are cut into.
pub proof fn lemma_piece_bounds(len: nat, size: nat, i: nat)
    requires
        size > 0,
    ensures
        i < piece_count(len, size) <==> size * i < len,
{
    vstd::arithmetic::div_mod::lemma_fundamental_div_mod(len + size - 1, size as int);
    let q = (len + size - 1) as nat / size;
    let m = (len + size - 1) as nat % size;
    assert(len + size - 1 == size * q + m);
    if i < q {
        assert(size * i + size <= size * q) by (nonlinear_arith)
            requires
                i + 1 <= q,
        ;
    } else {
        assert(size * q <= size * i) by (nonlinear_arith)
            requires
                q <= i,
        ;
    }
}

/// Fold arbitrary bytes into field elements, 31 bytes at a time, and hash them.
/// Used for data that is inherently byte-oriented: ciphertexts and X25519 keys.
pub fn poseidon_hash_bytes(bytes: &[u8]) -> (r: Fr)
    ensures
        r@ == poseidon(bytes_elements(bytes@)),
{
    Hasher::new().hash_bytes(bytes)
}

/// The number written by at most 248 bits, as a field element.
fn element_of_bits(bits: &[bool]) -> (r: Fr)
    requires
        bits@.len() <= 248,
    ensures
        r@ == field::bits_value(bits@),
{
    let mut acc = Fr::from(0u64);
    let mut place = Fr::from(1u64);
    let two = Fr::from(2u64);
    let mut i: usize = 0;
    proof {
        lemma_modulus_exceeds_248_bits();
        vstd::arithmetic::power2::lemma2_to64();
    }
    while i < bits.len()
        invariant
            i <= bits@.len() <= 248,
            acc@ == field::bits_value(bits@.take(i as int)),
            place@ == pow2(i as nat),
            two@ == 2,
            pow2(248) < field::fr_modulus(),
        decreases bits@.len() - i,
    {
        proof {
            let prefix = bits@.take(i + 1);
            assert(prefix.drop_last() =~= bits@.take(i as int));
            lemma_bits_value_bound(prefix);
            vstd::arithmetic::power2::lemma_pow2_unfold((i + 1) as nat);
            if i + 1 < 248 {
                vstd::arithmetic::power2::lemma_pow2_strictly_increases((i + 1) as nat, 248);
            }
            assert(pow2((i + 1) as nat) < field::fr_modulus());
            vstd::arithmetic::div_mod::lemma_small_mod(
                field::bits_value(prefix),
                field::fr_modulus(),
            );
            vstd::arithmetic::div_mod::lemma_small_mod(
                pow2((i + 1) as nat),
                field::fr_modulus(),
            );
            assert(place@ * 2 == pow2((i + 1) as nat));
        }
        if bits[i] {
            acc = fr_plus(acc, place);
        }
        place = fr_times(place, two);
        i += 1;
    }
    assert(bits@.take(i as int) =~= bits@);
    acc
}

/// Fold bits into field elements, 248 at a time, and hash them.
pub fn fold_bits_le(bits: &[bool]) -> (r: Fr)
    ensures
        r@ == poseidon(bits_elements(bits@)),
{
    let mut elements: Vec<Fr> = Vec::new();
    let mut start: usize = 0;
    while start < bits.len()
        invariant
            start <= bits@.len(),
            start == bits@.len() || start == 248 * elements@.len(),
            elements@.len() <= piece_count(bits@.len(), 248),
            start == bits@.len() ==> elements@.len() == piece_count(bits@.len(), 248),
            forall|k: int|
                0 <= k < elements@.len() ==> (#[trigger] elements@[k])@ == field::bits_value(
                    piece(bits@, 248, k),
                ),
        decreases bits@.len() - start,
    {
        let end: usize = if bits.len() - start > 248 {
            start + 248
        } else {
            bits.len()
        };
        proof {
            lemma_piece_bounds(bits@.len(), 248, elements@.len());
            lemma_piece_bounds(bits@.len(), 248, elements@.len() + 1);
            assert(piece(bits@, 248, elements@.len() as int) =~= bits@.subrange(
                start as int,
                end as int,
            ));
        }
        elements.push(element_of_bits(vstd::slice::slice_subrange(bits, start, end)));
        start = end;
    }
    assert(field::fr_values(elements@) =~= bits_elements(bits@));
    poseidon_hash(elements.as_slice())
}

/// The digits of a scalar in base 2 to the power 248, least significant first.
pub open spec fn scalar_elements(scalar: nat) -> Seq<nat> {
    Seq::new(4, |i: int| (scalar / pow2((248 * i) as nat)) % pow2(248))
}

/// A number is put together from its low bits and its high bits.
pub proof fn lemma_bits_value_split(bits: Seq<bool>, k: int)
    requires
        0 <= k <= bits.len(),
    ensures
        field::bits_value(bits) == field::bits_value(bits.take(k)) + pow2(k as nat)
            * field::bits_value(bits.skip(k)),
    decreases bits.len() - k,
{
    if k == bits.len() {
        assert(bits.take(k) =~= bits);
        assert(bits.skip(k).len() == 0);
        assert(field::bits_value(bits.skip(k)) == 0);
        assert(pow2(k as nat) * 0 == 0);
    } else {
        let shorter = bits.drop_last();
        lemma_bits_value_split(shorter, k);
        assert(shorter.take(k) =~= bits.take(k));
        assert(bits.skip(k).drop_last() =~= shorter.skip(k));
        assert(bits.skip(k).last() == bits.last());
        let top = (bits.len() - 1 - k) as nat;
        vstd::arithmetic::power2::lemma_pow2_adds(k as nat, top);
        let low = field::bits_value(shorter.skip(k));
        let place = pow2(k as nat);
        assert(place * (low + pow2(top)) == place * low + place * pow2(top)) by (nonlinear_arith);
    }
}

/// The bits from `k` on, at most `n` of them, write the number shifted down by
/// `k` and cut off at `n` bits.
pub proof fn lemma_bits_value_window(bits: Seq<bool>, k: nat, n: nat)
    requires
        k + n <= bits.len(),
    ensures
        field::bits_value(bits.subrange(k as int, (k + n) as int)) == (field::bits_value(bits)
            / pow2(k)) % pow2(n),
{
    let rest = bits.skip(k as int);
    lemma_bits_value_split(bits, k as int);
    lemma_bits_value_split(rest, n as int);
    assert(rest.take(n as int) =~= bits.subrange(k as int, (k + n) as int));
    let low = field::bits_value(bits.take(k as int));
    let high = field::bits_value(rest);
    lemma_bits_value_bound(bits.take(k as int));
    lemma_bits_value_bound(rest.take(n as int));
    vstd::arithmetic::power2::lemma_pow2_pos(k);
    vstd::arithmetic::power2::lemma_pow2_pos(n);
    vstd::arithmetic::mul::lemma_mul_is_commutative(pow2(k) as int, high as int);
    vstd::arithmetic::mul::lemma_mul_is_commutative(
        pow2(n) as int,
        field::bits_value(rest.skip(n as int)) as int,
    );
    vstd::arithmetic::div_mod::lemma_fundamental_div_mod_converse(
        field::bits_value(bits) as int,
        pow2(k) as int,
        high as int,
        low as int,
    );
    vstd::arithmetic::div_mod::lemma_fundamental_div_mod_converse(
        high as int,
        pow2(n) as int,
        field::bits_value(rest.skip(n as int)) as int,
        field::bits_value(rest.take(n as int)) as int,
    );
}

/// The pieces of the binary digits of a number, where there are four, are its digits in
/// base 2 to the power 248.
pub proof fn lemma_scalar_elements(bits: Seq<bool>)
    requires
        744 < bits.len() < 992,
    ensures
        bits_elements(bits) == scalar_elements(field::bits_value(bits)),
{
    let scalar = field::bits_value(bits);
    let top = (bits.len() - 744) as nat;
    lemma_bits_value_bound(bits);
    assert(piece(bits, 248, 0) =~= bits.subrange(0, 248));
    assert(piece(bits, 248, 1) =~= bits.subrange(248, 496));
    assert(piece(bits, 248, 2) =~= bits.subrange(496, 744));
    assert(piece(bits, 248, 3) =~= bits.subrange(744, bits.len() as int));
    lemma_bits_value_window(bits, 0, 248);
    lemma_bits_value_window(bits, 248, 248);
    lemma_bits_value_window(bits, 496, 248);
    lemma_bits_value_window(bits, 744, top);
    let high = scalar / pow2(744);
    vstd::arithmetic::power2::lemma_pow2_pos(744);
    vstd::arithmetic::power2::lemma_pow2_adds(744, top);
    vstd::arithmetic::div_mod::lemma_multiply_divide_lt(
        scalar as int,
        pow2(744) as int,
        pow2(top) as int,
    );
    vstd::arithmetic::power2::lemma_pow2_strictly_increases(top, 248);
    vstd::arithmetic::div_mod::lemma_small_mod(high, pow2(top));
    vstd::arithmetic::div_mod::lemma_small_mod(high, pow2(248));
    let digits = scalar_elements(scalar);
    assert(digits[0] == (scalar / pow2(0)) % pow2(248));
    assert(digits[1] == (scalar / pow2(248)) % pow2(248));
    assert(digits[2] == (scalar / pow2(496)) % pow2(248));
    assert(digits[3] == high % pow2(248));
    assert(bits_elements(bits) =~= digits);
}

/// Fold a coin-ownership secret into the data-model field for hashing: cut its
/// binary digits into pieces of 248, read each piece as a little-endian number,
/// and hash the numbers. Defined on bits rather than on a byte format, so that
/// a circuit that holds the secret as bits folds it in the same way.
pub fn fold_owner_scalar(sk: &OwnerScalar) -> (r: Fr)
    ensures
        r@ == folded_scalar(sk@),
{
    let bits = limbs_to_bits_le(sk.to_limbs());
    proof {
        lemma_scalar_elements(bits@);
    }
    fold_bits_le(bits.as_slice())
}

/// What [`fold_owner_scalar`] returns.
pub open spec fn folded_scalar(scalar: nat) -> nat {
    poseidon(scalar_elements(scalar))
}

/// One digit of a scalar and what is above it.
proof fn lemma_scalar_digit(scalar: nat, k: nat)
    ensures
        scalar / pow2(248 * k) == pow2(248) * (scalar / pow2(248 * (k + 1))) + (scalar / pow2(
            248 * k,
        )) % pow2(248),
{
    let rest = scalar / pow2(248 * k);
    vstd::arithmetic::power2::lemma_pow2_pos(248 * k);
    vstd::arithmetic::power2::lemma_pow2_pos(248);
    vstd::arithmetic::power2::lemma_pow2_adds(248 * k, 248);
    assert(248 * k + 248 == 248 * (k + 1));
    vstd::arithmetic::div_mod::lemma_div_denominator(
        scalar as int,
        pow2(248 * k) as int,
        pow2(248) as int,
    );
    vstd::arithmetic::div_mod::lemma_fundamental_div_mod(rest as int, pow2(248) as int);
}

/// Folding keeps different secrets apart: a secret is determined by its digits.
pub proof fn digits_determine_scalar(a: nat, b: nat)
    requires
        a < field::owner_modulus(),
        b < field::owner_modulus(),
        scalar_elements(a) == scalar_elements(b),
    ensures
        a == b,
{
    vstd::arithmetic::power2::lemma2_to64();
    lemma_digits_add_up(a);
    lemma_digits_add_up(b);
}

/// A secret is put together from its digits.
proof fn lemma_digits_add_up(scalar: nat)
    requires
        scalar < field::owner_modulus(),
    ensures
        ({
            let digits = scalar_elements(scalar);
            let base = pow2(248);
            scalar == base * (base * (base * digits[3] + digits[2]) + digits[1]) + digits[0]
        }),
{
    let digits = scalar_elements(scalar);
    vstd::arithmetic::power2::lemma2_to64();
    vstd::arithmetic::power2::lemma_pow2_pos(248);
    lemma_scalar_digit(scalar, 0);
    lemma_scalar_digit(scalar, 1);
    lemma_scalar_digit(scalar, 2);
    lemma_top_digit(scalar);
    assert(scalar / pow2(0) == scalar);
    assert(digits[0] == (scalar / pow2(0)) % pow2(248));
    assert(digits[1] == (scalar / pow2(248)) % pow2(248));
    assert(digits[2] == (scalar / pow2(496)) % pow2(248));
    assert(digits[3] == (scalar / pow2(744)) % pow2(248));
}

/// The last of a secret's digits is all that is above the others.
proof fn lemma_top_digit(scalar: nat)
    requires
        scalar < field::owner_modulus(),
    ensures
        (scalar / pow2(744)) % pow2(248) == scalar / pow2(744),
{
    constraints::lemma_moduli_below_753_bits();
    vstd::arithmetic::power2::lemma_pow2_strictly_increases(753, 992);
    vstd::arithmetic::power2::lemma_pow2_pos(744);
    vstd::arithmetic::power2::lemma_pow2_adds(744, 248);
    vstd::arithmetic::div_mod::lemma_multiply_divide_lt(
        scalar as int,
        pow2(744) as int,
        pow2(248) as int,
    );
    vstd::arithmetic::div_mod::lemma_small_mod(scalar / pow2(744), pow2(248));
}

/// Each byte is a digit of the number that bytes write.
pub proof fn bytes_are_digits(bytes: Seq<u8>, i: nat)
    requires
        i < bytes.len(),
    ensures
        (field::bytes_value(bytes) / pow2(8 * i)) % 256 == bytes[i as int],
    decreases i,
{
    let value = field::bytes_value(bytes);
    let rest = field::bytes_value(bytes.drop_first());
    vstd::arithmetic::power2::lemma2_to64();
    if i == 0 {
        assert(value / pow2(0) == value);
    } else {
        let lower = (i - 1) as nat;
        bytes_are_digits(bytes.drop_first(), lower);
        vstd::arithmetic::power2::lemma_pow2_adds(8, 8 * lower);
        vstd::arithmetic::power2::lemma_pow2_pos(8 * lower);
        vstd::arithmetic::div_mod::lemma_div_denominator(
            value as int,
            256,
            pow2(8 * lower) as int,
        );
        assert(value / 256 == rest);
        assert(8 * i == 8 + 8 * lower);
    }
}

/// Every byte goes into the hash: each of them is a digit of one of the elements that bytes are
/// folded into, the elements are as many as it takes, and each is below the modulus, so the
/// field loses none. No bytes are folded into a single zero.
pub proof fn every_byte_is_folded(bytes: Seq<u8>, i: int)
    requires
        0 <= i < bytes.len(),
    ensures
        ({
            let elements = bytes_elements(bytes);
            &&& 31 * (elements.len() - 1) < bytes.len() <= 31 * elements.len()
            &&& (elements[i / 31] / pow2((8 * (i % 31)) as nat)) % 256 == bytes[i]
            &&& elements[i / 31] < field::fr_modulus()
        }),
        bytes_elements(Seq::empty()) == seq![0nat],
{
    let k = i / 31;
    let part = piece(bytes, 31, k);
    let n = bytes_elements(bytes).len();
    lemma_piece_bounds(bytes.len(), 31, k as nat);
    lemma_piece_bounds(bytes.len(), 31, n);
    lemma_piece_bounds(bytes.len(), 31, (n - 1) as nat);
    assert(part[i % 31] == bytes[i]);
    bytes_are_digits(part, (i % 31) as nat);
    lemma_bytes_value_bound(part);
    lemma_modulus_exceeds_248_bits();
    if part.len() < 31 {
        vstd::arithmetic::power2::lemma_pow2_strictly_increases(8 * part.len(), 248);
    }
}

/// Folding keeps different byte strings of the same length apart.
pub proof fn elements_determine_bytes(a: Seq<u8>, b: Seq<u8>)
    requires
        a.len() == b.len(),
        bytes_elements(a) == bytes_elements(b),
    ensures
        a == b,
{
    assert forall|i: int| 0 <= i < a.len() implies a[i] == b[i] by {
        every_byte_is_folded(a, i);
        every_byte_is_folded(b, i);
    }
    assert(a =~= b);
}

/// Every bit goes into the hash: each piece of 248 bits is a number whose binary digits are the
/// bits of the piece, and there are as many pieces as it takes.
pub proof fn every_bit_is_folded(bits: Seq<bool>, i: int)
    requires
        0 <= i < bits.len(),
    ensures
        ({
            let elements = bits_elements(bits);
            &&& 248 * (elements.len() - 1) < bits.len() <= 248 * elements.len()
            &&& (elements[i / 248] / pow2((i % 248) as nat)) % 2 == if bits[i] {
                1nat
            } else {
                0
            }
            &&& elements[i / 248] < field::fr_modulus()
        }),
{
    let k = i / 248;
    let part = piece(bits, 248, k);
    let n = bits_elements(bits).len();
    let j = (i % 248) as nat;
    lemma_piece_bounds(bits.len(), 248, k as nat);
    lemma_piece_bounds(bits.len(), 248, n);
    lemma_piece_bounds(bits.len(), 248, (n - 1) as nat);
    assert(part[j as int] == bits[i]);
    lemma_bits_value_window(part, j, 1);
    vstd::arithmetic::power2::lemma2_to64();
    let one = part.subrange(j as int, (j + 1) as int);
    assert(one.drop_last().len() == 0);
    assert(one.last() == bits[i]);
    assert(field::bits_value(one.drop_last()) == 0);
    lemma_bits_value_bound(part);
    lemma_modulus_exceeds_248_bits();
    if part.len() < 248 {
        vstd::arithmetic::power2::lemma_pow2_strictly_increases(part.len(), 248);
    }
}

/// The elements that a secret is folded into are its digits in base 2 to the power 248: they
/// are four, each below the base, and they add up to the secret.
pub proof fn secret_is_the_sum_of_its_elements(scalar: nat)
    requires
        scalar < field::owner_modulus(),
    ensures
        ({
            let digits = scalar_elements(scalar);
            let base = pow2(248);
            &&& digits.len() == 4
            &&& forall|i: int| 0 <= i < 4 ==> #[trigger] digits[i] < base
            &&& scalar == base * (base * (base * digits[3] + digits[2]) + digits[1]) + digits[0]
        }),
{
    lemma_digits_add_up(scalar);
    vstd::arithmetic::power2::lemma_pow2_pos(248);
}

/// A secret is folded through its bits: for any bits that write it, from 745 to 991 of them,
/// folding the bits gives what folding the secret gives.
pub proof fn folding_a_secret_folds_its_bits(sk: &OwnerScalar, r: Fr, bits: &[bool], by_bits: Fr)
    requires
        call_ensures(fold_owner_scalar, (sk,), r),
        call_ensures(fold_bits_le, (bits,), by_bits),
        744 < bits@.len() < 992,
        field::bits_value(bits@) == sk@,
    ensures
        r@ == by_bits@,
{
    lemma_scalar_elements(bits@);
}

/// Hashing bytes is hashing any elements whose values are those that the bytes are folded into.
pub proof fn hashing_bytes_hashes_their_elements(bytes: &[u8], r: Fr, elements: &[Fr], by_elements: Fr)
    requires
        call_ensures(poseidon_hash_bytes, (bytes,), r),
        call_ensures(poseidon_hash, (elements,), by_elements),
        bytes@.len() > 0,
        31 * (elements@.len() - 1) < bytes@.len() <= 31 * elements@.len(),
        forall|k: int|
            0 <= k < elements@.len() ==> (#[trigger] elements@[k])@ == field::bytes_value(
                bytes@.subrange(
                    31 * k,
                    if 31 * k + 31 <= bytes@.len() {
                        31 * k + 31
                    } else {
                        bytes@.len() as int
                    },
                ),
            ),
    ensures
        r@ == by_elements@,
{
    lemma_piece_bounds(bytes@.len(), 31, elements@.len());
    lemma_piece_bounds(bytes@.len(), 31, (elements@.len() - 1) as nat);
    assert(field::fr_values(elements@) =~= bytes_elements(bytes@));
}

/// Bits write a number in base 2, the least significant first: one more bit counts with the
/// next power.
pub proof fn one_more_bit_is_the_highest_digit(bits: Seq<bool>, b: bool)
    ensures
        field::bits_value(Seq::empty()) == 0,
        field::bits_value(bits.push(b)) == field::bits_value(bits) + if b {
            pow2(bits.len())
        } else {
            0
        },
{
    assert(bits.push(b).drop_last() =~= bits);
}

/// The hash of the data model is the sponge's with the parameters over the scalar field of
/// MNT4-753.
pub proof fn hash_uses_the_data_model_parameters(
    config: PoseidonConfig<Fr>,
    inputs: &[Fr],
    r: Fr,
    with: Fr,
)
    requires
        call_ensures(mnt4_753_fr_poseidon_config, (), config),
        call_ensures(poseidon_hash, (inputs,), r),
        call_ensures(poseidon_hash_with, (&config, inputs), with),
    ensures
        r@ == with@,
{
}

/// Folding bits is hashing any elements that are the numbers which their pieces of 248 write.
pub proof fn folding_bits_hashes_their_elements(
    bits: &[bool],
    r: Fr,
    elements: &[Fr],
    by_elements: Fr,
)
    requires
        call_ensures(fold_bits_le, (bits,), r),
        call_ensures(poseidon_hash, (elements,), by_elements),
        bits@.len() > 0,
        248 * (elements@.len() - 1) < bits@.len() <= 248 * elements@.len(),
        forall|k: int|
            0 <= k < elements@.len() ==> (#[trigger] elements@[k])@ == field::bits_value(
                bits@.subrange(
                    248 * k,
                    if 248 * k + 248 <= bits@.len() {
                        248 * k + 248
                    } else {
                        bits@.len() as int
                    },
                ),
            ),
    ensures
        r@ == by_elements@,
{
    lemma_piece_bounds(bits@.len(), 248, elements@.len());
    lemma_piece_bounds(bits@.len(), 248, (elements@.len() - 1) as nat);
    assert(field::fr_values(elements@) =~= bits_elements(bits@));
}

/// A folded secret is the hash of four elements, its digits in base 2 to the power 248.
pub proof fn folded_secret_is_the_hash_of_its_digits(
    sk: &OwnerScalar,
    r: Fr,
    elements: &[Fr],
    hash: Fr,
)
    requires
        call_ensures(fold_owner_scalar, (sk,), r),
        elements@.len() == 4,
        forall|i: int| 0 <= i < 4 ==> (#[trigger] elements@[i])@ < pow2(248),
        sk@ == elements@[0]@ + pow2(248) * (elements@[1]@ + pow2(248) * (elements@[2]@ + pow2(248)
            * elements@[3]@)),
        sk@ < field::owner_modulus(),
        call_ensures(poseidon_hash, (elements,), hash),
    ensures
        r@ == hash@,
{
    let b = pow2(248);
    let s = sk@;
    let d = scalar_elements(s);
    let (e0, e1, e2, e3) = (elements@[0]@, elements@[1]@, elements@[2]@, elements@[3]@);
    secret_is_the_sum_of_its_elements(s);
    vstd::arithmetic::power2::lemma_pow2_pos(248);
    let x1 = e1 + b * (e2 + b * e3);
    let y1 = b * (b * d[3] + d[2]) + d[1];
    assert(s == b * x1 + e0 && s == b * y1 + d[0]);
    vstd::arithmetic::div_mod::lemma_fundamental_div_mod_converse(
        s as int,
        b as int,
        x1 as int,
        e0 as int,
    );
    vstd::arithmetic::div_mod::lemma_fundamental_div_mod_converse(
        s as int,
        b as int,
        y1 as int,
        d[0] as int,
    );
    let x2 = e2 + b * e3;
    let y2 = b * d[3] + d[2];
    vstd::arithmetic::div_mod::lemma_fundamental_div_mod_converse(
        x1 as int,
        b as int,
        x2 as int,
        e1 as int,
    );
    vstd::arithmetic::div_mod::lemma_fundamental_div_mod_converse(
        y1 as int,
        b as int,
        y2 as int,
        d[1] as int,
    );
    vstd::arithmetic::div_mod::lemma_fundamental_div_mod_converse(
        x2 as int,
        b as int,
        e3 as int,
        e2 as int,
    );
    vstd::arithmetic::div_mod::lemma_fundamental_div_mod_converse(
        y2 as int,
        b as int,
        d[3] as int,
        d[2] as int,
    );
    assert(field::fr_values(elements@) =~= d);
}

} // verus!
