//! Verification of Groth16 proofs over the two curves of the cycle. Keys and proofs are
//! held as the bytes that `ark-serialize` writes for them in compressed form.

use vstd::prelude::*;
use ark_ff::{BigInt, PrimeField};
use ark_groth16::{Groth16, Proof, VerifyingKey};
use ark_serialize::CanonicalDeserialize;
use ark_snark::SNARK;
use crate::codec::leading_u64;
use crate::field;
use crate::field::{Fr, OwnerScalar};

verus! {

/// Why a circuit could not be synthesised, or a proof not be verified.
#[derive(Clone, Copy, Debug, PartialEq, Eq, Structural)]
pub enum SynthesisError {
    MissingCS,
    AssignmentMissing,
    DivisionByZero,
    Unsatisfiable,
    PolynomialDegreeTooLarge,
    UnexpectedIdentity,
    MalformedVerifyingKey,
    UnconstrainedVariable,
}

/// Bytes of a point of the first group, over both curves.
pub const FIRST_GROUP_BYTES: usize = 95;

/// Bytes of a point of the second group of MNT4-753.
pub const MNT4_SECOND_GROUP_BYTES: usize = 190;

/// Bytes of a point of the second group of MNT6-753.
pub const MNT6_SECOND_GROUP_BYTES: usize = 285;

/// Bytes begin with the encoding of a key over MNT4-753.
pub uninterp spec fn mnt4_key_decodes(vk: Seq<u8>) -> bool;

/// Bytes begin with the encoding of a proof over MNT4-753.
pub uninterp spec fn mnt4_proof_decodes(snark: Seq<u8>) -> bool;

/// Whether a proof over MNT4-753 verifies. `None` where key or proof are not encodings;
/// `Some(None)` where the key is for another number of inputs, or the product of pairings
/// is zero.
pub uninterp spec fn mnt4_verdict(vk: Seq<u8>, inputs: Seq<nat>, snark: Seq<u8>) -> Option<
    Option<bool>,
>;

/// Whether a proof over MNT6-753 verifies. `None` where key or proof are not encodings;
/// `Some(None)` where the key is for another number of inputs, or the product of pairings
/// is zero.
pub uninterp spec fn mnt6_verdict(vk: Seq<u8>, inputs: Seq<nat>, snark: Seq<u8>) -> Option<
    Option<bool>,
>;

/// Bytes before the list of points in a key: one point of the first group and three of the
/// second, which take `width` bytes each.
pub open spec fn key_header(width: int) -> int {
    95 + 3 * width
}

/// How many points of the first group a key announces behind its header.
pub open spec fn key_count(vk: Seq<u8>, width: int) -> nat {
    field::bytes_value(vk.subrange(key_header(width), key_header(width) + 8))
}

/// The list that a key announces behind its header fits the bytes that follow.
pub open spec fn key_list_fits(vk: Seq<u8>, width: int) -> bool {
    &&& key_header(width) + 8 <= vk.len()
    &&& key_header(width) + 8 + 95 * key_count(vk, width) <= vk.len()
}

/// The point that ends before `end` is flagged as the identity: of the topmost two bits of its
/// last byte, the lower one alone is set.
pub open spec fn is_identity(bytes: Seq<u8>, end: int) -> bool {
    end <= bytes.len() && bytes[end - 1] / 64 == 1
}

/// The identity is the second point of a key.
pub open spec fn key_pairs_identity(vk: Seq<u8>, width: int) -> bool {
    is_identity(vk, 95 + width)
}

/// The identity is the third or the fourth point of a key.
pub open spec fn key_goes_on_with_identity(vk: Seq<u8>, width: int) -> bool {
    is_identity(vk, 95 + 2 * width) || is_identity(vk, 95 + 3 * width)
}

/// The identity is the one point of the second group in a proof.
pub open spec fn proof_has_identity(snark: Seq<u8>, width: int) -> bool {
    is_identity(snark, 95 + width)
}

/// The representatives of a sequence of scalars.
pub open spec fn owner_values(s: Seq<OwnerScalar>) -> Seq<nat> {
    s.map_values(|x: OwnerScalar| x@)
}

/// `Groth16::<MNT4_753>::verify` of `ark-groth16`, on a key and a proof decoded by
/// `deserialize_compressed`: the outcome depends on key, inputs and proof alone. The
/// decoder reserves memory for as many points as the key announces before it reads any,
/// so the announced number must fit the bytes. Over this curve the preparation of a point
/// of the second group inverts a coordinate that is zero for the identity, and panics there,
/// so the identity is left out of the second group. The pairing is not written out here.
#[verifier::external_body]
fn verify_mnt4(vk: &[u8], inputs: &[Fr], snark: &[u8]) -> (r: Option<Option<bool>>)
    requires
        key_list_fits(vk@, 190),
        !key_pairs_identity(vk@, 190),
        !key_goes_on_with_identity(vk@, 190),
        !proof_has_identity(snark@, 190),
    ensures
        r == mnt4_verdict(vk@, field::fr_values(inputs@), snark@),
        r is Some == (mnt4_key_decodes(vk@) && mnt4_proof_decodes(snark@)),
{
    let key = VerifyingKey::<ark_mnt4_753::MNT4_753>::deserialize_compressed(vk).ok()?;
    let parsed = Proof::<ark_mnt4_753::MNT4_753>::deserialize_compressed(snark).ok()?;
    let values: Vec<ark_mnt4_753::Fr> = inputs.iter().map(
        |x| ark_mnt4_753::Fr::from_bigint(BigInt(x.limbs)).unwrap(),
    ).collect();
    Some(Groth16::<ark_mnt4_753::MNT4_753>::verify(&key, &values, &parsed).ok())
}

/// `VerifyingKey::<MNT4_753>::deserialize_compressed` of `ark-groth16`: whether it gives a key
/// depends on the bytes alone. It reserves memory for as many points as the bytes announce
/// before it reads any, so the announced number must fit the bytes. Which bytes it refuses is
/// not written out here: that takes square roots and multiples in both groups.
#[verifier::external_body]
fn decodes_key_mnt4(vk: &[u8]) -> (r: bool)
    requires
        key_list_fits(vk@, 190),
    ensures
        r == mnt4_key_decodes(vk@),
{
    VerifyingKey::<ark_mnt4_753::MNT4_753>::deserialize_compressed(vk).is_ok()
}

/// `Proof::<MNT4_753>::deserialize_compressed` of `ark-groth16`: whether it gives a proof
/// depends on the bytes alone. Which bytes it refuses is not written out here: that takes
/// square roots and multiples in both groups.
#[verifier::external_body]
pub(crate) fn decodes_proof_mnt4(snark: &[u8]) -> (r: bool)
    ensures
        r == mnt4_proof_decodes(snark@),
{
    Proof::<ark_mnt4_753::MNT4_753>::deserialize_compressed(snark).is_ok()
}

/// Bytes hold a key over MNT4-753: the list that they announce fits, and they decode.
pub open spec fn holds_mnt4_key(vk: Seq<u8>) -> bool {
    key_list_fits(vk, 190) && mnt4_key_decodes(vk)
}

/// Whether bytes hold a key over MNT4-753.
pub fn is_mnt4_key(vk: &[u8]) -> (r: bool)
    ensures
        r == holds_mnt4_key(vk@),
{
    match fitting_count(vk, MNT4_SECOND_GROUP_BYTES) {
        Some(_) => decodes_key_mnt4(vk),
        None => false,
    }
}

/// `Groth16::<MNT6_753>::verify` of `ark-groth16`, on a key and a proof decoded by
/// `deserialize_compressed`: the outcome depends on key, inputs and proof alone. The
/// decoder reserves memory for as many points as the key announces before it reads any,
/// so the announced number must fit the bytes. The pairing of the key's first two points is
/// unwrapped: its loop starts from the second one, multiplies by zero after the first
/// addition of the identity, and has no inverse then, so the identity is left out there. The
/// pairing is not written out here.
#[verifier::external_body]
fn verify_mnt6(vk: &[u8], inputs: &[OwnerScalar], snark: &[u8]) -> (r: Option<Option<bool>>)
    requires
        key_list_fits(vk@, 285),
        !key_pairs_identity(vk@, 285),
    ensures
        r == mnt6_verdict(vk@, owner_values(inputs@), snark@),
{
    let key = VerifyingKey::<ark_mnt6_753::MNT6_753>::deserialize_compressed(vk).ok()?;
    let parsed = Proof::<ark_mnt6_753::MNT6_753>::deserialize_compressed(snark).ok()?;
    let values: Vec<ark_mnt6_753::Fr> = inputs.iter().map(
        |x| ark_mnt6_753::Fr::from_bigint(BigInt(x.limbs)).unwrap(),
    ).collect();
    Some(Groth16::<ark_mnt6_753::MNT6_753>::verify(&key, &values, &parsed).ok())
}

/// How many points of the first group a key announces, if they fit.
fn fitting_count(vk: &[u8], width: usize) -> (r: Option<u64>)
    requires
        width <= 285,
    ensures
        r is Some <==> key_list_fits(vk@, width as int),
        r is Some ==> r->0 == key_count(vk@, width as int),
{
    let header: usize = FIRST_GROUP_BYTES + 3 * width;
    if vk.len() < header + 8 {
        return None;
    }
    let count = leading_u64(vstd::slice::slice_subrange(vk, header, header + 8));
    assert(vk@.subrange(header as int, header + 8).take(8) =~= vk@.subrange(
        header as int,
        header + 8,
    ));
    let room: usize = (vk.len() - header - 8) / FIRST_GROUP_BYTES;
    if count <= room as u64 {
        Some(count)
    } else {
        None
    }
}

/// Whether the point that ends before `end` is flagged as the identity.
fn ends_identity(bytes: &[u8], end: usize) -> (r: bool)
    requires
        0 < end,
    ensures
        r == is_identity(bytes@, end as int),
{
    end <= bytes.len() && bytes[end - 1] / 64 == 1
}

/// What verification says of decoded bytes, for a key of as many points as there are inputs
/// and one more.
pub open spec fn verdict_outcome(verdict: Option<Option<bool>>) -> Result<bool, SynthesisError> {
    match verdict {
        Some(Some(accepted)) => Ok(accepted),
        Some(None) => Err(SynthesisError::UnexpectedIdentity),
        None => Err(SynthesisError::MalformedVerifyingKey),
    }
}

/// What verification says of decoded bytes.
fn outcome_of(verdict: Option<Option<bool>>) -> (r: Result<bool, SynthesisError>)
    ensures
        r == verdict_outcome(verdict),
{
    match verdict {
        Some(Some(accepted)) => Ok(accepted),
        Some(None) => Err(SynthesisError::UnexpectedIdentity),
        None => Err(SynthesisError::MalformedVerifyingKey),
    }
}

/// What verification over MNT4-753 says of bytes.
pub open spec fn mnt4_outcome(vk: Seq<u8>, inputs: Seq<nat>, snark: Seq<u8>) -> Result<
    bool,
    SynthesisError,
> {
    if !key_list_fits(vk, 190) {
        Err(SynthesisError::MalformedVerifyingKey)
    } else if key_pairs_identity(vk, 190) || key_goes_on_with_identity(vk, 190) {
        Err(SynthesisError::UnexpectedIdentity)
    } else if key_count(vk, 190) != inputs.len() + 1 {
        Err(SynthesisError::MalformedVerifyingKey)
    } else if proof_has_identity(snark, 190) {
        Err(SynthesisError::UnexpectedIdentity)
    } else {
        verdict_outcome(mnt4_verdict(vk, inputs, snark))
    }
}

/// What verification over MNT6-753 says of bytes.
pub open spec fn mnt6_outcome(vk: Seq<u8>, inputs: Seq<nat>, snark: Seq<u8>) -> Result<
    bool,
    SynthesisError,
> {
    if !key_list_fits(vk, 285) {
        Err(SynthesisError::MalformedVerifyingKey)
    } else if key_pairs_identity(vk, 285) {
        Err(SynthesisError::UnexpectedIdentity)
    } else if key_count(vk, 285) != inputs.len() + 1 {
        Err(SynthesisError::MalformedVerifyingKey)
    } else {
        verdict_outcome(mnt6_verdict(vk, inputs, snark))
    }
}

/// There is a proof over MNT4-753 that verifies.
pub open spec fn mnt4_provable(vk: Seq<u8>, inputs: Seq<nat>) -> bool {
    exists|snark: Seq<u8>| #[trigger]
        mnt4_outcome(vk, inputs, snark) == Ok::<bool, SynthesisError>(true)
}

/// There is a proof over MNT6-753 that verifies.
pub open spec fn mnt6_provable(vk: Seq<u8>, inputs: Seq<nat>) -> bool {
    exists|snark: Seq<u8>| #[trigger]
        mnt6_outcome(vk, inputs, snark) == Ok::<bool, SynthesisError>(true)
}

/// Verify a proof over MNT4-753. Bytes that are no encoding are refused as a malformed key,
/// and so is a key for another number of inputs. The identity is refused where the pairing is
/// not defined on it.
pub fn mnt4_verify(vk: &[u8], public_inputs: &[Fr], snark: &[u8]) -> (r: Result<
    bool,
    SynthesisError,
>)
    ensures
        r == mnt4_outcome(vk@, field::fr_values(public_inputs@), snark@),
        r is Ok ==> holds_mnt4_key(vk@) && mnt4_proof_decodes(snark@),
{
    let width: usize = MNT4_SECOND_GROUP_BYTES;
    let count: u64 = match fitting_count(vk, width) {
        Some(count) => count,
        None => return Err(SynthesisError::MalformedVerifyingKey),
    };
    if ends_identity(vk, 95 + width) || ends_identity(vk, 95 + 2 * width) || ends_identity(
        vk,
        95 + 3 * width,
    ) {
        return Err(SynthesisError::UnexpectedIdentity);
    }
    if count == 0 || count - 1 != public_inputs.len() as u64 {
        return Err(SynthesisError::MalformedVerifyingKey);
    }
    if ends_identity(snark, 95 + width) {
        return Err(SynthesisError::UnexpectedIdentity);
    }
    outcome_of(verify_mnt4(vk, public_inputs, snark))
}

/// Verify a proof over MNT6-753. Bytes that are no encoding are refused as a malformed key,
/// and so is a key for another number of inputs. A key whose second point is the identity is
/// refused.
pub fn mnt6_verify(vk: &[u8], public_inputs: &[OwnerScalar], snark: &[u8]) -> (r: Result<
    bool,
    SynthesisError,
>)
    ensures
        r == mnt6_outcome(vk@, owner_values(public_inputs@), snark@),
{
    let width: usize = MNT6_SECOND_GROUP_BYTES;
    let count: u64 = match fitting_count(vk, width) {
        Some(count) => count,
        None => return Err(SynthesisError::MalformedVerifyingKey),
    };
    if ends_identity(vk, 95 + width) {
        return Err(SynthesisError::UnexpectedIdentity);
    }
    if count == 0 || count - 1 != public_inputs.len() as u64 {
        return Err(SynthesisError::MalformedVerifyingKey);
    }
    outcome_of(verify_mnt6(vk, public_inputs, snark))
}

/// A verification over MNT4-753 comes to a verdict only for a key that announces a point for
/// each input and one more, all within its bytes, and holds no identity where the pairing is
/// not defined; the verdict is then the one of the pairing equation.
pub proof fn verdict_is_that_of_the_pairing(
    vk: &[u8],
    public_inputs: &[Fr],
    snark: &[u8],
    r: Result<bool, SynthesisError>,
)
    requires
        call_ensures(mnt4_verify, (vk, public_inputs, snark), r),
    ensures
        r matches Ok(accepted) ==> {
            &&& vk@.len() >= 95 + 3 * 190 + 8 + 95 * (public_inputs@.len() + 1)
            &&& field::bytes_value(vk@.subrange(665, 673)) == public_inputs@.len() + 1
            &&& mnt4_verdict(vk@, field::fr_values(public_inputs@), snark@) == Some(Some(accepted))
        },
        vk@.len() >= 673 && field::bytes_value(vk@.subrange(665, 673)) == public_inputs@.len() + 1
            && vk@.len() >= 673 + 95 * (public_inputs@.len() + 1) && vk@[284] / 64 != 1 && vk@[474]
            / 64 != 1 && vk@[664] / 64 != 1 && (snark@.len() >= 285 ==> snark@[284] / 64 != 1)
            ==> r == match mnt4_verdict(vk@, field::fr_values(public_inputs@), snark@) {
            Some(Some(accepted)) => Ok::<bool, SynthesisError>(accepted),
            Some(None) => Err(SynthesisError::UnexpectedIdentity),
            None => Err(SynthesisError::MalformedVerifyingKey),
        },
{
}

/// The same over MNT6-753, where the pairing is defined on more.
pub proof fn wrapped_verdict_is_that_of_the_pairing(
    vk: &[u8],
    public_inputs: &[OwnerScalar],
    snark: &[u8],
    r: Result<bool, SynthesisError>,
)
    requires
        call_ensures(mnt6_verify, (vk, public_inputs, snark), r),
    ensures
        r matches Ok(accepted) ==> {
            &&& vk@.len() >= 95 + 3 * 285 + 8 + 95 * (public_inputs@.len() + 1)
            &&& field::bytes_value(vk@.subrange(950, 958)) == public_inputs@.len() + 1
            &&& mnt6_verdict(vk@, owner_values(public_inputs@), snark@) == Some(Some(accepted))
        },
        vk@.len() >= 958 && field::bytes_value(vk@.subrange(950, 958)) == public_inputs@.len() + 1
            && vk@.len() >= 958 + 95 * (public_inputs@.len() + 1) && vk@[379] / 64 != 1 ==> r
            == match mnt6_verdict(vk@, owner_values(public_inputs@), snark@) {
            Some(Some(accepted)) => Ok::<bool, SynthesisError>(accepted),
            Some(None) => Err(SynthesisError::UnexpectedIdentity),
            None => Err(SynthesisError::MalformedVerifyingKey),
        },
{
}

/// Why a verification over MNT4-753 comes to no verdict, in this order: the key's list is not
/// within its bytes, a point of the second group in the key is the identity, the key is for
/// another number of inputs, the proof's point of the second group is the identity.
pub proof fn failed_verification_tells_why(
    vk: &[u8],
    public_inputs: &[Fr],
    snark: &[u8],
    r: Result<bool, SynthesisError>,
)
    requires
        call_ensures(mnt4_verify, (vk, public_inputs, snark), r),
    ensures
        ({
            let count = field::bytes_value(vk@.subrange(665, 673));
            let listed = vk@.len() >= 673 && vk@.len() >= 673 + 95 * count;
            let paired = listed && vk@[284] / 64 != 1 && vk@[474] / 64 != 1 && vk@[664] / 64 != 1;
            let counted = paired && count == public_inputs@.len() + 1;
            &&& !listed ==> r == Err::<bool, SynthesisError>(SynthesisError::MalformedVerifyingKey)
            &&& listed && !paired ==> r == Err::<bool, SynthesisError>(
                SynthesisError::UnexpectedIdentity,
            )
            &&& paired && !counted ==> r == Err::<bool, SynthesisError>(
                SynthesisError::MalformedVerifyingKey,
            )
            &&& counted && snark@.len() >= 285 && snark@[284] / 64 == 1 ==> r == Err::<
                bool,
                SynthesisError,
            >(SynthesisError::UnexpectedIdentity)
        }),
{
}

/// The same over MNT6-753, where only the key's second point must not be the identity.
pub proof fn failed_wrapped_verification_tells_why(
    vk: &[u8],
    public_inputs: &[OwnerScalar],
    snark: &[u8],
    r: Result<bool, SynthesisError>,
)
    requires
        call_ensures(mnt6_verify, (vk, public_inputs, snark), r),
    ensures
        ({
            let count = field::bytes_value(vk@.subrange(950, 958));
            let listed = vk@.len() >= 958 && vk@.len() >= 958 + 95 * count;
            let paired = listed && vk@[379] / 64 != 1;
            &&& !listed ==> r == Err::<bool, SynthesisError>(SynthesisError::MalformedVerifyingKey)
            &&& listed && !paired ==> r == Err::<bool, SynthesisError>(
                SynthesisError::UnexpectedIdentity,
            )
            &&& paired && count != public_inputs@.len() + 1 ==> r == Err::<bool, SynthesisError>(
                SynthesisError::MalformedVerifyingKey,
            )
        }),
{
}

} // verus!
