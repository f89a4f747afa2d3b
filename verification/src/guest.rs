//! What the zkVM's guest programs compute between reading their inputs and committing their
//! outputs.

use vstd::prelude::*;
use vstd::string::*;
use crate::board::BoardEntry;
use crate::codec;
use crate::codec::decode_fr;
use crate::coin::{Coin, Transaction};
use crate::envelope;
use crate::envelope::{push_bytes, sha256};
use crate::field::{Fr, OwnerScalar};
use crate::groth16;
use crate::groth16::{decodes_proof_mnt4, is_mnt4_key, mnt4_verify, SynthesisError};
use crate::keys::OwnerPk;
use crate::merkle;
use crate::field;
use crate::board;
use crate::nullifier::NonMembershipWitness;
use crate::relations;
use crate::relations::{
    check_coin_receipt, check_spend, CoinReceiptPublicValues, ValidPublicValues,
};
use crate::report;
use crate::report::push_decimal;

verus! {

/// What a guest program does with valid inputs: it leaves the check of another program's
/// proof over values with the given digest to the zkVM, where there is one, and commits to
/// bytes.
pub struct GuestOutput {
    pub deferred: Option<[u8; 32]>,
    pub committed: Vec<u8>,
}

/// The spend program: a spend that is no genesis mint rests on a receipt, whose proof is
/// checked over the receipt's public values.
pub fn spend_program(
    vkey: [u32; 8],
    coin_proof_vkey: [u32; 8],
    sk_p: OwnerScalar,
    pk_p: OwnerPk,
    coin_commitment: Fr,
    entry_position: usize,
    append_path: Vec<Fr>,
    tx_star: Transaction,
    input_coins: Vec<Coin>,
    output_coins: Vec<Coin>,
    is_genesis: bool,
    coin_proof: Option<CoinReceiptPublicValues>,
    own_nullifier_nonmembership: NonMembershipWitness,
    current_nullifier_root: Fr,
) -> (r: Result<GuestOutput, &'static str>)
    ensures
        ({
            let failure = relations::spend_failure(
                relations::SpendClaim {
                    coin_proof_vkey: coin_proof_vkey@,
                    sk: sk_p@,
                    owner: pk_p@,
                    coin_commitment: coin_commitment@,
                    inputs: tx_star@.input_commitments,
                    outputs: tx_star@.output_commitments,
                    input_coins: input_coins@,
                    output_coins: output_coins@,
                    is_genesis,
                    coin_proof: relations::receipt_view(coin_proof),
                    nonmembership: own_nullifier_nonmembership@,
                    nullifier_root: current_nullifier_root@,
                },
            );
            match r {
                Ok(output) => {
                    &&& failure is None
                    &&& output.committed@ == relations::spend_values_encoding(
                        relations::SpendValuesView {
                            vkey: vkey@,
                            board_root: merkle::path_root(
                                0,
                                entry_position as nat,
                                field::fr_values(append_path@),
                            ),
                            output_commitments: tx_star@.output_commitments,
                            nullifier_root: current_nullifier_root@,
                        },
                    )
                    &&& output.deferred is Some == coin_proof is Some
                    &&& coin_proof is Some ==> output.deferred->0@ == envelope::sha256_digest(
                        relations::receipt_values_encoding(coin_proof->0@),
                    )
                },
                Err(message) => failure == Some(message@),
            }
        }),
{
    let deferred: Option<[u8; 32]> = match &coin_proof {
        Some(receipt) => Some(sha256(receipt.encode().as_slice())),
        None => None,
    };
    match check_spend(
        vkey,
        coin_proof_vkey,
        sk_p,
        pk_p,
        coin_commitment,
        entry_position,
        append_path,
        tx_star,
        input_coins,
        output_coins,
        is_genesis,
        coin_proof,
        own_nullifier_nonmembership,
        current_nullifier_root,
    ) {
        Ok(values) => Ok(GuestOutput { deferred, committed: values.encode() }),
        Err(message) => Err(message),
    }
}

/// The receipt program: a receipt rests on the spend that created the coin, whose proof is
/// checked over the spend's public values.
pub fn receipt_program(
    vkey: [u32; 8],
    owner_pk: OwnerPk,
    coin_commitment: Fr,
    entry_k: BoardEntry,
    received_slot: usize,
    append_path: Vec<Fr>,
    parent_nonmembership: NonMembershipWitness,
    nullifier_root_at_parent_slot: Fr,
    spend_pv: ValidPublicValues,
) -> (r: Result<GuestOutput, &'static str>)
    ensures
        ({
            let failure = relations::receipt_failure(
                coin_commitment@,
                entry_k@,
                parent_nonmembership@,
                nullifier_root_at_parent_slot@,
                spend_pv@.output_commitments,
            );
            match r {
                Ok(output) => {
                    &&& failure is None
                    &&& output.committed@ == relations::receipt_values_encoding(
                        relations::ReceiptValuesView {
                            vkey: vkey@,
                            owner_pk: owner_pk@,
                            coin_commitment: coin_commitment@,
                            board_root: merkle::path_root(
                                board::entry_leaf(received_slot as nat, entry_k@),
                                received_slot as nat,
                                field::fr_values(append_path@),
                            ),
                            received_at: received_slot as nat,
                        },
                    )
                    &&& output.deferred is Some
                    &&& output.deferred->0@ == envelope::sha256_digest(
                        relations::spend_values_encoding(spend_pv@),
                    )
                },
                Err(message) => failure == Some(message@),
            }
        }),
{
    let digest = sha256(spend_pv.encode().as_slice());
    match check_coin_receipt(
        vkey,
        owner_pk,
        coin_commitment,
        entry_k,
        received_slot,
        append_path,
        parent_nonmembership,
        nullifier_root_at_parent_slot,
        spend_pv,
    ) {
        Ok(values) => Ok(GuestOutput { deferred: Some(digest), committed: values.encode() }),
        Err(message) => Err(message),
    }
}

/// Bytes behind their length, in four little-endian bytes.
pub open spec fn framed(bytes: Seq<u8>) -> Seq<u8> {
    codec::le_bytes(bytes.len() % 0x1_0000_0000, 4) + bytes
}

/// Append bytes behind their length.
fn push_framed(out: &mut Vec<u8>, bytes: &[u8])
    ensures
        final(out)@ == old(out)@ + framed(bytes@),
{
    let n: u64 = bytes.len() as u64 % 0x1_0000_0000;
    out.push((n % 256) as u8);
    out.push((n / 256 % 256) as u8);
    out.push((n / 256 / 256 % 256) as u8);
    out.push((n / 256 / 256 / 256 % 256) as u8);
    proof {
        reveal_with_fuel(codec::le_bytes, 5);
        assert(out@ =~= old(out)@ + codec::le_bytes(n as nat, 4));
    }
    push_bytes(out, bytes);
    assert(out@ =~= old(out)@ + framed(bytes@));
}

/// What is left of a failed verification: its inputs, for trying them elsewhere, and a
/// message.
pub struct VerificationFailure {
    pub dump: Vec<u8>,
    pub message: String,
}

/// The inputs of a verification, each behind its length.
pub open spec fn dumped(snark: Seq<u8>, pv_encode: Seq<u8>, vkey_hash: Seq<u8>) -> Seq<u8> {
    framed(snark) + framed(pv_encode) + framed(vkey_hash)
}

/// The message of a failed verification.
pub open spec fn failure_text(
    reason: Seq<char>,
    snark_len: nat,
    pv_len: nat,
    vkey_hash: Seq<char>,
) -> Seq<char> {
    "Groth16 spend proof verification failed: "@ + reason + "  proof_bytes.len()="@
        + report::decimal_text(snark_len) + "  pv_encode.len()="@ + report::decimal_text(pv_len)
        + "  spend_vkey_hash="@ + vkey_hash
}

/// The verification program: it commits to the public values of a spend proof that verifies.
/// A spend without a proof has nothing to verify.
pub fn verification_program(
    spend_proof_bytes: &[u8],
    pv_encode: Vec<u8>,
    spend_vkey_hash: &str,
    outcome: Result<(), &'static str>,
) -> (r: Result<Vec<u8>, VerificationFailure>)
    ensures
        match r {
            Ok(committed) => committed == pv_encode && (spend_proof_bytes@.len() == 0
                || outcome is Ok),
            Err(failure) => {
                &&& spend_proof_bytes@.len() > 0
                &&& outcome is Err
                &&& failure.dump@ == dumped(
                    spend_proof_bytes@,
                    pv_encode@,
                    spend_vkey_hash.spec_bytes(),
                )
                &&& failure.message@ == failure_text(
                    outcome->Err_0@,
                    spend_proof_bytes@.len(),
                    pv_encode@.len(),
                    spend_vkey_hash@,
                )
            },
        },
{
    if spend_proof_bytes.len() == 0 {
        return Ok(pv_encode);
    }
    match outcome {
        Ok(()) => Ok(pv_encode),
        Err(reason) => {
            let mut dump: Vec<u8> = Vec::new();
            push_framed(&mut dump, spend_proof_bytes);
            push_framed(&mut dump, pv_encode.as_slice());
            push_framed(&mut dump, spend_vkey_hash.as_bytes());
            assert(dump@ =~= dumped(
                spend_proof_bytes@,
                pv_encode@,
                spend_vkey_hash.spec_bytes(),
            ));
            let mut message = String::from_str("Groth16 spend proof verification failed: ");
            message.append(reason);
            message.append("  proof_bytes.len()=");
            push_decimal(&mut message, spend_proof_bytes.len() as u128);
            message.append("  pv_encode.len()=");
            push_decimal(&mut message, pv_encode.len() as u128);
            message.append("  spend_vkey_hash=");
            message.append(spend_vkey_hash);
            Err(VerificationFailure { dump, message })
        },
    }
}

/// What the measuring program says of its input, where it does not accept it.
pub open spec fn mnt_test_failure(proof: Seq<u8>, vk: Seq<u8>, input: Seq<u8>) -> Option<
    Seq<char>,
> {
    let outcome = groth16::mnt4_outcome(vk, seq![codec::fr_decoded(input)->0], proof);
    if !groth16::mnt4_proof_decodes(proof) {
        Some("proof deserialize"@)
    } else if !groth16::holds_mnt4_key(vk) {
        Some("vk deserialize"@)
    } else if codec::fr_decoded(input) is None {
        Some("public input deserialize"@)
    } else if outcome is Err {
        Some("verify failed to run"@)
    } else if outcome == Ok::<bool, SynthesisError>(false) {
        Some("MNT4-753 Groth16 proof verification failed inside SP1"@)
    } else {
        None
    }
}

/// The measuring program: it verifies one proof over MNT4-753 with a single public input.
pub fn mnt_test_program(proof_bytes: &[u8], vk_bytes: &[u8], public_input_bytes: &[u8]) -> (r:
    Result<(), &'static str>)
    ensures
        match r {
            Ok(()) => mnt_test_failure(proof_bytes@, vk_bytes@, public_input_bytes@) is None,
            Err(message) => mnt_test_failure(proof_bytes@, vk_bytes@, public_input_bytes@)
                == Some(message@),
        },
{
    if !decodes_proof_mnt4(proof_bytes) {
        return Err("proof deserialize");
    }
    if !is_mnt4_key(vk_bytes) {
        return Err("vk deserialize");
    }
    match decode_fr(public_input_bytes) {
        None => Err("public input deserialize"),
        Some(input) => {
            let inputs: [Fr; 1] = [input];
            assert(field::fr_values(inputs@) =~= seq![input@]);
            match mnt4_verify(vk_bytes, &inputs, proof_bytes) {
                Err(_) => Err("verify failed to run"),
                Ok(valid) => if valid {
                    Ok(())
                } else {
                    Err("MNT4-753 Groth16 proof verification failed inside SP1")
                },
            }
        },
    }
}

/// The spend program accepts what [`check_spend`] accepts, with the same message where it does
/// not, and commits to the encoded values. It defers to the proof of the receipt that it rests
/// on, by the digest of the receipt's encoded values, and to none where there is no receipt.
pub proof fn spend_program_commits_to_checked_values(
    vkey: [u32; 8],
    coin_proof_vkey: [u32; 8],
    sk_p: OwnerScalar,
    pk_p: OwnerPk,
    coin_commitment: Fr,
    entry_position: usize,
    append_path: Vec<Fr>,
    tx_star: Transaction,
    input_coins: Vec<Coin>,
    output_coins: Vec<Coin>,
    is_genesis: bool,
    coin_proof: Option<CoinReceiptPublicValues>,
    own_nullifier_nonmembership: NonMembershipWitness,
    current_nullifier_root: Fr,
    r: Result<GuestOutput, &'static str>,
    checked: Result<ValidPublicValues, &'static str>,
    encoded: Vec<u8>,
    receipt_encoded: Vec<u8>,
)
    requires
        call_ensures(
            spend_program,
            (
                vkey,
                coin_proof_vkey,
                sk_p,
                pk_p,
                coin_commitment,
                entry_position,
                append_path,
                tx_star,
                input_coins,
                output_coins,
                is_genesis,
                coin_proof,
                own_nullifier_nonmembership,
                current_nullifier_root,
            ),
            r,
        ),
        call_ensures(
            check_spend,
            (
                vkey,
                coin_proof_vkey,
                sk_p,
                pk_p,
                coin_commitment,
                entry_position,
                append_path,
                tx_star,
                input_coins,
                output_coins,
                is_genesis,
                coin_proof,
                own_nullifier_nonmembership,
                current_nullifier_root,
            ),
            checked,
        ),
        checked is Ok ==> call_ensures(ValidPublicValues::encode, (&checked->Ok_0,), encoded),
        coin_proof is Some ==> call_ensures(
            CoinReceiptPublicValues::encode,
            (&coin_proof->0,),
            receipt_encoded,
        ),
    ensures
        r is Ok <==> checked is Ok,
        r is Err ==> r->Err_0@ == checked->Err_0@,
        r matches Ok(output) ==> {
            &&& output.committed@ == encoded@
            &&& output.deferred is Some <==> coin_proof is Some
            &&& coin_proof is Some ==> output.deferred->0@ == envelope::sha256_digest(
                receipt_encoded@,
            )
        },
{
}

/// The receipt program accepts what [`check_coin_receipt`] accepts, with the same message where
/// it does not, and commits to the encoded values. It defers to the proof of the spend that
/// created the coin, by the digest of the spend's encoded values.
pub proof fn receipt_program_commits_to_checked_values(
    vkey: [u32; 8],
    owner_pk: OwnerPk,
    coin_commitment: Fr,
    entry_k: BoardEntry,
    received_slot: usize,
    append_path: Vec<Fr>,
    parent_nonmembership: NonMembershipWitness,
    nullifier_root_at_parent_slot: Fr,
    spend_pv: ValidPublicValues,
    r: Result<GuestOutput, &'static str>,
    checked: Result<CoinReceiptPublicValues, &'static str>,
    encoded: Vec<u8>,
    spend_encoded: Vec<u8>,
)
    requires
        call_ensures(
            receipt_program,
            (
                vkey,
                owner_pk,
                coin_commitment,
                entry_k,
                received_slot,
                append_path,
                parent_nonmembership,
                nullifier_root_at_parent_slot,
                spend_pv,
            ),
            r,
        ),
        call_ensures(
            check_coin_receipt,
            (
                vkey,
                owner_pk,
                coin_commitment,
                entry_k,
                received_slot,
                append_path,
                parent_nonmembership,
                nullifier_root_at_parent_slot,
                spend_pv,
            ),
            checked,
        ),
        checked is Ok ==> call_ensures(
            CoinReceiptPublicValues::encode,
            (&checked->Ok_0,),
            encoded,
        ),
        call_ensures(ValidPublicValues::encode, (&spend_pv,), spend_encoded),
    ensures
        r is Ok <==> checked is Ok,
        r is Err ==> r->Err_0@ == checked->Err_0@,
        r matches Ok(output) ==> {
            &&& output.committed@ == encoded@
            &&& output.deferred is Some
            &&& output.deferred->0@ == envelope::sha256_digest(spend_encoded@)
        },
{
}

/// The verification program commits to the public values, unchanged, if and only if there is no
/// proof or the proof verified. Else it leaves its three inputs, each behind four bytes with
/// its length, and a message with the reason, the lengths and the key hash.
pub proof fn verification_program_commits_to_verified_values(
    spend_proof_bytes: &[u8],
    pv_encode: Vec<u8>,
    spend_vkey_hash: &str,
    outcome: Result<(), &'static str>,
    r: Result<Vec<u8>, VerificationFailure>,
)
    requires
        call_ensures(
            verification_program,
            (spend_proof_bytes, pv_encode, spend_vkey_hash, outcome),
            r,
        ),
        spend_proof_bytes@.len() < 0x1_0000_0000,
        pv_encode@.len() < 0x1_0000_0000,
    ensures
        r is Ok <==> spend_proof_bytes@.len() == 0 || outcome is Ok,
        r matches Ok(committed) ==> committed@ == pv_encode@,
        r matches Err(failure) ==> {
            let dump = failure.dump@;
            let n = spend_proof_bytes@.len() as int;
            let m = pv_encode@.len() as int;
            &&& dump.len() == 12 + n + m + spend_vkey_hash.spec_bytes().len()
            &&& field::bytes_value(dump.subrange(0, 4)) == n
            &&& dump.subrange(4, 4 + n) == spend_proof_bytes@
            &&& field::bytes_value(dump.subrange(4 + n, 8 + n)) == m
            &&& dump.subrange(8 + n, 8 + n + m) == pv_encode@
            &&& dump.skip(12 + n + m) == spend_vkey_hash.spec_bytes()
            &&& failure.message@ == "Groth16 spend proof verification failed: "@ + outcome->Err_0@
                + "  proof_bytes.len()="@ + report::decimal_text(n as nat) + "  pv_encode.len()="@
                + report::decimal_text(m as nat) + "  spend_vkey_hash="@ + spend_vkey_hash@
        },
{
    if let Err(failure) = r {
        let dump = failure.dump@;
        let a = spend_proof_bytes@;
        let b = pv_encode@;
        let c = spend_vkey_hash.spec_bytes();
        vstd::arithmetic::power2::lemma2_to64();
        codec::lemma_le_bytes_value(a.len(), 4);
        codec::lemma_le_bytes_value(b.len(), 4);
        codec::lemma_le_bytes_len(c.len() % 0x1_0000_0000, 4);
        assert(dump == framed(a) + framed(b) + framed(c));
        let n = a.len() as int;
        let m = b.len() as int;
        assert(dump.subrange(0, 4) =~= codec::le_bytes(a.len(), 4));
        assert(dump.subrange(4, 4 + n) =~= a);
        assert(dump.subrange(4 + n, 8 + n) =~= codec::le_bytes(b.len(), 4));
        assert(dump.subrange(8 + n, 8 + n + m) =~= b);
        assert(dump.skip(12 + n + m) =~= c);
    }
}

/// The measuring program accepts a proof if and only if proof, key and public input decode and
/// the proof verifies for this input.
pub proof fn measuring_program_accepts_verified_proofs(
    proof_bytes: &[u8],
    vk_bytes: &[u8],
    public_input_bytes: &[u8],
    r: Result<(), &'static str>,
    input: Fr,
    inputs: &[Fr],
    verified: Result<bool, SynthesisError>,
)
    requires
        call_ensures(mnt_test_program, (proof_bytes, vk_bytes, public_input_bytes), r),
        codec::fr_decoded(public_input_bytes@) is Some ==> codec::fr_decoded(public_input_bytes@)
            == Some(input@),
        inputs@ == seq![input],
        call_ensures(mnt4_verify, (vk_bytes, inputs, proof_bytes), verified),
    ensures
        r is Ok <==> codec::fr_decoded(public_input_bytes@) is Some && verified == Ok::<
            bool,
            SynthesisError,
        >(true),
        codec::fr_decoded(public_input_bytes@) is Some && verified == Ok::<bool, SynthesisError>(
            false,
        ) ==> r->Err_0@ == "MNT4-753 Groth16 proof verification failed inside SP1"@,
{
    assert(field::fr_values(inputs@) =~= seq![input@]);
}

/// The measuring program looks at the proof first, then at the key, then at the public input,
/// and tells the first that does not decode; then it tells that the verification did not run.
pub proof fn measuring_program_tells_the_first_failure(
    proof_bytes: &[u8],
    vk_bytes: &[u8],
    public_input_bytes: &[u8],
    r: Result<(), &'static str>,
    is_key: bool,
)
    requires
        call_ensures(mnt_test_program, (proof_bytes, vk_bytes, public_input_bytes), r),
        call_ensures(is_mnt4_key, (vk_bytes,), is_key),
    ensures
        ({
            let proven = groth16::mnt4_proof_decodes(proof_bytes@);
            let keyed = proven && is_key;
            let given = keyed && codec::fr_decoded(public_input_bytes@) is Some;
            &&& !proven ==> r->Err_0@ == "proof deserialize"@
            &&& proven && !keyed ==> r->Err_0@ == "vk deserialize"@
            &&& keyed && !given ==> r->Err_0@ == "public input deserialize"@
            &&& given && groth16::mnt4_outcome(
                vk_bytes@,
                seq![codec::fr_decoded(public_input_bytes@)->0],
                proof_bytes@,
            ) is Err ==> r->Err_0@ == "verify failed to run"@
        }),
{
}

} // verus!
