//! What the verification of an SP1 spend proof prepares for the pairing check, and what
//! it makes of the check's outcome.
//!
//! The key file holds 492 bytes and no commitment key, while the parser of the pairing
//! check reads 128 bytes of commitment key behind the real content. The key is therefore
//! padded, right behind its real content, with two copies of a well-formed point that is
//! never used.

use vstd::prelude::*;
use vstd::string::*;
use crate::bn254;
use crate::bn254::{scalar_from_slice, ScalarElement};
use crate::envelope;
use crate::sp1_groth16;
use crate::sp1_groth16::{
    hash_public_inputs, is_key_in_group, load_proof, load_vk, to_fr, verify_algebraic, Groth16Error,
};

verus! {

/// Where the proof itself begins.
pub const GNARK_PROOF_OFFSET: usize = 100;

/// Number of bytes of the proof itself.
pub const GNARK_PROOF_LEN: usize = 256;

/// Number of bytes of the key file.
pub const VK_LEN: usize = 492;

/// Number of bytes of the padded key.
pub const VK_PADDED_LEN: usize = 620;

/// Number of bytes of the real content of a key: the fixed points, the announced list of
/// points between its two counts.
pub open spec fn content_len(vk: Seq<u8>) -> nat {
    296 + 32 * bn254::be_value(vk.subrange(288, 292))
}

/// Number of bytes of a key's real content.
pub fn real_vk_content_len(vk: &[u8]) -> (r: usize)
    requires
        vk@.len() >= 292,
        content_len(vk@) <= usize::MAX,
    ensures
        r == content_len(vk@),
{
    let count = vstd::slice::slice_subrange(vk, 288, 292);
    proof {
        reveal_with_fuel(bn254::be_value, 5);
        assert(count@.drop_last().drop_last().drop_last().drop_last().len() == 0);
        assert(bn254::be_value(count@) == ((count@[0] * 256 + count@[1]) * 256 + count@[2]) * 256
            + count@[3]);
    }
    let num_k: usize = ((count[0] as usize * 256 + count[1] as usize) * 256 + count[2] as usize)
        * 256 + count[3] as usize;
    288 + 4 + 32 * num_k + 4
}

/// A key padded behind its real content with its second-group point at 128, twice.
pub open spec fn padded(vk: Seq<u8>) -> Seq<u8> {
    let n = content_len(vk) as int;
    Seq::new(
        620,
        |i: int|
            if i < n {
                vk[i]
            } else if i < n + 64 {
                vk[128 + i - n]
            } else if i < n + 128 {
                vk[128 + i - n - 64]
            } else {
                0u8
            },
    )
}

/// Pad a key. Its real content must leave room for the padding.
pub fn build_padded_vk(vk: &[u8]) -> (out: [u8; 620])
    requires
        292 <= vk@.len(),
        content_len(vk@) <= VK_LEN,
        content_len(vk@) <= vk@.len(),
    ensures
        out@ == padded(vk@),
{
    let n = real_vk_content_len(vk);
    let mut out: [u8; 620] = [0u8; 620];
    let mut i: usize = 0;
    while i < n + 128
        invariant
            n == content_len(vk@),
            296 <= n <= 492,
            n <= vk@.len(),
            i <= n + 128,
            forall|j: int| 0 <= j < i ==> out@[j] == padded(vk@)[j],
            forall|j: int| i <= j < 620 ==> out@[j] == 0,
        decreases n + 128 - i,
    {
        out[i] = if i < n {
            vk[i]
        } else if i < n + 64 {
            vk[128 + (i - n)]
        } else {
            vk[128 + (i - n - 64)]
        };
        i += 1;
    }
    assert(out@ =~= padded(vk@));
    out
}

/// The value of a hexadecimal digit.
pub open spec fn digit_value(b: u8) -> Option<u8> {
    if 48 <= b <= 57 {
        Some((b - 48) as u8)
    } else if 97 <= b <= 102 {
        Some((b - 87) as u8)
    } else if 65 <= b <= 70 {
        Some((b - 55) as u8)
    } else {
        None
    }
}

/// The value of a hexadecimal digit.
pub fn nibble(b: u8) -> (r: Result<u8, &'static str>)
    ensures
        match r {
            Ok(v) => digit_value(b) == Some(v),
            Err(message) => digit_value(b) is None && message@
                == "invalid hex char in vkey hash"@,
        },
{
    if 48 <= b && b <= 57 {
        Ok(b - 48)
    } else if 97 <= b && b <= 102 {
        Ok(b - 97 + 10)
    } else if 65 <= b && b <= 70 {
        Ok(b - 65 + 10)
    } else {
        Err("invalid hex char in vkey hash")
    }
}

/// The digits of a hexadecimal text: what follows `0x` or `0X`, where it has either.
pub open spec fn hex_digits(text: Seq<u8>) -> Seq<u8> {
    if text.len() >= 2 && text[0] == 48 && (text[1] == 120 || text[1] == 88) {
        text.skip(2)
    } else {
        text
    }
}

/// All of these are hexadecimal digits.
pub open spec fn all_digits(digits: Seq<u8>) -> bool {
    forall|i: int| 0 <= i < digits.len() ==> digit_value(#[trigger] digits[i]) is Some
}

/// The bytes that pairs of hexadecimal digits write.
pub open spec fn hex_bytes(digits: Seq<u8>) -> Seq<u8> {
    Seq::new(
        digits.len() / 2,
        |i: int| (digit_value(digits[2 * i])->0 * 16 + digit_value(digits[2 * i + 1])->0) as u8,
    )
}

/// What a text says as 32 hexadecimal bytes.
pub open spec fn hex32_outcome(text: Seq<u8>) -> Result<Seq<u8>, Seq<char>> {
    if hex_digits(text).len() != 64 {
        Err("vkey hash must be exactly 64 hex chars"@)
    } else if !all_digits(hex_digits(text)) {
        Err("invalid hex char in vkey hash"@)
    } else {
        Ok(hex_bytes(hex_digits(text)))
    }
}

/// Decode 32 bytes from a hexadecimal text, with or without a `0x` in front.
pub fn decode_hex32(s: &str) -> (r: Result<[u8; 32], &'static str>)
    ensures
        match r {
            Ok(bytes) => hex32_outcome(s.spec_bytes()) == Ok::<Seq<u8>, Seq<char>>(bytes@),
            Err(message) => hex32_outcome(s.spec_bytes()) == Err::<Seq<u8>, Seq<char>>(message@),
        },
{
    let text = s.as_bytes();
    let start: usize = if text.len() >= 2 && text[0] == 48 && (text[1] == 120 || text[1] == 88) {
        2
    } else {
        0
    };
    let ghost digits = hex_digits(text@);
    assert(digits =~= text@.skip(start as int));
    if text.len() - start != 64 {
        return Err("vkey hash must be exactly 64 hex chars");
    }
    let mut out: [u8; 32] = [0u8; 32];
    let mut i: usize = 0;
    while i < 32
        invariant
            i <= 32,
            start <= 2,
            text@.len() == start + 64,
            text@ == s.spec_bytes(),
            digits == text@.skip(start as int),
            digits == hex_digits(text@),
            forall|j: int| 0 <= j < 2 * i ==> digit_value(#[trigger] digits[j]) is Some,
            forall|j: int| 0 <= j < i ==> out@[j] == hex_bytes(digits)[j],
        decreases 32 - i,
    {
        let high = match nibble(text[start + 2 * i]) {
            Ok(v) => v,
            Err(message) => {
                assert(digit_value(digits[2 * i as int]) is None);
                return Err(message);
            },
        };
        let low = match nibble(text[start + 2 * i + 1]) {
            Ok(v) => v,
            Err(message) => {
                assert(digit_value(digits[2 * i + 1]) is None);
                return Err(message);
            },
        };
        proof {
            assert(digits[2 * i as int] == text@[start + 2 * i]);
            assert(digits[2 * i + 1] == text@[start + 2 * i + 1]);
            assert((high << 4) | low == high * 16 + low) by (bit_vector)
                requires
                    high < 16,
                    low < 16,
            ;
            assert(high < 16 && low < 16);
        }
        out[i] = (high << 4) | low;
        i += 1;
    }
    assert(out@ =~= hex_bytes(digits));
    Ok(out)
}

/// The verdict on a proof, from the outcome of the pairing check.
pub open spec fn verdict(outcome: Result<bool, ()>) -> Result<(), Seq<char>> {
    match outcome {
        Ok(true) => Ok(()),
        Ok(false) => Err("Groth16 verification returned false"@),
        Err(_) => Err("Groth16 pairing check failed"@),
    }
}

/// The verdict on a proof, from the outcome of the pairing check.
pub fn spend_proof_verdict(outcome: Result<bool, ()>) -> (r: Result<(), &'static str>)
    ensures
        match r {
            Ok(()) => verdict(outcome) == Ok::<(), Seq<char>>(()),
            Err(message) => verdict(outcome) == Err::<(), Seq<char>>(message@),
        },
{
    match outcome {
        Ok(true) => Ok(()),
        Ok(false) => Err("Groth16 verification returned false"),
        Err(_) => Err("Groth16 pairing check failed"),
    }
}

/// What is wrong with a spend proof before any pairing is checked, if anything.
pub open spec fn preparation_failure(proof_bytes: Seq<u8>, vkey_hash: Seq<u8>) -> Option<Seq<char>> {
    if proof_bytes.len() < GNARK_PROOF_OFFSET + GNARK_PROOF_LEN {
        Some("proof bytes too short"@)
    } else {
        match hex32_outcome(vkey_hash) {
            Err(message) => Some(message),
            Ok(_) => None,
        }
    }
}

/// What the pairing check gets to see: the proof itself, the padded key and the five
/// public inputs.
pub struct PreparedSpendProof {
    pub gnark_bytes: Vec<u8>,
    pub padded_vk: [u8; 620],
    pub inputs: [ScalarElement; 5],
}

/// What a [`PreparedSpendProof`] holds.
#[verifier::ext_equal]
pub struct PreparedView {
    pub gnark_bytes: Seq<u8>,
    pub padded_vk: Seq<u8>,
    pub inputs: Seq<nat>,
}

impl View for PreparedSpendProof {
    type V = PreparedView;

    open spec fn view(&self) -> PreparedView {
        PreparedView {
            gnark_bytes: self.gnark_bytes@,
            padded_vk: self.padded_vk@,
            inputs: sp1_groth16::scalar_values(self.inputs@),
        }
    }
}

/// What the pairing check gets to see of a spend proof.
pub open spec fn prepared_for(
    vk: Seq<u8>,
    proof_bytes: Seq<u8>,
    pv_encode: Seq<u8>,
    vkey_hash: Seq<u8>,
) -> PreparedView {
    PreparedView {
        gnark_bytes: proof_bytes.subrange(100, 356),
        padded_vk: padded(vk),
        inputs: sp1_groth16::circuit_inputs(
            proof_bytes,
            sp1_groth16::masked(envelope::sha256_digest(pv_encode)),
            hex_bytes(hex_digits(vkey_hash)),
        ),
    }
}

/// Prepare the verification of an SP1 spend proof: `proof_bytes` as the prover gives
/// them, the encoded public values, and the program's key hash as hexadecimal text. The
/// real content of the key must leave room for the padding.
pub fn prepare_spend_proof(
    vk: &[u8],
    proof_bytes: &[u8],
    pv_encode: &[u8],
    vkey_hash: &str,
) -> (r: Result<PreparedSpendProof, &'static str>)
    requires
        292 <= vk@.len(),
        content_len(vk@) <= VK_LEN,
        content_len(vk@) <= vk@.len(),
    ensures
        match r {
            Err(message) => preparation_failure(proof_bytes@, vkey_hash.spec_bytes()) == Some(
                message@,
            ),
            Ok(prepared) => {
                &&& preparation_failure(proof_bytes@, vkey_hash.spec_bytes()) is None
                &&& prepared@ == prepared_for(
                    vk@,
                    proof_bytes@,
                    pv_encode@,
                    vkey_hash.spec_bytes(),
                )
            },
        },
{
    if proof_bytes.len() < GNARK_PROOF_OFFSET + GNARK_PROOF_LEN {
        return Err("proof bytes too short");
    }
    let vkey_bytes = match decode_hex32(vkey_hash) {
        Ok(bytes) => bytes,
        Err(message) => {
            return Err(message);
        },
    };
    let pv_hash = hash_public_inputs(pv_encode);
    let inputs = [
        to_fr(&vkey_bytes),
        to_fr(&pv_hash),
        scalar_from_slice(vstd::slice::slice_subrange(proof_bytes, 4, 36)),
        scalar_from_slice(vstd::slice::slice_subrange(proof_bytes, 36, 68)),
        scalar_from_slice(vstd::slice::slice_subrange(proof_bytes, 68, 100)),
    ];
    assert(sp1_groth16::scalar_values(inputs@) =~= sp1_groth16::circuit_inputs(
        proof_bytes@,
        pv_hash@,
        vkey_bytes@,
    ));
    let mut gnark_bytes: Vec<u8> = Vec::new();
    let mut i: usize = 100;
    while i < 356
        invariant
            100 <= i <= 356 <= proof_bytes@.len(),
            gnark_bytes@ == proof_bytes@.subrange(100, i as int),
        decreases 356 - i,
    {
        gnark_bytes.push(proof_bytes[i]);
        i += 1;
        assert(gnark_bytes@ =~= proof_bytes@.subrange(100, i as int));
    }
    let prepared = PreparedSpendProof { gnark_bytes, padded_vk: build_padded_vk(vk), inputs };
    assert(prepared@ =~= prepared_for(vk@, proof_bytes@, pv_encode@, vkey_hash.spec_bytes()));
    Ok(prepared)
}

/// The outcome of a verification, with its message.
pub open spec fn with_message(r: Result<(), &'static str>) -> Result<(), Seq<char>> {
    match r {
        Ok(()) => Ok(()),
        Err(message) => Err(message@),
    }
}

/// What a verification with the given pairing check can come to.
pub open spec fn can_come_to<V: Fn(PreparedSpendProof) -> Result<bool, ()>>(
    vk: Seq<u8>,
    proof_bytes: Seq<u8>,
    pv_encode: Seq<u8>,
    vkey_hash: Seq<u8>,
    pairing_check: V,
    r: Result<(), Seq<char>>,
) -> bool {
    match preparation_failure(proof_bytes, vkey_hash) {
        Some(message) => r == Err::<(), Seq<char>>(message),
        None => exists|prepared: PreparedSpendProof, outcome: Result<bool, ()>|
            {
                &&& #[trigger] call_ensures(pairing_check, (prepared,), outcome)
                &&& prepared@ == prepared_for(vk, proof_bytes, pv_encode, vkey_hash)
                &&& r == verdict(outcome)
            },
    }
}

/// Verify an SP1 spend proof, with the given pairing check: prepare it, check the
/// pairing, and say what came of it.
pub fn verify_sp1_spend_proof<V: Fn(PreparedSpendProof) -> Result<bool, ()>>(
    vk: &[u8],
    proof_bytes: &[u8],
    pv_encode: &[u8],
    vkey_hash: &str,
    pairing_check: V,
) -> (r: Result<(), &'static str>)
    requires
        292 <= vk@.len(),
        content_len(vk@) <= VK_LEN,
        content_len(vk@) <= vk@.len(),
        forall|prepared: PreparedSpendProof| call_requires(pairing_check, (prepared,)),
    ensures
        can_come_to(
            vk@,
            proof_bytes@,
            pv_encode@,
            vkey_hash.spec_bytes(),
            pairing_check,
            with_message(r),
        ),
{
    match prepare_spend_proof(vk, proof_bytes, pv_encode, vkey_hash) {
        Err(message) => Err(message),
        Ok(prepared) => {
            let outcome = pairing_check(prepared);
            spend_proof_verdict(outcome)
        },
    }
}

/// What the verification equation says of a prepared proof: it holds, it does not, or there
/// is no key, no proof, or not one input for each point of the key but the first.
pub open spec fn pairing_outcome(prepared: PreparedView) -> Result<bool, ()> {
    if !sp1_groth16::holds_key(prepared.padded_vk) {
        Err(())
    } else {
        let vk = sp1_groth16::held_key(prepared.padded_vk);
        match sp1_groth16::proof_outcome(prepared.gnark_bytes) {
            Err(_) => Err(()),
            Ok(_) if !sp1_groth16::key_in_group(vk) => Err(()),
            Ok(parsed) => match sp1_groth16::algebraic_outcome(vk, parsed, prepared.inputs) {
                Ok(()) => Ok(true),
                Err(Groth16Error::ProofVerificationFailed) => Ok(false),
                Err(_) => Err(()),
            },
        }
    }
}

/// Check the verification equation of a prepared proof.
pub fn check_pairing(prepared: PreparedSpendProof) -> (r: Result<bool, ()>)
    ensures
        r == pairing_outcome(prepared@),
{
    let vk = match load_vk(&prepared.padded_vk) {
        Ok(vk) => vk,
        Err(_) => {
            return Err(());
        },
    };
    let parsed = match load_proof(prepared.gnark_bytes.as_slice()) {
        Ok(parsed) => parsed,
        Err(_) => {
            return Err(());
        },
    };
    if !is_key_in_group(&vk) {
        return Err(());
    }
    match verify_algebraic(&vk, &parsed, &prepared.inputs) {
        Ok(()) => Ok(true),
        Err(Groth16Error::ProofVerificationFailed) => Ok(false),
        Err(_) => Err(()),
    }
}

/// What the verification of an SP1 spend proof by the verification equation comes to.
pub open spec fn spend_proof_outcome(
    vk: Seq<u8>,
    proof_bytes: Seq<u8>,
    pv_encode: Seq<u8>,
    vkey_hash: Seq<u8>,
) -> Result<(), Seq<char>> {
    match preparation_failure(proof_bytes, vkey_hash) {
        Some(message) => Err(message),
        None => verdict(pairing_outcome(prepared_for(vk, proof_bytes, pv_encode, vkey_hash))),
    }
}

/// Verify an SP1 spend proof by the verification equation.
pub fn verify_sp1_spend_proof_by_equation(
    vk: &[u8],
    proof_bytes: &[u8],
    pv_encode: &[u8],
    vkey_hash: &str,
) -> (r: Result<(), &'static str>)
    requires
        292 <= vk@.len(),
        content_len(vk@) <= VK_LEN,
        content_len(vk@) <= vk@.len(),
    ensures
        with_message(r) == spend_proof_outcome(
            vk@,
            proof_bytes@,
            pv_encode@,
            vkey_hash.spec_bytes(),
        ),
{
    verify_sp1_spend_proof(vk, proof_bytes, pv_encode, vkey_hash, check_pairing)
}

/// The outcome of a pairing check depends on what it gets to see alone.
pub open spec fn is_deterministic<V: Fn(PreparedSpendProof) -> Result<bool, ()>>(
    pairing_check: V,
) -> bool {
    forall|a: PreparedSpendProof, b: PreparedSpendProof, x: Result<bool, ()>, y: Result<bool, ()>|
        a@ == b@ && #[trigger] call_ensures(pairing_check, (a,), x) && #[trigger] call_ensures(
            pairing_check,
            (b,),
            y,
        ) ==> x == y
}

/// Of the bytes of a proof only those from 4 to 356 count: two proofs that agree there are
/// prepared alike, and verified alike by every pairing check that goes by what it sees, the
/// verification equation among them.
pub proof fn bytes_outside_the_proof_do_not_count<
    V: Fn(PreparedSpendProof) -> Result<bool, ()>,
>(
    vk: Seq<u8>,
    p: Seq<u8>,
    q: Seq<u8>,
    pv_encode: Seq<u8>,
    vkey_hash: Seq<u8>,
    pairing_check: V,
    r: Result<(), Seq<char>>,
    s: Result<(), Seq<char>>,
)
    requires
        p.len() >= 356,
        q.len() >= 356,
        p.subrange(4, 356) == q.subrange(4, 356),
    ensures
        preparation_failure(p, vkey_hash) == preparation_failure(q, vkey_hash),
        prepared_for(vk, p, pv_encode, vkey_hash) == prepared_for(vk, q, pv_encode, vkey_hash),
        spend_proof_outcome(vk, p, pv_encode, vkey_hash) == spend_proof_outcome(
            vk,
            q,
            pv_encode,
            vkey_hash,
        ),
        is_deterministic(pairing_check) && can_come_to(
            vk,
            p,
            pv_encode,
            vkey_hash,
            pairing_check,
            r,
        ) && can_come_to(vk, q, pv_encode, vkey_hash, pairing_check, s) ==> r == s,
{
    let both = p.subrange(4, 356);
    assert(p.subrange(4, 36) =~= both.subrange(0, 32));
    assert(q.subrange(4, 36) =~= both.subrange(0, 32));
    assert(p.subrange(36, 68) =~= both.subrange(32, 64));
    assert(q.subrange(36, 68) =~= both.subrange(32, 64));
    assert(p.subrange(68, 100) =~= both.subrange(64, 96));
    assert(q.subrange(68, 100) =~= both.subrange(64, 96));
    assert(p.subrange(100, 356) =~= both.subrange(96, 352));
    assert(q.subrange(100, 356) =~= both.subrange(96, 352));
}

/// The length of a proof is looked at first: a short one fails for it, whatever the key hash
/// is. Of a long enough one, the message of a malformed key hash is passed on.
pub proof fn failures_come_in_order<V: Fn(PreparedSpendProof) -> Result<bool, ()>>(
    vk: Seq<u8>,
    proof_bytes: Seq<u8>,
    pv_encode: Seq<u8>,
    vkey_hash: Seq<u8>,
    pairing_check: V,
    r: Result<(), Seq<char>>,
)
    requires
        can_come_to(vk, proof_bytes, pv_encode, vkey_hash, pairing_check, r),
    ensures
        proof_bytes.len() < 356 ==> r == Err::<(), Seq<char>>("proof bytes too short"@) && r
            == spend_proof_outcome(vk, proof_bytes, pv_encode, vkey_hash),
        proof_bytes.len() >= 356 && hex32_outcome(vkey_hash) is Err ==> r == Err::<(), Seq<char>>(
            hex32_outcome(vkey_hash)->Err_0,
        ) && r == spend_proof_outcome(vk, proof_bytes, pv_encode, vkey_hash),
{
}

/// A hexadecimal digit is `0` to `9`, `a` to `f` or `A` to `F`, and stands for 0 to 15 in that
/// order.
pub proof fn digits_stand_for_sixteen_values(b: u8, r: Result<u8, &'static str>)
    requires
        call_ensures(nibble, (b,), r),
    ensures
        r is Ok <==> 48 <= b <= 57 || 97 <= b <= 102 || 65 <= b <= 70,
        r matches Ok(v) ==> v < 16,
        48 <= b <= 57 ==> r->Ok_0 + 48 == b,
        97 <= b <= 102 ==> r->Ok_0 + 87 == b,
        65 <= b <= 70 ==> r->Ok_0 + 55 == b,
{
}

/// A text of 64 digits, with `0x` or `0X` in front or not, is decoded digit by digit: each byte
/// is 16 times its first digit and its second one. Every other text is refused: for its length
/// first, then for a character that is no digit.
pub proof fn hex_is_decoded_digit_by_digit(s: &str, r: Result<[u8; 32], &'static str>, i: int)
    requires
        call_ensures(decode_hex32, (s,), r),
    ensures
        ({
            let text = s.spec_bytes();
            let prefixed = text.len() >= 2 && text[0] == 48 && (text[1] == 120 || text[1] == 88);
            let start = if prefixed {
                2int
            } else {
                0int
            };
            &&& r is Ok <==> text.len() == start + 64 && forall|k: int|
                start <= k < text.len() ==> 48 <= #[trigger] text[k] <= 57 || 97 <= text[k] <= 102
                    || 65 <= text[k] <= 70
            &&& r matches Ok(bytes) ==> (0 <= i < 32 ==> {
                &&& digit_value(text[start + 2 * i]) is Some
                &&& digit_value(text[start + 2 * i + 1]) is Some
                &&& bytes@[i] == 16 * digit_value(text[start + 2 * i])->0 + digit_value(
                    text[start + 2 * i + 1],
                )->0
            })
            &&& text.len() != start + 64 ==> r->Err_0@ == "vkey hash must be exactly 64 hex chars"@
            &&& text.len() == start + 64 && r is Err ==> r->Err_0@
                == "invalid hex char in vkey hash"@
        }),
{
    let text = s.spec_bytes();
    let digits = hex_digits(text);
    let prefixed = text.len() >= 2 && text[0] == 48 && (text[1] == 120 || text[1] == 88);
    let start = if prefixed {
        2int
    } else {
        0int
    };
    assert(digits =~= text.skip(start));
    if text.len() == start + 64 {
        if forall|k: int|
            start <= k < text.len() ==> 48 <= #[trigger] text[k] <= 57 || 97 <= text[k] <= 102
                || 65 <= text[k] <= 70 {
            assert forall|k: int| 0 <= k < digits.len() implies digit_value(
                #[trigger] digits[k],
            ) is Some by {
                assert(digits[k] == text[start + k]);
            }
        }
        if all_digits(digits) {
            assert forall|k: int| start <= k < text.len() implies 48 <= #[trigger] text[k] <= 57
                || 97 <= text[k] <= 102 || 65 <= text[k] <= 70 by {
                assert(digit_value(digits[k - start]) is Some);
            }
        }
    }
    if r is Ok && 0 <= i < 32 {
        assert(digits[2 * i] == text[start + 2 * i]);
        assert(digits[2 * i + 1] == text[start + 2 * i + 1]);
        assert(digit_value(digits[2 * i]) is Some && digit_value(digits[2 * i + 1]) is Some);
        let high = digit_value(digits[2 * i])->0;
        let low = digit_value(digits[2 * i + 1])->0;
        assert(high < 16 && low < 16);
        assert(hex_bytes(digits)[i] == (high * 16 + low) as u8);
    }
}

/// A padded key begins with the key's content, goes on with two copies of its third point, and
/// ends in zeros.
pub proof fn padding_keeps_the_content(vk: &[u8], out: [u8; 620], n: usize, i: int)
    requires
        call_ensures(build_padded_vk, (vk,), out),
        call_ensures(real_vk_content_len, (vk,), n),
        292 <= vk@.len(),
        0 <= i < 620,
        n <= 492,
    ensures
        n == 288 + 4 + 32 * bn254::be_value(vk@.subrange(288, 292)) + 4,
        i < n ==> out@[i] == vk@[i],
        n <= i < n + 64 ==> out@[i] == vk@.subrange(128, 192)[i - n],
        n + 64 <= i < n + 128 ==> out@[i] == vk@.subrange(128, 192)[i - n - 64],
        n + 128 <= i ==> out@[i] == 0,
{
}

/// Padding does not change the key that is read.
pub proof fn padding_does_not_change_the_key(
    vk: &[u8],
    out: [u8; 620],
    padded_bytes: &[u8],
    before: Result<sp1_groth16::Groth16VerifyingKey, Groth16Error>,
    after: Result<sp1_groth16::Groth16VerifyingKey, Groth16Error>,
)
    requires
        292 <= vk@.len(),
        content_len(vk@) <= VK_LEN,
        content_len(vk@) <= vk@.len(),
        call_ensures(build_padded_vk, (vk,), out),
        padded_bytes@ == out@,
        call_ensures(load_vk, (vk,), before),
        call_ensures(load_vk, (padded_bytes,), after),
    ensures
        before is Ok <==> after is Ok,
        before is Ok ==> before->Ok_0@ == after->Ok_0@,
{
    let a = vk@;
    let b = out@;
    assert forall|from: int, to: int|
        #![trigger a.subrange(from, to), b.subrange(from, to)]
        0 <= from <= to <= content_len(a) implies a.subrange(from, to) == b.subrange(from, to) by {
        assert(a.subrange(from, to) =~= b.subrange(from, to));
    }
    assert(a.subrange(288, 292) == b.subrange(288, 292));
    assert(a.subrange(0, 32) == b.subrange(0, 32));
    assert(a.subrange(64, 128) == b.subrange(64, 128));
    assert(a.subrange(128, 192) == b.subrange(128, 192));
    assert(a.subrange(224, 288) == b.subrange(224, 288));
    assert forall|i: int| 0 <= i < sp1_groth16::announced_k(a) implies #[trigger]
        sp1_groth16::k_bytes(a, i) == sp1_groth16::k_bytes(b, i) by {
        assert(a.subrange(292 + 32 * i, 324 + 32 * i) == b.subrange(292 + 32 * i, 324 + 32 * i));
    }
    if sp1_groth16::holds_key(a) {
        assert forall|i: int| 0 <= i < sp1_groth16::announced_k(b) implies
            sp1_groth16::compressed_g1_outcome(#[trigger] sp1_groth16::k_bytes(b, i)) is Ok by {
            assert(sp1_groth16::k_bytes(a, i) == sp1_groth16::k_bytes(b, i));
        }
    }
    if sp1_groth16::holds_key(b) {
        assert forall|i: int| 0 <= i < sp1_groth16::announced_k(a) implies
            sp1_groth16::compressed_g1_outcome(#[trigger] sp1_groth16::k_bytes(a, i)) is Ok by {
            assert(sp1_groth16::k_bytes(a, i) == sp1_groth16::k_bytes(b, i));
        }
    }
    assert(sp1_groth16::held_key(a).k =~= sp1_groth16::held_key(b).k) by {
        assert forall|i: int| 0 <= i < sp1_groth16::announced_k(a) implies
            sp1_groth16::held_key(a).k[i] == sp1_groth16::held_key(b).k[i] by {
            assert(sp1_groth16::k_bytes(a, i) == sp1_groth16::k_bytes(b, i));
        }
    }
}

/// The five public inputs of a prepared proof are the program's key hash, the digest of the
/// public values, and the exit code, the key root and the nonce of the proof's header; and the
/// proof itself is the 256 bytes behind the header.
pub proof fn prepared_inputs_come_from_their_places(
    vk: &[u8],
    proof_bytes: &[u8],
    pv_encode: &[u8],
    vkey_hash: &str,
    r: Result<PreparedSpendProof, &'static str>,
    hash: Result<[u8; 32], &'static str>,
    digest: [u8; 32],
)
    requires
        292 <= vk@.len(),
        content_len(vk@) <= VK_LEN,
        content_len(vk@) <= vk@.len(),
        call_ensures(prepare_spend_proof, (vk, proof_bytes, pv_encode, vkey_hash), r),
        call_ensures(decode_hex32, (vkey_hash,), hash),
        call_ensures(hash_public_inputs, (pv_encode,), digest),
    ensures
        r is Ok <==> proof_bytes@.len() >= 356 && hash is Ok,
        proof_bytes@.len() < 356 ==> r->Err_0@ == "proof bytes too short"@,
        proof_bytes@.len() >= 356 && hash is Err ==> r->Err_0@ == hash->Err_0@,
        r matches Ok(prepared) ==> {
            let m = bn254::scalar_modulus();
            &&& prepared.inputs@[0]@ == bn254::be_value(hash->Ok_0@) % m
            &&& prepared.inputs@[1]@ == bn254::be_value(digest@) % m
            &&& prepared.inputs@[2]@ == bn254::be_value(proof_bytes@.subrange(4, 36)) % m
            &&& prepared.inputs@[3]@ == bn254::be_value(proof_bytes@.subrange(36, 68)) % m
            &&& prepared.inputs@[4]@ == bn254::be_value(proof_bytes@.subrange(68, 100)) % m
            &&& prepared.gnark_bytes@ == proof_bytes@.subrange(100, 356)
            &&& prepared.padded_vk@ == padded(vk@)
        },
{
    if let Ok(prepared) = r {
        let values = sp1_groth16::scalar_values(prepared.inputs@);
        assert(prepared@.inputs == values);
        assert(values[0] == prepared.inputs@[0]@);
        assert(values[1] == prepared.inputs@[1]@);
        assert(values[2] == prepared.inputs@[2]@);
        assert(values[3] == prepared.inputs@[3]@);
        assert(values[4] == prepared.inputs@[4]@);
        assert(prepared@.gnark_bytes == prepared.gnark_bytes@);
        assert(prepared@.padded_vk == prepared.padded_vk@);
    }
}

/// A spend proof is accepted only where the pairing check, given the prepared proof, says that
/// it verifies. Where it says that it does not, or fails, the proof is refused.
pub proof fn spend_proof_needs_the_pairing_check<V: Fn(PreparedSpendProof) -> Result<bool, ()>>(
    vk: &[u8],
    proof_bytes: &[u8],
    pv_encode: &[u8],
    vkey_hash: &str,
    pairing_check: V,
    r: Result<(), &'static str>,
)
    requires
        can_come_to(
            vk@,
            proof_bytes@,
            pv_encode@,
            vkey_hash.spec_bytes(),
            pairing_check,
            with_message(r),
        ),
    ensures
        r is Ok ==> proof_bytes@.len() >= 356 && exists|prepared: PreparedSpendProof| #[trigger]
            call_ensures(pairing_check, (prepared,), Ok::<bool, ()>(true)) && prepared@
                == prepared_for(vk@, proof_bytes@, pv_encode@, vkey_hash.spec_bytes()),
        proof_bytes@.len() >= 356 && hex32_outcome(vkey_hash.spec_bytes()) is Ok && (forall|
            prepared: PreparedSpendProof,
            outcome: Result<bool, ()>,
        | #[trigger]
            call_ensures(pairing_check, (prepared,), outcome) && prepared@ == prepared_for(
                vk@,
                proof_bytes@,
                pv_encode@,
                vkey_hash.spec_bytes(),
            ) ==> outcome == Ok::<bool, ()>(true)) ==> r is Ok,
{
}

/// By the verification equation a spend proof is accepted if and only if it is long enough, the
/// key hash is well formed, key and proof are, and the product of the pairings is one for the
/// digest of the public values.
pub proof fn spend_proof_is_accepted_where_the_pairings_cancel(
    vk: &[u8],
    proof_bytes: &[u8],
    pv_encode: &[u8],
    vkey_hash: &str,
    r: Result<(), &'static str>,
    hash: Result<[u8; 32], &'static str>,
)
    requires
        292 <= vk@.len(),
        content_len(vk@) <= VK_LEN,
        content_len(vk@) <= vk@.len(),
        call_ensures(
            verify_sp1_spend_proof_by_equation,
            (vk, proof_bytes, pv_encode, vkey_hash),
            r,
        ),
        call_ensures(decode_hex32, (vkey_hash,), hash),
    ensures
        ({
            let m = bn254::scalar_modulus();
            let key = sp1_groth16::held_key(padded(vk@));
            let parsed = sp1_groth16::proof_outcome(proof_bytes@.subrange(100, 356))->Ok_0;
            let digest = envelope::sha256_digest(pv_encode@);
            let inputs = seq![
                bn254::be_value(hash->Ok_0@) % m,
                bn254::be_value(digest.update(0, digest[0] % 32)) % m,
                bn254::be_value(proof_bytes@.subrange(4, 36)) % m,
                bn254::be_value(proof_bytes@.subrange(36, 68)) % m,
                bn254::be_value(proof_bytes@.subrange(68, 100)) % m,
            ];
            let cancels = bn254::pairings_cancel(
                seq![
                    (bn254::g1_negative(parsed.ar), parsed.bs),
                    (sp1_groth16::prepared_input(key.k, inputs), key.gamma),
                    (parsed.krs, key.delta),
                    (key.alpha, bn254::g2_negative(key.beta)),
                ],
            );
            let well_formed = {
                &&& proof_bytes@.len() >= 356
                &&& hash is Ok
                &&& sp1_groth16::holds_key(padded(vk@))
                &&& sp1_groth16::proof_outcome(proof_bytes@.subrange(100, 356)) is Ok
                &&& sp1_groth16::key_in_group(key)
                &&& key.k.len() == 6
            };
            &&& r is Ok <==> well_formed && cancels
            &&& well_formed && !cancels ==> r->Err_0@ == "Groth16 verification returned false"@
            &&& proof_bytes@.len() >= 356 && hash is Ok && !well_formed ==> r->Err_0@
                == "Groth16 pairing check failed"@
        }),
{
}

/// The verdict accepts a proof if and only if the pairing check says that it verifies.
pub proof fn verdict_follows_the_pairing_check(
    outcome: Result<bool, ()>,
    r: Result<(), &'static str>,
)
    requires
        call_ensures(spend_proof_verdict, (outcome,), r),
    ensures
        r is Ok <==> outcome == Ok::<bool, ()>(true),
        outcome == Ok::<bool, ()>(false) ==> r->Err_0@ == "Groth16 verification returned false"@,
        outcome is Err ==> r->Err_0@ == "Groth16 pairing check failed"@,
{
}

/// The pairing check says of a prepared proof whether the equation holds of the key, the proof
/// and the inputs, and fails where one of them is malformed.
pub proof fn pairing_check_follows_the_equation(
    prepared: PreparedSpendProof,
    r: Result<bool, ()>,
    key_bytes: &[u8],
    key: Result<sp1_groth16::Groth16VerifyingKey, Groth16Error>,
    proof_bytes: &[u8],
    parsed: Result<sp1_groth16::Groth16Proof, Groth16Error>,
    inputs: &[ScalarElement],
    equation: Result<(), Groth16Error>,
)
    requires
        call_ensures(check_pairing, (prepared,), r),
        key_bytes@ == prepared.padded_vk@,
        call_ensures(load_vk, (key_bytes,), key),
        proof_bytes@ == prepared.gnark_bytes@,
        call_ensures(load_proof, (proof_bytes,), parsed),
        inputs@ == prepared.inputs@,
        key is Ok && parsed is Ok ==> call_ensures(
            verify_algebraic,
            (&key->Ok_0, &parsed->Ok_0, inputs),
            equation,
        ),
    ensures
        key is Err || parsed is Err ==> r is Err,
        key is Ok && parsed is Ok && sp1_groth16::key_in_group(key->Ok_0@) ==> {
            &&& r == Ok::<bool, ()>(true) <==> equation is Ok
            &&& r == Ok::<bool, ()>(false) <==> equation == Err::<(), Groth16Error>(
                Groth16Error::ProofVerificationFailed,
            )
        },
        key is Ok && parsed is Ok && !sp1_groth16::key_in_group(key->Ok_0@) ==> r is Err,
{
    assert(prepared@.inputs == sp1_groth16::scalar_values(prepared.inputs@));
}

} // verus!
