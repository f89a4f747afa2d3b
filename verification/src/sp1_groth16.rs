//! Verification of SP1 Groth16 proofs over BN254.
//!
//! A proof is laid out as four bytes of the verifying key's hash, then the exit code,
//! the key root and the nonce in 32 bytes each, then 256 bytes of the proof itself: two
//! uncompressed points of the first group around one of the second.

use vstd::prelude::*;
use vstd::arithmetic::power2::pow2;
use crate::bn254;
use crate::bn254::{
    base_from_slice, base_from_slice_mod_order, g1_at, g1_from_coordinates, g1_negated,
    g1_plus, g1_roots_at, g1_times, g2_at, g2_from_coordinates, g2_identity, g2_negated,
    g2_roots_at, is_in_second_group, pairing_product_is_one, scalar_from_slice, G1Point, G2Point,
    ScalarElement,
};
use crate::envelope;
use crate::envelope::sha256;

verus! {

/// Number of bytes of the verifying key's hash at the start of a proof.
pub const VK_HASH_PREFIX_LEN: usize = 4;

/// Number of bytes before the proof itself.
pub const HEADER_LEN: usize = 100;

/// Number of bytes of the proof itself.
pub const GROTH16_GNARK_LEN: usize = 256;

/// The two bits of a compressed point's first byte that hold its flag.
pub const MASK: u8 = 0xc0;

/// Why a proof was not accepted.
#[derive(Debug)]
pub enum Groth16Error {
    InvalidProofBytes,
    InvalidVkBytes,
    VkHashMismatch,
    VkeyHashMismatch,
    PrepareInputsFailed,
    ProofVerificationFailed,
    FieldError,
    GroupError,
}

impl Groth16Error {
    /// The name of the error.
    pub fn name(&self) -> (r: &'static str)
        ensures
            r@ == error_name(*self),
    {
        match self {
            Groth16Error::InvalidProofBytes => "InvalidProofBytes",
            Groth16Error::InvalidVkBytes => "InvalidVkBytes",
            Groth16Error::VkHashMismatch => "VkHashMismatch",
            Groth16Error::VkeyHashMismatch => "VkeyHashMismatch",
            Groth16Error::PrepareInputsFailed => "PrepareInputsFailed",
            Groth16Error::ProofVerificationFailed => "ProofVerificationFailed",
            Groth16Error::FieldError => "FieldError",
            Groth16Error::GroupError => "GroupError",
        }
    }
}

/// The name of an error.
pub open spec fn error_name(error: Groth16Error) -> Seq<char> {
    match error {
        Groth16Error::InvalidProofBytes => "InvalidProofBytes"@,
        Groth16Error::InvalidVkBytes => "InvalidVkBytes"@,
        Groth16Error::VkHashMismatch => "VkHashMismatch"@,
        Groth16Error::VkeyHashMismatch => "VkeyHashMismatch"@,
        Groth16Error::PrepareInputsFailed => "PrepareInputsFailed"@,
        Groth16Error::ProofVerificationFailed => "ProofVerificationFailed"@,
        Groth16Error::FieldError => "FieldError"@,
        Groth16Error::GroupError => "GroupError"@,
    }
}

/// Which of the two roots a compressed point means, or that it is the identity.
#[derive(Clone, Copy, Debug, PartialEq, Eq, Structural)]
pub enum Flag {
    Positive,
    Negative,
    Infinity,
}

/// The flag in the top two bits of a byte.
pub open spec fn flag_of(b: u8) -> Option<Flag> {
    if b / 64 == 2 {
        Some(Flag::Positive)
    } else if b / 64 == 3 {
        Some(Flag::Negative)
    } else if b / 64 == 1 {
        Some(Flag::Infinity)
    } else {
        None
    }
}

impl Flag {
    pub fn from_byte(b: u8) -> (r: Option<Flag>)
        ensures
            r == flag_of(b),
    {
        let flag: u8 = b & MASK;
        assert(b & 0xc0 == 0x80 <==> b / 64 == 2) by (bit_vector);
        assert(b & 0xc0 == 0xc0 <==> b / 64 == 3) by (bit_vector);
        assert(b & 0xc0 == 0x40 <==> b / 64 == 1) by (bit_vector);
        if flag == 0x80 {
            Some(Flag::Positive)
        } else if flag == 0xc0 {
            Some(Flag::Negative)
        } else if flag == 0x40 {
            Some(Flag::Infinity)
        } else {
            None
        }
    }
}

/// A field element in 32 bytes at an offset, where it is canonical.
pub open spec fn element_at(buf: Seq<u8>, offset: int) -> nat {
    bn254::be_value(buf.subrange(offset, offset + 32))
}

/// What the bytes of an uncompressed point of the first group hold.
pub open spec fn uncompressed_g1_outcome(buf: Seq<u8>) -> Result<(nat, nat), Groth16Error> {
    if buf.len() != 64 {
        Err(Groth16Error::InvalidProofBytes)
    } else if element_at(buf, 0) >= bn254::base_modulus() || element_at(buf, 32)
        >= bn254::base_modulus() {
        Err(Groth16Error::FieldError)
    } else if !bn254::g1_equation(element_at(buf, 0), element_at(buf, 32)) {
        Err(Groth16Error::GroupError)
    } else {
        Ok((element_at(buf, 0), element_at(buf, 32)))
    }
}

/// What the bytes of an uncompressed point of the second group hold: each coordinate with
/// its imaginary part first.
pub open spec fn uncompressed_g2_outcome(buf: Seq<u8>) -> Result<
    ((nat, nat), (nat, nat)),
    Groth16Error,
> {
    let x = (element_at(buf, 32), element_at(buf, 0));
    let y = (element_at(buf, 96), element_at(buf, 64));
    if buf.len() != 128 {
        Err(Groth16Error::InvalidProofBytes)
    } else if x.0 >= bn254::base_modulus() || x.1 >= bn254::base_modulus() || y.0
        >= bn254::base_modulus() || y.1 >= bn254::base_modulus() {
        Err(Groth16Error::FieldError)
    } else if !bn254::g2_member(x, y) {
        Err(Groth16Error::GroupError)
    } else {
        Ok((x, y))
    }
}

/// The outcome of a parse, over what a point holds.
pub open spec fn g1_result(r: Result<G1Point, Groth16Error>) -> Result<(nat, nat), Groth16Error> {
    match r {
        Ok(point) => Ok(point@),
        Err(error) => Err(error),
    }
}

/// The outcome of a parse, over what a point holds.
pub open spec fn g2_result(r: Result<G2Point, Groth16Error>) -> Result<
    ((nat, nat), (nat, nat)),
    Groth16Error,
> {
    match r {
        Ok(point) => Ok(point@),
        Err(error) => Err(error),
    }
}

/// Parse an uncompressed point of the first group.
pub fn uncompressed_g1(buf: &[u8]) -> (r: Result<G1Point, Groth16Error>)
    ensures
        g1_result(r) == uncompressed_g1_outcome(buf@),
{
    if buf.len() != 64 {
        return Err(Groth16Error::InvalidProofBytes);
    }
    let x = base_from_slice(vstd::slice::slice_subrange(buf, 0, 32));
    let y = base_from_slice(vstd::slice::slice_subrange(buf, 32, 64));
    match (x, y) {
        (Some(x), Some(y)) => match g1_from_coordinates(&x, &y) {
            Some(point) => Ok(point),
            None => Err(Groth16Error::GroupError),
        },
        _ => Err(Groth16Error::FieldError),
    }
}

/// Parse an uncompressed point of the second group.
pub fn uncompressed_g2(buf: &[u8]) -> (r: Result<G2Point, Groth16Error>)
    ensures
        g2_result(r) == uncompressed_g2_outcome(buf@),
        r matches Ok(point) ==> bn254::g2_equation(point@.0, point@.1),
{
    if buf.len() != 128 {
        return Err(Groth16Error::InvalidProofBytes);
    }
    let x1 = base_from_slice(vstd::slice::slice_subrange(buf, 0, 32));
    let x0 = base_from_slice(vstd::slice::slice_subrange(buf, 32, 64));
    let y1 = base_from_slice(vstd::slice::slice_subrange(buf, 64, 96));
    let y0 = base_from_slice(vstd::slice::slice_subrange(buf, 96, 128));
    match (x1, x0, y1, y0) {
        (Some(x1), Some(x0), Some(y1), Some(y0)) => match g2_from_coordinates(&x0, &x1, &y0, &y1) {
            Some(point) => Ok(point),
            None => Err(Groth16Error::GroupError),
        },
        _ => Err(Groth16Error::FieldError),
    }
}

/// The bytes of a compressed point with its flag cleared.
pub open spec fn without_flag(buf: Seq<u8>) -> Seq<u8> {
    buf.update(0, buf[0] % 64)
}

/// What the bytes of a compressed point of the first group hold: the smaller root for a
/// positive flag and the larger one for a negative flag.
pub open spec fn compressed_g1_outcome(buf: Seq<u8>) -> Result<(nat, nat), Groth16Error> {
    if buf.len() != 32 {
        Err(Groth16Error::InvalidVkBytes)
    } else {
        let x = bn254::be_value(without_flag(buf)) % bn254::base_modulus();
        match (flag_of(buf[0]), bn254::g1_roots(x)) {
            (Some(Flag::Positive), Some(roots)) => Ok((x, roots.0)),
            (Some(Flag::Negative), Some(roots)) => Ok((x, roots.1)),
            _ => Err(Groth16Error::InvalidVkBytes),
        }
    }
}

/// What the bytes of a compressed point of the second curve hold: the smaller root for a
/// positive flag and the larger one for a negative flag. Whether the point lies in the
/// subgroup of prime order is not looked at.
pub open spec fn compressed_g2_outcome(buf: Seq<u8>) -> Result<
    ((nat, nat), (nat, nat)),
    Groth16Error,
> {
    if buf.len() != 64 {
        Err(Groth16Error::InvalidVkBytes)
    } else {
        let x = (
            bn254::be_value(buf.subrange(32, 64)) % bn254::base_modulus(),
            bn254::be_value(without_flag(buf.subrange(0, 32))) % bn254::base_modulus(),
        );
        match (flag_of(buf[0]), bn254::g2_roots(x)) {
            (Some(Flag::Infinity), _) => Ok(((0nat, 0nat), (1nat, 0nat))),
            (Some(Flag::Positive), Some(roots)) => Ok((x, roots.0)),
            (Some(Flag::Negative), Some(roots)) => Ok((x, roots.1)),
            _ => Err(Groth16Error::InvalidVkBytes),
        }
    }
}

/// The first 32 bytes with the flag cleared.
fn cleared(buf: &[u8]) -> (r: [u8; 32])
    requires
        buf@.len() >= 32,
    ensures
        r@ == without_flag(buf@.subrange(0, 32)),
{
    let mut out: [u8; 32] = [0u8; 32];
    let mut i: usize = 0;
    while i < 32
        invariant
            i <= 32 <= buf@.len(),
            forall|j: int| 0 <= j < i ==> out@[j] == buf@[j],
        decreases 32 - i,
    {
        out[i] = buf[i];
        i += 1;
    }
    let first: u8 = buf[0];
    assert(first & !0xc0u8 == first % 64) by (bit_vector);
    out[0] = first & !MASK;
    assert(out@ =~= without_flag(buf@.subrange(0, 32)));
    out
}

/// Parse a compressed point of the first group. It solves the curve's equation.
pub fn compressed_g1(buf: &[u8]) -> (r: Result<G1Point, Groth16Error>)
    ensures
        g1_result(r) == compressed_g1_outcome(buf@),
        r matches Ok(point) ==> bn254::g1_equation(point@.0, point@.1),
{
    if buf.len() != 32 {
        return Err(Groth16Error::InvalidVkBytes);
    }
    let flag = match Flag::from_byte(buf[0]) {
        Some(flag) => flag,
        None => {
            return Err(Groth16Error::InvalidVkBytes);
        },
    };
    if flag == Flag::Infinity {
        return Err(Groth16Error::InvalidVkBytes);
    }
    let xb = cleared(buf);
    assert(buf@.subrange(0, 32) =~= buf@);
    let x = base_from_slice_mod_order(&xb);
    match g1_roots_at(&x) {
        None => Err(Groth16Error::InvalidVkBytes),
        Some((smaller, larger)) => {
            proof {
                bn254::lemma_are_g1_roots(x@, smaller@, larger@);
                bn254::lemma_g1_root_negated(x@, smaller@);
            }
            let y = if flag == Flag::Negative {
                larger
            } else {
                smaller
            };
            Ok(g1_at(x, y))
        },
    }
}

/// Parse a compressed point of the second curve. It solves the curve's equation, or is the
/// identity. It need not lie in the second group.
pub fn compressed_g2(buf: &[u8]) -> (r: Result<G2Point, Groth16Error>)
    ensures
        g2_result(r) == compressed_g2_outcome(buf@),
        r matches Ok(point) ==> point@ == ((0nat, 0nat), (1nat, 0nat)) || bn254::g2_equation(
            point@.0,
            point@.1,
        ),
{
    if buf.len() != 64 {
        return Err(Groth16Error::InvalidVkBytes);
    }
    let flag = match Flag::from_byte(buf[0]) {
        Some(flag) => flag,
        None => {
            return Err(Groth16Error::InvalidVkBytes);
        },
    };
    if flag == Flag::Infinity {
        return Ok(g2_identity());
    }
    let xb = cleared(buf);
    let x1 = base_from_slice_mod_order(&xb);
    let x0 = base_from_slice_mod_order(vstd::slice::slice_subrange(buf, 32, 64));
    match g2_roots_at(&x0, &x1) {
        None => Err(Groth16Error::InvalidVkBytes),
        Some((smaller, larger)) => {
            proof {
                let x = (x0@, x1@);
                let least = (smaller.0@, smaller.1@);
                bn254::lemma_are_g2_roots(x, least, (larger.0@, larger.1@));
                bn254::lemma_g2_root_negated(x, least);
            }
            let y = if flag == Flag::Negative {
                larger
            } else {
                smaller
            };
            Ok(g2_at((x0, x1), y))
        },
    }
}

/// The bytes of a compressed point with another flag in the top two bits.
pub open spec fn with_flag(buf: Seq<u8>, flag: nat) -> Seq<u8> {
    buf.update(0, (flag * 64 + buf[0] % 64) as u8)
}

/// The two sign flags of a compressed point of the first group stand for opposite roots: where
/// the rest of the bytes is the first coordinate of a point of the curve, both flags give a
/// point with that coordinate, the positive flag the smaller root and the negative flag the
/// larger one, which is its negative. Elsewhere both are refused. The two other flags, and
/// bytes of another length, are always refused.
pub proof fn compressed_g1_flags_give_opposite_roots(buf: Seq<u8>)
    requires
        buf.len() > 0,
    ensures
        ({
            let x = bn254::be_value(without_flag(buf)) % bn254::base_modulus();
            let positive = compressed_g1_outcome(with_flag(buf, 2));
            let negative = compressed_g1_outcome(with_flag(buf, 3));
            let refused: Result<(nat, nat), Groth16Error> = Err(Groth16Error::InvalidVkBytes);
            &&& compressed_g1_outcome(with_flag(buf, 0)) == refused
            &&& compressed_g1_outcome(with_flag(buf, 1)) == refused
            &&& if buf.len() == 32 && exists|y: nat| bn254::is_g1_root(x, y) {
                &&& positive is Ok && negative is Ok
                &&& positive->Ok_0.0 == x && negative->Ok_0.0 == x
                &&& bn254::is_g1_root(x, positive->Ok_0.1)
                &&& bn254::is_g1_root(x, negative->Ok_0.1)
                &&& negative->Ok_0.1 == bn254::base_negative(positive->Ok_0.1)
                &&& positive->Ok_0.1 <= negative->Ok_0.1
            } else {
                positive == refused && negative == refused
            }
        }),
{
    let x = bn254::be_value(without_flag(buf)) % bn254::base_modulus();
    bn254::g1_roots_solve_the_equation(x);
    assert forall|flag: nat| flag < 4 implies #[trigger] without_flag(with_flag(buf, flag))
        == without_flag(buf) && with_flag(buf, flag)[0] / 64 == flag by {
        assert(without_flag(with_flag(buf, flag)) =~= without_flag(buf));
    }
    assert(without_flag(with_flag(buf, 0)) == without_flag(buf));
    assert(without_flag(with_flag(buf, 1)) == without_flag(buf));
    assert(without_flag(with_flag(buf, 2)) == without_flag(buf));
    assert(without_flag(with_flag(buf, 3)) == without_flag(buf));
}

/// The two sign flags of a compressed point of the second curve stand for opposite roots: the
/// positive flag gives the smaller root and the negative flag the larger one, which is its
/// negative, and both are refused where there is no root.
pub proof fn compressed_g2_flags_give_opposite_roots(buf: Seq<u8>)
    requires
        buf.len() == 64,
    ensures
        ({
            let x = (
                bn254::be_value(buf.subrange(32, 64)) % bn254::base_modulus(),
                bn254::be_value(without_flag(buf.subrange(0, 32))) % bn254::base_modulus(),
            );
            let positive = compressed_g2_outcome(with_flag(buf, 2));
            let negative = compressed_g2_outcome(with_flag(buf, 3));
            let refused: Result<((nat, nat), (nat, nat)), Groth16Error> = Err(
                Groth16Error::InvalidVkBytes,
            );
            &&& compressed_g2_outcome(with_flag(buf, 0)) == refused
            &&& if exists|y: (nat, nat)| bn254::is_g2_root(x, y) {
                &&& positive is Ok && negative is Ok
                &&& positive->Ok_0.0 == x && negative->Ok_0.0 == x
                &&& bn254::is_g2_root(x, positive->Ok_0.1)
                &&& bn254::is_g2_root(x, negative->Ok_0.1)
                &&& negative->Ok_0.1 == bn254::fq2_negative(positive->Ok_0.1)
                &&& bn254::fq2_at_most(positive->Ok_0.1, negative->Ok_0.1)
            } else {
                positive == refused && negative == refused
            }
        }),
{
    let first = buf.subrange(0, 32);
    let x = (
        bn254::be_value(buf.subrange(32, 64)) % bn254::base_modulus(),
        bn254::be_value(without_flag(first)) % bn254::base_modulus(),
    );
    bn254::g2_roots_solve_the_equation(x);
    assert forall|flag: nat| flag < 4 implies {
        let changed = #[trigger] with_flag(buf, flag);
        &&& changed.subrange(32, 64) == buf.subrange(32, 64)
        &&& without_flag(changed.subrange(0, 32)) == without_flag(first)
        &&& changed[0] / 64 == flag
    } by {
        let changed = with_flag(buf, flag);
        assert(changed.subrange(32, 64) =~= buf.subrange(32, 64));
        assert(without_flag(changed.subrange(0, 32)) =~= without_flag(first));
    }
}

/// A verifying key. The second group's `beta` is held negated.
pub struct Groth16VerifyingKey {
    pub alpha: G1Point,
    pub k: Vec<G1Point>,
    pub beta: G2Point,
    pub delta: G2Point,
    pub gamma: G2Point,
}

/// What a [`Groth16VerifyingKey`] holds.
#[verifier::ext_equal]
pub struct KeyView {
    pub alpha: (nat, nat),
    pub k: Seq<(nat, nat)>,
    pub beta: ((nat, nat), (nat, nat)),
    pub delta: ((nat, nat), (nat, nat)),
    pub gamma: ((nat, nat), (nat, nat)),
}

impl View for Groth16VerifyingKey {
    type V = KeyView;

    open spec fn view(&self) -> KeyView {
        KeyView {
            alpha: self.alpha@,
            k: self.k@.map_values(|p: G1Point| p@),
            beta: self.beta@,
            delta: self.delta@,
            gamma: self.gamma@,
        }
    }
}

/// A proof: three points.
pub struct Groth16Proof {
    pub ar: G1Point,
    pub bs: G2Point,
    pub krs: G1Point,
}

/// What a [`Groth16Proof`] holds.
pub struct ProofView {
    pub ar: (nat, nat),
    pub bs: ((nat, nat), (nat, nat)),
    pub krs: (nat, nat),
}

impl View for Groth16Proof {
    type V = ProofView;

    open spec fn view(&self) -> ProofView {
        ProofView { ar: self.ar@, bs: self.bs@, krs: self.krs@ }
    }
}

/// The bytes of the `i`-th point of a key's list.
pub open spec fn k_bytes(buf: Seq<u8>, i: int) -> Seq<u8> {
    buf.subrange(292 + 32 * i, 324 + 32 * i)
}

/// How many points a key's list announces.
pub open spec fn announced_k(buf: Seq<u8>) -> nat {
    bn254::be_value(buf.subrange(288, 292))
}

/// The bytes hold a verifying key.
pub open spec fn holds_key(buf: Seq<u8>) -> bool {
    &&& buf.len() >= 292
    &&& compressed_g1_outcome(buf.subrange(0, 32)) is Ok
    &&& compressed_g2_outcome(buf.subrange(64, 128)) is Ok
    &&& compressed_g2_outcome(buf.subrange(128, 192)) is Ok
    &&& compressed_g2_outcome(buf.subrange(224, 288)) is Ok
    &&& buf.len() >= 292 + 32 * announced_k(buf)
    &&& forall|i: int|
        0 <= i < announced_k(buf) ==> compressed_g1_outcome(#[trigger] k_bytes(buf, i)) is Ok
}

/// The verifying key that bytes hold.
pub open spec fn held_key(buf: Seq<u8>) -> KeyView {
    KeyView {
        alpha: compressed_g1_outcome(buf.subrange(0, 32))->Ok_0,
        k: Seq::new(
            announced_k(buf),
            |i: int| compressed_g1_outcome(k_bytes(buf, i))->Ok_0,
        ),
        beta: bn254::g2_negative(compressed_g2_outcome(buf.subrange(64, 128))->Ok_0),
        delta: compressed_g2_outcome(buf.subrange(224, 288))->Ok_0,
        gamma: compressed_g2_outcome(buf.subrange(128, 192))->Ok_0,
    }
}

/// The number that four bytes write, most significant first.
fn u32_from_be(bytes: &[u8]) -> (r: u32)
    requires
        bytes@.len() == 4,
    ensures
        r == bn254::be_value(bytes@),
{
    proof {
        reveal_with_fuel(bn254::be_value, 5);
        assert(bytes@.drop_last().drop_last().drop_last().drop_last().len() == 0);
        assert(bn254::be_value(bytes@) == ((bytes@[0] * 256 + bytes@[1]) * 256 + bytes@[2]) * 256
            + bytes@[3]);
    }
    ((bytes[0] as u32 * 256 + bytes[1] as u32) * 256 + bytes[2] as u32) * 256 + bytes[3] as u32
}

/// Parse a verifying key.
pub fn load_vk(buf: &[u8]) -> (r: Result<Groth16VerifyingKey, Groth16Error>)
    ensures
        match r {
            Ok(vk) => holds_key(buf@) && vk@ == held_key(buf@),
            Err(error) => !holds_key(buf@) && error == Groth16Error::InvalidVkBytes,
        },
{
    if buf.len() < 292 {
        return Err(Groth16Error::InvalidVkBytes);
    }
    let alpha = match compressed_g1(vstd::slice::slice_subrange(buf, 0, 32)) {
        Ok(point) => point,
        Err(error) => {
            return Err(error);
        },
    };
    let beta = match compressed_g2(vstd::slice::slice_subrange(buf, 64, 128)) {
        Ok(point) => g2_negated(&point),
        Err(error) => {
            return Err(error);
        },
    };
    let gamma = match compressed_g2(vstd::slice::slice_subrange(buf, 128, 192)) {
        Ok(point) => point,
        Err(error) => {
            return Err(error);
        },
    };
    let delta = match compressed_g2(vstd::slice::slice_subrange(buf, 224, 288)) {
        Ok(point) => point,
        Err(error) => {
            return Err(error);
        },
    };
    let num_k: u32 = u32_from_be(vstd::slice::slice_subrange(buf, 288, 292));
    let room: usize = (buf.len() - 292) / 32;
    if (room as u64) < num_k as u64 {
        return Err(Groth16Error::InvalidVkBytes);
    }
    let count: usize = num_k as usize;
    let mut k: Vec<G1Point> = Vec::new();
    let mut i: usize = 0;
    while i < count
        invariant
            i <= count,
            count == announced_k(buf@),
            292 + 32 * count <= buf@.len() == buf.len(),
            k@.len() == i,
            forall|j: int|
                0 <= j < i ==> compressed_g1_outcome(#[trigger] k_bytes(buf@, j)) == Ok::<
                    _,
                    Groth16Error,
                >(k@[j]@),
        decreases count - i,
    {
        assert(k_bytes(buf@, i as int) == buf@.subrange(292 + 32 * i, 324 + 32 * i));
        match compressed_g1(vstd::slice::slice_subrange(buf, 292 + 32 * i, 324 + 32 * i)) {
            Ok(point) => {
                k.push(point);
            },
            Err(error) => {
                assert(compressed_g1_outcome(k_bytes(buf@, i as int)) is Err);
                return Err(error);
            },
        }
        i += 1;
    }
    let vk = Groth16VerifyingKey { alpha, k, beta, delta, gamma };
    assert(vk@ =~= held_key(buf@)) by {
        assert(vk@.k =~= held_key(buf@).k) by {
            assert forall|j: int| 0 <= j < count implies vk@.k[j] == held_key(buf@).k[j] by {
                assert(compressed_g1_outcome(k_bytes(buf@, j)) is Ok);
            }
        }
    }
    Ok(vk)
}

/// What the bytes of a proof hold.
pub open spec fn proof_outcome(buf: Seq<u8>) -> Result<ProofView, Groth16Error> {
    if buf.len() != GROTH16_GNARK_LEN {
        Err(Groth16Error::InvalidProofBytes)
    } else {
        match (
            uncompressed_g1_outcome(buf.subrange(0, 64)),
            uncompressed_g2_outcome(buf.subrange(64, 192)),
            uncompressed_g1_outcome(buf.subrange(192, 256)),
        ) {
            (Err(error), _, _) => Err(error),
            (Ok(_), Err(error), _) => Err(error),
            (Ok(_), Ok(_), Err(error)) => Err(error),
            (Ok(ar), Ok(bs), Ok(krs)) => Ok(ProofView { ar, bs, krs }),
        }
    }
}

/// Parse a proof.
pub fn load_proof(buf: &[u8]) -> (r: Result<Groth16Proof, Groth16Error>)
    ensures
        match r {
            Ok(parsed) => proof_outcome(buf@) == Ok::<ProofView, Groth16Error>(parsed@),
            Err(error) => proof_outcome(buf@) == Err::<ProofView, Groth16Error>(error),
        },
{
    if buf.len() != GROTH16_GNARK_LEN {
        return Err(Groth16Error::InvalidProofBytes);
    }
    let ar = match uncompressed_g1(vstd::slice::slice_subrange(buf, 0, 64)) {
        Ok(point) => point,
        Err(error) => {
            return Err(error);
        },
    };
    let bs = match uncompressed_g2(vstd::slice::slice_subrange(buf, 64, 192)) {
        Ok(point) => point,
        Err(error) => {
            return Err(error);
        },
    };
    let krs = match uncompressed_g1(vstd::slice::slice_subrange(buf, 192, 256)) {
        Ok(point) => point,
        Err(error) => {
            return Err(error);
        },
    };
    Ok(Groth16Proof { ar, bs, krs })
}

/// The public inputs' contribution: the first listed point plus each further one times its
/// input, zero inputs left out.
pub open spec fn prepared_input(k: Seq<(nat, nat)>, inputs: Seq<nat>) -> (nat, nat)
    decreases inputs.len(),
{
    if inputs.len() == 0 {
        k[0]
    } else {
        let before = prepared_input(k, inputs.drop_last());
        if inputs.last() != 0 {
            bn254::g1_sum(before, bn254::g1_multiple(k[inputs.len() as int], inputs.last()))
        } else {
            before
        }
    }
}

/// The pairs whose pairings multiply to one for a valid proof.
pub open spec fn verification_pairs(vk: KeyView, parsed: ProofView, inputs: Seq<nat>) -> Seq<
    ((nat, nat), ((nat, nat), (nat, nat))),
> {
    seq![
        (bn254::g1_negative(parsed.ar), parsed.bs),
        (prepared_input(vk.k, inputs), vk.gamma),
        (parsed.krs, vk.delta),
        (vk.alpha, bn254::g2_negative(vk.beta)),
    ]
}

/// What the verification equation says.
pub open spec fn algebraic_outcome(vk: KeyView, parsed: ProofView, inputs: Seq<nat>) -> Result<
    (),
    Groth16Error,
> {
    if inputs.len() + 1 != vk.k.len() {
        Err(Groth16Error::PrepareInputsFailed)
    } else if bn254::pairings_cancel(verification_pairs(vk, parsed, inputs)) {
        Ok(())
    } else {
        Err(Groth16Error::ProofVerificationFailed)
    }
}

/// The representatives of scalars.
pub open spec fn scalar_values(s: Seq<ScalarElement>) -> Seq<nat> {
    s.map_values(|x: ScalarElement| x@)
}

/// The points of a key that are paired lie in the second group.
pub open spec fn key_in_group(vk: KeyView) -> bool {
    &&& bn254::g2_valid(vk.gamma)
    &&& bn254::g2_valid(vk.delta)
    &&& bn254::g2_valid(bn254::g2_negative(vk.beta))
}

/// Whether the points of a key that are paired lie in the second group.
pub fn is_key_in_group(vk: &Groth16VerifyingKey) -> (r: bool)
    ensures
        r == key_in_group(vk@),
{
    is_in_second_group(&vk.gamma) && is_in_second_group(&vk.delta) && is_in_second_group(
        &g2_negated(&vk.beta),
    )
}

/// Check the verification equation. The pairing is defined on points of the groups alone.
pub fn verify_algebraic(
    vk: &Groth16VerifyingKey,
    parsed: &Groth16Proof,
    public_inputs: &[ScalarElement],
) -> (r: Result<(), Groth16Error>)
    requires
        key_in_group(vk@),
        bn254::g2_valid(parsed@.bs),
    ensures
        r == algebraic_outcome(vk@, parsed@, scalar_values(public_inputs@)),
{
    if vk.k.len() == 0 || public_inputs.len() != vk.k.len() - 1 {
        return Err(Groth16Error::PrepareInputsFailed);
    }
    let ghost inputs = scalar_values(public_inputs@);
    let mut prepared: G1Point = vk.k[0];
    let mut i: usize = 0;
    assert(inputs.take(0).len() == 0);
    while i < public_inputs.len()
        invariant
            i <= public_inputs@.len(),
            public_inputs@.len() + 1 == vk.k@.len(),
            inputs == scalar_values(public_inputs@),
            prepared@ == prepared_input(vk@.k, inputs.take(i as int)),
        decreases public_inputs@.len() - i,
    {
        proof {
            let prefix = inputs.take(i + 1);
            assert(prefix.drop_last() =~= inputs.take(i as int));
            assert(prefix.last() == public_inputs@[i as int]@);
            assert(vk@.k[i + 1] == vk.k@[i + 1]@);
        }
        if !public_inputs[i].is_zero() {
            let term = g1_times(&vk.k[i + 1], &public_inputs[i]);
            prepared = g1_plus(&prepared, &term);
        }
        i += 1;
    }
    assert(inputs.take(i as int) =~= inputs);
    let pairs = [
        (g1_negated(&parsed.ar), parsed.bs),
        (prepared, vk.gamma),
        (parsed.krs, vk.delta),
        (vk.alpha, g2_negated(&vk.beta)),
    ];
    assert(bn254::pair_views(pairs@) =~= verification_pairs(vk@, parsed@, inputs));
    if pairing_product_is_one(&pairs) {
        Ok(())
    } else {
        Err(Groth16Error::ProofVerificationFailed)
    }
}

/// A digest with its three most significant bits cleared.
pub open spec fn masked(digest: Seq<u8>) -> Seq<u8> {
    digest.update(0, digest[0] % 32)
}

/// The BLAKE3 digest of bytes.
pub uninterp spec fn blake3_digest(bytes: Seq<u8>) -> Seq<u8>;

/// `blake3::hash`: a digest of 32 bytes that depends on the input alone.
#[verifier::external_body]
fn blake3_of(bytes: &[u8]) -> (r: [u8; 32])
    ensures
        r@ == blake3_digest(bytes@),
{
    *blake3::hash(bytes).as_bytes()
}

/// Clear the three most significant bits of a digest.
fn mask_digest(digest: [u8; 32]) -> (r: [u8; 32])
    ensures
        r@ == masked(digest@),
{
    let mut h: [u8; 32] = digest;
    let first: u8 = h[0];
    assert(first & 0x1f == first % 32) by (bit_vector);
    h[0] = first & 0x1f;
    assert(h@ =~= masked(digest@));
    h
}

/// The digest of the public values, cut to the size of the field.
pub fn hash_public_inputs(pv: &[u8]) -> (r: [u8; 32])
    ensures
        r@ == masked(envelope::sha256_digest(pv@)),
        envelope::sha256_digest(pv@).len() == 32,
{
    mask_digest(sha256(pv))
}

/// The same with BLAKE3 in place of SHA-256.
pub fn hash_public_inputs_blake3(pv: &[u8]) -> (r: [u8; 32])
    ensures
        r@ == masked(blake3_digest(pv@)),
        blake3_digest(pv@).len() == 32,
{
    mask_digest(blake3_of(pv))
}

/// The scalar that 32 bytes write, reduced.
pub fn to_fr(bytes: &[u8; 32]) -> (r: ScalarElement)
    ensures
        r@ == bn254::be_value(bytes@) % bn254::scalar_modulus(),
{
    scalar_from_slice(bytes)
}

/// The scalar in 32 bytes.
pub open spec fn scalar_of(bytes: Seq<u8>) -> nat {
    bn254::be_value(bytes) % bn254::scalar_modulus()
}

/// The five public inputs: the program's key hash, the digest of the public values, and
/// the exit code, key root and nonce from the proof's header.
pub open spec fn circuit_inputs(proof_bytes: Seq<u8>, digest: Seq<u8>, vkey_hash: Seq<u8>) -> Seq<
    nat,
> {
    seq![
        scalar_of(vkey_hash),
        scalar_of(digest),
        scalar_of(proof_bytes.subrange(4, 36)),
        scalar_of(proof_bytes.subrange(36, 68)),
        scalar_of(proof_bytes.subrange(68, 100)),
    ]
}

/// What the verification of a proof says. The public values may have been hashed with
/// SHA-256 or with BLAKE3. A key with a point outside the second group, on which no pairing is
/// defined, is refused.
pub open spec fn verification_outcome(
    vk_bytes: Seq<u8>,
    proof_bytes: Seq<u8>,
    public_values: Seq<u8>,
    vkey_hash: Seq<u8>,
) -> Result<(), Groth16Error> {
    if proof_bytes.len() < HEADER_LEN + GROTH16_GNARK_LEN {
        Err(Groth16Error::InvalidProofBytes)
    } else if envelope::sha256_digest(vk_bytes).take(4) != proof_bytes.take(4) {
        Err(Groth16Error::VkHashMismatch)
    } else if !holds_key(vk_bytes) {
        Err(Groth16Error::InvalidVkBytes)
    } else {
        match proof_outcome(proof_bytes.subrange(100, 356)) {
            Err(error) => Err(error),
            Ok(_) if !key_in_group(held_key(vk_bytes)) => Err(Groth16Error::InvalidVkBytes),
            Ok(parsed) => {
                let vk = held_key(vk_bytes);
                let by_sha256 = circuit_inputs(
                    proof_bytes,
                    masked(envelope::sha256_digest(public_values)),
                    vkey_hash,
                );
                let by_blake3 = circuit_inputs(
                    proof_bytes,
                    masked(blake3_digest(public_values)),
                    vkey_hash,
                );
                if algebraic_outcome(vk, parsed, by_sha256) is Ok {
                    Ok(())
                } else {
                    algebraic_outcome(vk, parsed, by_blake3)
                }
            },
        }
    }
}

/// The five public inputs of a proof, given the digest of the public values.
fn inputs_of(proof_bytes: &[u8], digest: &[u8; 32], vkey_hash: &[u8; 32]) -> (r: [ScalarElement; 5])
    requires
        proof_bytes@.len() >= 100,
    ensures
        scalar_values(r@) == circuit_inputs(proof_bytes@, digest@, vkey_hash@),
{
    let inputs = [
        to_fr(vkey_hash),
        to_fr(digest),
        scalar_from_slice(vstd::slice::slice_subrange(proof_bytes, 4, 36)),
        scalar_from_slice(vstd::slice::slice_subrange(proof_bytes, 36, 68)),
        scalar_from_slice(vstd::slice::slice_subrange(proof_bytes, 68, 100)),
    ];
    assert(scalar_values(inputs@) =~= circuit_inputs(proof_bytes@, digest@, vkey_hash@));
    inputs
}

/// Verify that `proof_bytes` is a valid proof for the program with key hash
/// `spend_vkey_hash` and the given public values, under the verifying key `vk_bytes`.
pub fn verify_sp1_groth16(
    vk_bytes: &[u8],
    proof_bytes: &[u8],
    public_values: &[u8],
    spend_vkey_hash: &[u8; 32],
) -> (r: Result<(), Groth16Error>)
    ensures
        r == verification_outcome(vk_bytes@, proof_bytes@, public_values@, spend_vkey_hash@),
        proof_bytes@.len() >= 356 ==> envelope::sha256_digest(vk_bytes@).len() == 32,
{
    if proof_bytes.len() < HEADER_LEN + GROTH16_GNARK_LEN {
        return Err(Groth16Error::InvalidProofBytes);
    }
    let vk_digest = sha256(vk_bytes);
    let mut i: usize = 0;
    while i < VK_HASH_PREFIX_LEN
        invariant
            i <= 4 <= proof_bytes@.len(),
            proof_bytes@.len() >= HEADER_LEN + GROTH16_GNARK_LEN,
            vk_digest@ == envelope::sha256_digest(vk_bytes@),
            forall|j: int| 0 <= j < i ==> vk_digest@[j] == proof_bytes@[j],
        decreases 4 - i,
    {
        if vk_digest[i] != proof_bytes[i] {
            assert(envelope::sha256_digest(vk_bytes@).take(4)[i as int] != proof_bytes@.take(
                4,
            )[i as int]);
            return Err(Groth16Error::VkHashMismatch);
        }
        i += 1;
    }
    assert(vk_digest@.take(4) =~= proof_bytes@.take(4));
    let vk = match load_vk(vk_bytes) {
        Ok(vk) => vk,
        Err(error) => {
            return Err(error);
        },
    };
    let parsed = match load_proof(vstd::slice::slice_subrange(proof_bytes, 100, 356)) {
        Ok(parsed) => parsed,
        Err(error) => {
            return Err(error);
        },
    };
    if !is_key_in_group(&vk) {
        return Err(Groth16Error::InvalidVkBytes);
    }
    let inputs_sha256 = inputs_of(proof_bytes, &hash_public_inputs(public_values), spend_vkey_hash);
    if verify_algebraic(&vk, &parsed, &inputs_sha256).is_ok() {
        return Ok(());
    }
    let inputs_b3 = inputs_of(
        proof_bytes,
        &hash_public_inputs_blake3(public_values),
        spend_vkey_hash,
    );
    verify_algebraic(&vk, &parsed, &inputs_b3)
}

/// A proof is accepted if and only if key and proof are well formed and the product of the
/// pairings of `-A` with `B`, of the inputs' point with `gamma`, of `C` with `delta` and of
/// `alpha` with `-beta` is one, for the digest of the public values by SHA-256 or for the one by
/// BLAKE3. Where it is one for neither, the failure is told.
#[verifier::spinoff_prover]
pub proof fn proof_is_accepted_where_the_pairings_cancel(
    vk_bytes: &[u8],
    proof_bytes: &[u8],
    public_values: &[u8],
    spend_vkey_hash: &[u8; 32],
    r: Result<(), Groth16Error>,
)
    requires
        call_ensures(
            verify_sp1_groth16,
            (vk_bytes, proof_bytes, public_values, spend_vkey_hash),
            r,
        ),
    ensures
        ({
            let m = bn254::scalar_modulus();
            let vk = held_key(vk_bytes@);
            let parsed = proof_outcome(proof_bytes@.subrange(100, 356))->Ok_0;
            let inputs = |digest: Seq<u8>|
                seq![
                    bn254::be_value(spend_vkey_hash@) % m,
                    bn254::be_value(digest.update(0, digest[0] % 32)) % m,
                    bn254::be_value(proof_bytes@.subrange(4, 36)) % m,
                    bn254::be_value(proof_bytes@.subrange(36, 68)) % m,
                    bn254::be_value(proof_bytes@.subrange(68, 100)) % m,
                ];
            let cancels = |digest: Seq<u8>|
                bn254::pairings_cancel(
                    seq![
                        (bn254::g1_negative(parsed.ar), parsed.bs),
                        (prepared_input(vk.k, inputs(digest)), vk.gamma),
                        (parsed.krs, vk.delta),
                        (vk.alpha, bn254::g2_negative(vk.beta)),
                    ],
                );
            let well_formed = {
                &&& proof_bytes@.len() >= 356
                &&& forall|i: int|
                    0 <= i < 4 ==> envelope::sha256_digest(vk_bytes@)[i] == #[trigger] proof_bytes@[i]
                &&& holds_key(vk_bytes@)
                &&& proof_outcome(proof_bytes@.subrange(100, 356)) is Ok
                &&& bn254::g2_valid(vk.gamma)
                &&& bn254::g2_valid(vk.delta)
                &&& bn254::g2_valid(bn254::g2_negative(vk.beta))
                &&& vk.k.len() == 6
            };
            let by_sha256 = cancels(envelope::sha256_digest(public_values@));
            let by_blake3 = cancels(blake3_digest(public_values@));
            &&& r is Ok <==> well_formed && (by_sha256 || by_blake3)
            &&& well_formed && !by_sha256 && !by_blake3 ==> r == Err::<(), Groth16Error>(
                Groth16Error::ProofVerificationFailed,
            )
        }),
{
    let digest = envelope::sha256_digest(vk_bytes@);
    if proof_bytes@.len() >= 356 {
        let a = digest.take(4);
        let b = proof_bytes@.take(4);
        if forall|i: int| 0 <= i < 4 ==> digest[i] == #[trigger] proof_bytes@[i] {
            assert(a =~= b);
        }
        if a == b {
            assert forall|i: int| 0 <= i < 4 implies digest[i] == #[trigger] proof_bytes@[i] by {
                assert(a[i] == b[i]);
            }
        }
    }
}

/// Every public input that is not zero counts, in its place: with one more input, the point is
/// the one without it, plus the key's next point times the input; a zero changes nothing; and
/// with no inputs it is the key's first point.
pub proof fn every_input_counts(k: Seq<(nat, nat)>, inputs: Seq<nat>, x: nat)
    ensures
        prepared_input(k, Seq::empty()) == k[0],
        x == 0 ==> prepared_input(k, inputs.push(x)) == prepared_input(k, inputs),
        x != 0 ==> prepared_input(k, inputs.push(x)) == bn254::g1_sum(
            prepared_input(k, inputs),
            bn254::g1_multiple(k[inputs.len() as int + 1], x),
        ),
{
    assert(inputs.push(x).drop_last() =~= inputs);
}

/// The verification equation: it needs a point of the key for each input and one more, and
/// says whether the pairings cancel.
pub proof fn equation_says_whether_pairings_cancel(
    vk: &Groth16VerifyingKey,
    parsed: &Groth16Proof,
    public_inputs: &[ScalarElement],
    r: Result<(), Groth16Error>,
)
    requires
        call_ensures(verify_algebraic, (vk, parsed, public_inputs), r),
    ensures
        public_inputs@.len() + 1 != vk.k@.len() ==> r == Err::<(), Groth16Error>(
            Groth16Error::PrepareInputsFailed,
        ),
        public_inputs@.len() + 1 == vk.k@.len() ==> {
            let pairs = seq![
                (bn254::g1_negative(parsed.ar@), parsed.bs@),
                (
                    prepared_input(
                        vk.k@.map_values(|p: G1Point| p@),
                        public_inputs@.map_values(|x: ScalarElement| x@),
                    ),
                    vk.gamma@,
                ),
                (parsed.krs@, vk.delta@),
                (vk.alpha@, bn254::g2_negative(vk.beta@)),
            ];
            r == if bn254::pairings_cancel(pairs) {
                Ok::<(), Groth16Error>(())
            } else {
                Err(Groth16Error::ProofVerificationFailed)
            }
        },
{
}

/// A key is read from its places: `alpha`, `beta` (negated), `gamma`, `delta`, the number of
/// listed points in four bytes, and that many points after it. It is read if and only if all of
/// them are there and parse.
pub proof fn key_is_read_from_its_places(buf: &[u8], r: Result<Groth16VerifyingKey, Groth16Error>)
    requires
        call_ensures(load_vk, (buf,), r),
    ensures
        ({
            let count = bn254::be_value(buf@.subrange(288, 292));
            let alpha = compressed_g1_outcome(buf@.subrange(0, 32));
            let beta = compressed_g2_outcome(buf@.subrange(64, 128));
            let gamma = compressed_g2_outcome(buf@.subrange(128, 192));
            let delta = compressed_g2_outcome(buf@.subrange(224, 288));
            let point = |i: int| compressed_g1_outcome(buf@.subrange(292 + 32 * i, 324 + 32 * i));
            &&& r is Ok <==> {
                &&& buf@.len() >= 292
                &&& buf@.len() >= 292 + 32 * count
                &&& alpha is Ok
                &&& beta is Ok
                &&& gamma is Ok
                &&& delta is Ok
                &&& forall|i: int| 0 <= i < count ==> #[trigger] point(i) is Ok
            }
            &&& r matches Ok(vk) ==> {
                &&& vk.alpha@ == alpha->Ok_0
                &&& vk.beta@ == bn254::g2_negative(beta->Ok_0)
                &&& vk.gamma@ == gamma->Ok_0
                &&& vk.delta@ == delta->Ok_0
                &&& vk.k@.len() == count
                &&& forall|i: int| 0 <= i < count ==> (#[trigger] vk.k@[i])@ == point(i)->Ok_0
            }
            &&& r matches Err(error) ==> error == Groth16Error::InvalidVkBytes
        }),
{
    let count = bn254::be_value(buf@.subrange(288, 292));
    let point = |i: int| compressed_g1_outcome(buf@.subrange(292 + 32 * i, 324 + 32 * i));
    assert forall|i: int| 0 <= i < count implies #[trigger] point(i) == compressed_g1_outcome(
        k_bytes(buf@, i),
    ) by {}
    if forall|i: int| 0 <= i < count ==> #[trigger] point(i) is Ok {
        assert forall|i: int| 0 <= i < announced_k(buf@) implies compressed_g1_outcome(
            #[trigger] k_bytes(buf@, i),
        ) is Ok by {
            assert(point(i) is Ok);
        }
    }
    if let Ok(vk) = r {
        let held = held_key(buf@);
        assert(vk@.k.len() == vk.k@.len());
        assert forall|i: int| 0 <= i < count implies (#[trigger] vk.k@[i])@ == point(i)->Ok_0 by {
            assert(vk@.k[i] == vk.k@[i]@);
            assert(held.k[i] == point(i)->Ok_0);
        }
        assert forall|i: int| 0 <= i < count implies #[trigger] point(i) is Ok by {
            assert(compressed_g1_outcome(k_bytes(buf@, i)) is Ok);
        }
    }
}

/// A proof is read from its places: `A` in 64 bytes, `B` in 128 and `C` in 64, with nothing
/// else; the first of them that does not parse is told.
pub proof fn proof_is_read_from_its_places(buf: &[u8], r: Result<Groth16Proof, Groth16Error>)
    requires
        call_ensures(load_proof, (buf,), r),
    ensures
        ({
            let a = uncompressed_g1_outcome(buf@.subrange(0, 64));
            let b = uncompressed_g2_outcome(buf@.subrange(64, 192));
            let c = uncompressed_g1_outcome(buf@.subrange(192, 256));
            &&& r is Ok <==> buf@.len() == 256 && a is Ok && b is Ok && c is Ok
            &&& r matches Ok(parsed) ==> {
                &&& parsed.ar@ == a->Ok_0
                &&& parsed.bs@ == b->Ok_0
                &&& parsed.krs@ == c->Ok_0
            }
            &&& buf@.len() != 256 ==> r->Err_0 == Groth16Error::InvalidProofBytes
            &&& buf@.len() == 256 && a is Err ==> r->Err_0 == a->Err_0
            &&& buf@.len() == 256 && a is Ok && b is Err ==> r->Err_0 == b->Err_0
            &&& buf@.len() == 256 && a is Ok && b is Ok && c is Err ==> r->Err_0 == c->Err_0
        }),
{
    if let Ok(parsed) = r {
        assert(parsed@.ar == parsed.ar@ && parsed@.bs == parsed.bs@ && parsed@.krs == parsed.krs@);
    }
}

/// An uncompressed point is read if and only if it is two field elements that satisfy the
/// curve's equation, and it has these coordinates.
pub proof fn uncompressed_point_is_its_coordinates(buf: &[u8], r: Result<G1Point, Groth16Error>)
    requires
        call_ensures(uncompressed_g1, (buf,), r),
    ensures
        ({
            let x = bn254::be_value(buf@.subrange(0, 32));
            let y = bn254::be_value(buf@.subrange(32, 64));
            let p = bn254::base_modulus();
            &&& r is Ok <==> buf@.len() == 64 && x < p && y < p && (y * y) % p == (x * x * x + 3)
                % p
            &&& r matches Ok(point) ==> point@ == (x, y)
            &&& buf@.len() != 64 ==> r->Err_0 == Groth16Error::InvalidProofBytes
            &&& buf@.len() == 64 && (x >= p || y >= p) ==> r->Err_0 == Groth16Error::FieldError
            &&& buf@.len() == 64 && x < p && y < p && r is Err ==> r->Err_0
                == Groth16Error::GroupError
        }),
{
}

/// An uncompressed point of the second group is read if and only if it is four field elements
/// that make a member of the group, and it has these coordinates, imaginary parts first.
pub proof fn uncompressed_second_point_is_its_coordinates(
    buf: &[u8],
    r: Result<G2Point, Groth16Error>,
)
    requires
        call_ensures(uncompressed_g2, (buf,), r),
    ensures
        ({
            let at = |i: int| bn254::be_value(buf@.subrange(32 * i, 32 * i + 32));
            let p = bn254::base_modulus();
            let canonical = at(0) < p && at(1) < p && at(2) < p && at(3) < p;
            &&& r is Ok <==> buf@.len() == 128 && canonical && bn254::g2_member(
                (at(1), at(0)),
                (at(3), at(2)),
            )
            &&& r matches Ok(point) ==> point@ == ((at(1), at(0)), (at(3), at(2)))
            &&& buf@.len() != 128 ==> r->Err_0 == Groth16Error::InvalidProofBytes
            &&& buf@.len() == 128 && !canonical ==> r->Err_0 == Groth16Error::FieldError
            &&& buf@.len() == 128 && canonical && r is Err ==> r->Err_0 == Groth16Error::GroupError
        }),
{
}

/// The digest of public values keeps all bits of the hash but the topmost three, which are
/// cleared, so it stays below 2 to the power 253.
pub proof fn digests_lose_three_bits(
    pv: &[u8],
    by_sha256: [u8; 32],
    by_blake3: [u8; 32],
    i: int,
)
    requires
        call_ensures(hash_public_inputs, (pv,), by_sha256),
        call_ensures(hash_public_inputs_blake3, (pv,), by_blake3),
        0 < i < 32,
    ensures
        by_sha256@[0] == envelope::sha256_digest(pv@)[0] % 32,
        by_blake3@[0] == blake3_digest(pv@)[0] % 32,
        by_sha256@[i] == envelope::sha256_digest(pv@)[i],
        by_blake3@[i] == blake3_digest(pv@)[i],
{
}

/// A proof that is accepted satisfies the verification equation, for one of the two digests of
/// the public values; one that satisfies it for neither is refused.
pub proof fn accepted_proof_satisfies_the_equation(
    vk_bytes: &[u8],
    proof_bytes: &[u8],
    public_values: &[u8],
    spend_vkey_hash: &[u8; 32],
    r: Result<(), Groth16Error>,
)
    requires
        call_ensures(
            verify_sp1_groth16,
            (vk_bytes, proof_bytes, public_values, spend_vkey_hash),
            r,
        ),
    ensures
        ({
            let vk = held_key(vk_bytes@);
            let parsed = proof_outcome(proof_bytes@.subrange(100, 356))->Ok_0;
            let by_sha256 = verification_pairs(
                vk,
                parsed,
                circuit_inputs(
                    proof_bytes@,
                    masked(envelope::sha256_digest(public_values@)),
                    spend_vkey_hash@,
                ),
            );
            let by_blake3 = verification_pairs(
                vk,
                parsed,
                circuit_inputs(
                    proof_bytes@,
                    masked(blake3_digest(public_values@)),
                    spend_vkey_hash@,
                ),
            );
            &&& r is Ok ==> bn254::pairings_cancel(by_sha256) || bn254::pairings_cancel(by_blake3)
            &&& !bn254::pairings_cancel(by_sha256) && !bn254::pairings_cancel(by_blake3) ==> r
                is Err
        }),
{
}

/// The pairs of the verification equation: `-A` with `B`, the inputs' point with `gamma`, `C`
/// with `delta`, and `alpha` with `-beta`.
pub proof fn equation_has_four_pairs(vk: KeyView, parsed: ProofView, inputs: Seq<nat>)
    ensures
        ({
            let pairs = verification_pairs(vk, parsed, inputs);
            &&& pairs.len() == 4
            &&& pairs[0] == (bn254::g1_negative(parsed.ar), parsed.bs)
            &&& pairs[1] == (prepared_input(vk.k, inputs), vk.gamma)
            &&& pairs[2] == (parsed.krs, vk.delta)
            &&& pairs[3] == (vk.alpha, bn254::g2_negative(vk.beta))
        }),
{
}

/// What is wrong with a proof is told in this order: its length, the hash of the key, the key,
/// the proof itself, a point of the key outside its group, and the number of inputs.
pub proof fn failures_are_told_in_order(
    vk_bytes: &[u8],
    proof_bytes: &[u8],
    public_values: &[u8],
    spend_vkey_hash: &[u8; 32],
    r: Result<(), Groth16Error>,
)
    requires
        call_ensures(
            verify_sp1_groth16,
            (vk_bytes, proof_bytes, public_values, spend_vkey_hash),
            r,
        ),
    ensures
        ({
            let long = proof_bytes@.len() >= 356;
            let hashed = long && envelope::sha256_digest(vk_bytes@).take(4) == proof_bytes@.take(4);
            let keyed = hashed && holds_key(vk_bytes@);
            let outcome = proof_outcome(proof_bytes@.subrange(100, 356));
            let parsed = keyed && outcome is Ok;
            let grouped = parsed && key_in_group(held_key(vk_bytes@));
            &&& !long ==> r->Err_0 == Groth16Error::InvalidProofBytes
            &&& long && !hashed ==> r->Err_0 == Groth16Error::VkHashMismatch
            &&& hashed && !keyed ==> r->Err_0 == Groth16Error::InvalidVkBytes
            &&& keyed && !parsed ==> r->Err_0 == outcome->Err_0
            &&& parsed && !grouped ==> r->Err_0 == Groth16Error::InvalidVkBytes
            &&& grouped && held_key(vk_bytes@).k.len() != 6 ==> r->Err_0
                == Groth16Error::PrepareInputsFailed
        }),
{
}

/// The flag of a compressed point is in the top two bits of its first byte: set and clear for
/// the smaller root, both set for the larger one, clear and set for the identity.
pub proof fn flag_is_in_the_top_two_bits(b: u8, r: Option<Flag>)
    requires
        call_ensures(Flag::from_byte, (b,), r),
    ensures
        r == Some(Flag::Positive) <==> 128 <= b < 192,
        r == Some(Flag::Negative) <==> 192 <= b,
        r == Some(Flag::Infinity) <==> 64 <= b < 128,
        r is None <==> b < 64,
{
}

/// An error's name is how it is written.
pub proof fn errors_are_named_as_written(error: &Groth16Error, r: &'static str)
    requires
        call_ensures(Groth16Error::name, (error,), r),
    ensures
        *error is InvalidProofBytes ==> r@ == "InvalidProofBytes"@,
        *error is InvalidVkBytes ==> r@ == "InvalidVkBytes"@,
        *error is VkHashMismatch ==> r@ == "VkHashMismatch"@,
        *error is VkeyHashMismatch ==> r@ == "VkeyHashMismatch"@,
        *error is PrepareInputsFailed ==> r@ == "PrepareInputsFailed"@,
        *error is ProofVerificationFailed ==> r@ == "ProofVerificationFailed"@,
        *error is FieldError ==> r@ == "FieldError"@,
        *error is GroupError ==> r@ == "GroupError"@,
{
}

/// The first coordinate of a compressed point is the number that its lowest 254 bits write,
/// reduced: the flag takes the other two and no more.
pub proof fn flag_takes_two_bits_of_the_coordinate(
    buf: &[u8],
    r: Result<G1Point, Groth16Error>,
)
    requires
        call_ensures(compressed_g1, (buf,), r),
        r is Ok,
    ensures
        buf@.len() == 32,
        r->Ok_0@.0 == (bn254::be_value(buf@) % pow2(254)) % bn254::base_modulus(),
        (r->Ok_0@.1 * r->Ok_0@.1) % bn254::base_modulus() == (r->Ok_0@.0 * r->Ok_0@.0
            * r->Ok_0@.0 + 3) % bn254::base_modulus(),
        buf@[0] >= 192 ==> 2 * r->Ok_0@.1 >= bn254::base_modulus() || r->Ok_0@.1 == 0,
        buf@[0] < 192 ==> 2 * r->Ok_0@.1 <= bn254::base_modulus(),
{
    let b = buf@;
    let cut = without_flag(b);
    bn254::first_byte_is_the_highest_digit(b);
    bn254::first_byte_is_the_highest_digit(cut);
    assert(cut.drop_first() =~= b.drop_first());
    let p = pow2(248);
    let high = (b[0] / 64) as int;
    let low = (b[0] % 64) as int;
    let rest = bn254::be_value(b.drop_first()) as int;
    vstd::arithmetic::power2::lemma2_to64();
    vstd::arithmetic::power2::lemma_pow2_adds(6, 248);
    vstd::arithmetic::power2::lemma_pow2_pos(254);
    assert(b[0] as int == 64 * high + low);
    let whole = bn254::be_value(b) as int;
    let kept = bn254::be_value(cut) as int;
    assert(whole == high * pow2(254) + kept) by (nonlinear_arith)
        requires
            whole == b[0] as int * p + rest,
            kept == low * p + rest,
            b[0] as int == 64 * high + low,
            pow2(254) == 64 * p,
    ;
    assert(kept < pow2(254)) by (nonlinear_arith)
        requires
            kept == low * p + rest,
            rest < p,
            low <= 63,
            pow2(254) == 64 * p,
    ;
    vstd::arithmetic::div_mod::lemma_fundamental_div_mod_converse(
        whole,
        pow2(254) as int,
        high,
        kept,
    );
    let x = r->Ok_0@.0;
    bn254::g1_roots_solve_the_equation(x);
}

} // verus!
