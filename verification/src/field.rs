//! The two prime fields of the MNT4/MNT6-753 curve cycle.
//!
//! [`Fr`] is the scalar field of MNT4-753, which is also the base field of
//! MNT6-753: the data model lives in it. [`OwnerScalar`] is the scalar field of
//! MNT6-753, in which coin-ownership secrets live. Both hold the canonical
//! representative of an element as twelve little-endian limbs; the view of an
//! element is that representative as a natural number.

use vstd::prelude::*;
use ark_ff::{BigInt, BigInteger, PrimeField};
use vstd::arithmetic::power2::pow2;
use crate::limbs;
use crate::limbs::{limbs_equal, limbs_less};

verus! {

/// The order of the scalar field of MNT4-753.
pub open spec fn fr_modulus() -> nat {
    41898490967918953402344214791240637128170709919953949071783502921025352812571106773058893763790338921418070971888458477323173057491593855069696241854796396165721416325350064441470418137846398469611935719059908164220784476160001nat
}

/// The order of the scalar field of MNT6-753.
pub open spec fn owner_modulus() -> nat {
    41898490967918953402344214791240637128170709919953949071783502921025352812571106773058893763790338921418070971888253786114353726529584385201591605722013126468931404347949840543007986327743462853720628051692141265303114721689601nat
}

/// An element of the canonical data-model field.
#[derive(Clone, Copy, Debug)]
pub struct Fr {
    pub(crate) limbs: [u64; 12],
}

/// A coin-ownership secret: an element of the scalar field of MNT6-753.
#[derive(Clone, Copy, Debug)]
pub struct OwnerScalar {
    pub(crate) limbs: [u64; 12],
}

impl View for Fr {
    type V = nat;

    closed spec fn view(&self) -> nat {
        limbs::limbs_value(self.limbs@)
    }
}

impl View for OwnerScalar {
    type V = nat;

    closed spec fn view(&self) -> nat {
        limbs::limbs_value(self.limbs@)
    }
}

/// The representatives of a sequence of field elements.
pub open spec fn fr_values(s: Seq<Fr>) -> Seq<nat> {
    s.map_values(|x: Fr| x@)
}

impl Fr {
    /// Every element is held by its representative below the modulus.
    #[verifier::type_invariant]
    pub open spec fn canonical(self) -> bool {
        self@ < fr_modulus()
    }

    /// The additive identity.
    pub fn zero() -> (r: Fr)
        ensures
            r@ == 0,
    {
        Fr::from(0u64)
    }

    /// Whether the representative of `self` is below that of `other`.
    pub fn less_than(&self, other: &Fr) -> (r: bool)
        ensures
            r == (self@ < other@),
    {
        limbs_less(&self.limbs, &other.limbs)
    }

    /// The canonical limbs, least significant first.
    pub fn to_limbs(&self) -> (r: [u64; 12])
        ensures
            limbs::limbs_value(r@) == self@,
    {
        self.limbs
    }

    /// The element with the given canonical limbs; `None` where they write a
    /// number that is not below the modulus.
    pub fn from_limbs(limbs: [u64; 12]) -> (r: Option<Fr>)
        ensures
            r is Some == (limbs::limbs_value(limbs@) < fr_modulus()),
            r matches Some(x) ==> x@ == limbs::limbs_value(limbs@),
    {
        let modulus: [u64; 12] = [
            0xd90776e240000001,
            0x4ea099170fa13a4f,
            0xd6c381bc3f005797,
            0xb9dff97634993aa4,
            0x3eebca9429212636,
            0xb26c5c28c859a99b,
            0x99d124d9a15af79d,
            0x07fdb925e8a0ed8d,
            0x5eb7e8f96c97d873,
            0xb7f997505b8fafed,
            0x10229022eee2cdad,
            0x0001c4c62d92c411,
        ];
        proof {
            limbs::lemma_value_of_twelve(modulus@);
        }
        if limbs_less(&limbs, &modulus) {
            Some(Fr { limbs })
        } else {
            None
        }
    }
}

impl From<u64> for Fr {
    fn from(value: u64) -> (r: Fr)
        ensures
            r@ == value,
    {
        let limbs: [u64; 12] = [value, 0, 0, 0, 0, 0, 0, 0, 0, 0, 0, 0];
        proof {
            limbs::lemma_value_of_twelve(limbs@);
        }
        Fr { limbs }
    }
}

impl vstd::std_specs::convert::FromSpecImpl<u64> for Fr {
    open spec fn obeys_from_spec() -> bool {
        true
    }

    closed spec fn from_spec(value: u64) -> Fr {
        Fr { limbs: [value, 0, 0, 0, 0, 0, 0, 0, 0, 0, 0, 0] }
    }
}

impl PartialEq for Fr {
    fn eq(&self, other: &Fr) -> (r: bool) {
        limbs_equal(&self.limbs, &other.limbs)
    }
}

impl vstd::std_specs::cmp::PartialEqSpecImpl for Fr {
    open spec fn obeys_eq_spec() -> bool {
        true
    }

    open spec fn eq_spec(&self, other: &Fr) -> bool {
        self@ == other@
    }
}

impl Eq for Fr {}

impl OwnerScalar {
    /// Every element is held by its representative below the modulus.
    #[verifier::type_invariant]
    pub open spec fn canonical(self) -> bool {
        self@ < owner_modulus()
    }

    /// The canonical limbs, least significant first.
    pub fn to_limbs(&self) -> (r: [u64; 12])
        ensures
            limbs::limbs_value(r@) == self@,
    {
        self.limbs
    }

    /// The element with the given canonical limbs; `None` where they write a
    /// number that is not below the modulus.
    pub fn from_limbs(limbs: [u64; 12]) -> (r: Option<OwnerScalar>)
        ensures
            r is Some == (limbs::limbs_value(limbs@) < owner_modulus()),
            r matches Some(x) ==> x@ == limbs::limbs_value(limbs@),
    {
        let modulus: [u64; 12] = [
            0x5e9063de245e8001,
            0xe39d54522cdd119f,
            0x638810719ac425f0,
            0x685acce9767254a4,
            0xb80f0da5cb537e38,
            0xb117e776f218059d,
            0x99d124d9a15af79d,
            0x07fdb925e8a0ed8d,
            0x5eb7e8f96c97d873,
            0xb7f997505b8fafed,
            0x10229022eee2cdad,
            0x0001c4c62d92c411,
        ];
        proof {
            limbs::lemma_value_of_twelve(modulus@);
        }
        if limbs_less(&limbs, &modulus) {
            Some(OwnerScalar { limbs })
        } else {
            None
        }
    }
}

impl From<u64> for OwnerScalar {
    fn from(value: u64) -> (r: OwnerScalar)
        ensures
            r@ == value,
    {
        let limbs: [u64; 12] = [value, 0, 0, 0, 0, 0, 0, 0, 0, 0, 0, 0];
        proof {
            limbs::lemma_value_of_twelve(limbs@);
        }
        OwnerScalar { limbs }
    }
}

impl vstd::std_specs::convert::FromSpecImpl<u64> for OwnerScalar {
    open spec fn obeys_from_spec() -> bool {
        true
    }

    closed spec fn from_spec(value: u64) -> OwnerScalar {
        OwnerScalar { limbs: [value, 0, 0, 0, 0, 0, 0, 0, 0, 0, 0, 0] }
    }
}

impl PartialEq for OwnerScalar {
    fn eq(&self, other: &OwnerScalar) -> (r: bool) {
        limbs_equal(&self.limbs, &other.limbs)
    }
}

impl vstd::std_specs::cmp::PartialEqSpecImpl for OwnerScalar {
    open spec fn obeys_eq_spec() -> bool {
        true
    }

    open spec fn eq_spec(&self, other: &OwnerScalar) -> bool {
        self@ == other@
    }
}

impl Eq for OwnerScalar {}


/// The number whose binary digits are `bits`, least significant first.
pub open spec fn bits_value(bits: Seq<bool>) -> nat
    decreases bits.len(),
{
    if bits.len() == 0 {
        0
    } else {
        bits_value(bits.drop_last()) + if bits.last() {
            pow2((bits.len() - 1) as nat)
        } else {
            0
        }
    }
}

/// The number whose base-256 digits are `bytes`, least significant first.
pub open spec fn bytes_value(bytes: Seq<u8>) -> nat
    decreases bytes.len(),
{
    if bytes.len() == 0 {
        0
    } else {
        bytes[0] as nat + 256 * bytes_value(bytes.drop_first())
    }
}

/// `+` of `ark_ff::Fp` on the scalar field of MNT4-753: the sum of the
/// representatives, reduced.
#[verifier::external_body]
pub(crate) fn fr_plus(a: Fr, b: Fr) -> (r: Fr)
    ensures
        r@ == (a@ + b@) % fr_modulus(),
{
    let x = ark_mnt4_753::Fr::from_bigint(BigInt(a.limbs)).unwrap();
    let y = ark_mnt4_753::Fr::from_bigint(BigInt(b.limbs)).unwrap();
    Fr { limbs: (x + y).into_bigint().0 }
}

/// `*` of `ark_ff::Fp` on the scalar field of MNT4-753: the product of the
/// representatives, reduced.
#[verifier::external_body]
pub(crate) fn fr_times(a: Fr, b: Fr) -> (r: Fr)
    ensures
        r@ == (a@ * b@) % fr_modulus(),
{
    let x = ark_mnt4_753::Fr::from_bigint(BigInt(a.limbs)).unwrap();
    let y = ark_mnt4_753::Fr::from_bigint(BigInt(b.limbs)).unwrap();
    Fr { limbs: (x * y).into_bigint().0 }
}

/// Unary `-` of `ark_ff::Fp` on the scalar field of MNT4-753: the element
/// that gives zero when added.
#[verifier::external_body]
pub(crate) fn fr_negated(a: Fr) -> (r: Fr)
    ensures
        r@ == (fr_modulus() - a@) as nat % fr_modulus(),
{
    Fr { limbs: (-ark_mnt4_753::Fr::from_bigint(BigInt(a.limbs)).unwrap()).into_bigint().0 }
}

/// `ark_ff::PrimeField::from_le_bytes_mod_order` for the scalar field of
/// MNT4-753: the little-endian number, reduced.
#[verifier::external_body]
pub(crate) fn fr_from_le_bytes_mod_order(bytes: &[u8]) -> (r: Fr)
    ensures
        r@ == bytes_value(bytes@) % fr_modulus(),
{
    Fr { limbs: ark_mnt4_753::Fr::from_le_bytes_mod_order(bytes).into_bigint().0 }
}

/// `ark_ff::BigInteger::from_bits_le` for twelve limbs: the number that the bits write,
/// least significant first. Bits beyond the 768th would be lost, so there must be none.
#[verifier::external_body]
pub(crate) fn limbs_from_bits_le(bits: &[bool]) -> (r: [u64; 12])
    requires
        bits@.len() <= 768,
    ensures
        limbs::limbs_value(r@) == bits_value(bits@),
{
    BigInt::<12>::from_bits_le(bits).0
}

/// `ark_ff::BigInteger::to_bits_le` on twelve limbs: all 768 binary digits,
/// least significant first, whatever the number.
#[verifier::external_body]
pub(crate) fn limbs_to_bits_le(limbs: [u64; 12]) -> (r: Vec<bool>)
    ensures
        r@.len() == 768,
        bits_value(r@) == limbs::limbs_value(limbs@),
{
    BigInt(limbs).to_bits_le()
}

} // verus!
