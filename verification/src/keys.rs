//! Coin-ownership keys.
//!
//! The ownership keypair lives on the first group of MNT6-753. Its base field is
//! the scalar field of MNT4-753, the defining property of the curve cycle, so the
//! coordinates of a public key are elements of the data-model field and enter a
//! hash as they are. The secret is an element of another field and is folded (see
//! [`crate::poseidon::fold_owner_scalar`]) wherever it enters a hash.

use vstd::prelude::*;
use ark_ec::{AffineRepr, CurveGroup, PrimeGroup};
use ark_ff::{BigInt, PrimeField};
use crate::field;
use crate::field::{Fr, OwnerScalar};

verus! {

/// A point of the first group of MNT6-753.
#[derive(Clone, Copy, Debug)]
pub enum OwnerPk {
    /// The identity of the group.
    Infinity,
    /// A point given by its coordinates.
    Point { x: Fr, y: Fr },
}

impl View for OwnerPk {
    type V = Option<(nat, nat)>;

    open spec fn view(&self) -> Option<(nat, nat)> {
        match *self {
            OwnerPk::Infinity => None,
            OwnerPk::Point { x, y } => Some((x@, y@)),
        }
    }
}

impl PartialEq for OwnerPk {
    fn eq(&self, other: &OwnerPk) -> (r: bool) {
        match *self {
            OwnerPk::Infinity => match *other {
                OwnerPk::Infinity => true,
                OwnerPk::Point { .. } => false,
            },
            OwnerPk::Point { x, y } => match *other {
                OwnerPk::Infinity => false,
                OwnerPk::Point { x: other_x, y: other_y } => x == other_x && y == other_y,
            },
        }
    }
}

impl vstd::std_specs::cmp::PartialEqSpecImpl for OwnerPk {
    open spec fn obeys_eq_spec() -> bool {
        true
    }

    open spec fn eq_spec(&self, other: &OwnerPk) -> bool {
        self@ == other@
    }
}

impl Eq for OwnerPk {}

/// The coefficient `b` of the curve `y^2 = x^3 + 11 x + b`.
pub open spec fn curve_coefficient_b() -> nat {
    11625908999541321152027340224010374716841167701783584648338908235410859267060079819722747939267925389062611062156601938166010098747920378738927832658133625454260115409075816187555055859490253375704728027944315501122723426879114nat
}

/// A point lies on MNT6-753: it is the identity, or its coordinates are
/// canonical and satisfy the curve's equation.
pub open spec fn on_curve(point: Option<(nat, nat)>) -> bool {
    match point {
        None => true,
        Some((x, y)) => {
            &&& x < field::fr_modulus()
            &&& y < field::fr_modulus()
            &&& (y * y) % field::fr_modulus() == (x * x * x + 11 * x + curve_coefficient_b())
                % field::fr_modulus()
        },
    }
}

/// The coordinates of the fixed generator of the group.
pub open spec fn curve_generator() -> (nat, nat) {
    (
        3458420969484235708806261200128850544017070333833944116801482064540723268149235477762870414664917360605949659630933184751526227993647030875167687492714052872195770088225183259051403087906158701786758441889742618916006546636728nat,
        27460508402331965149626600224382137254502975979168371111640924721589127725376473514838234361114855175488242007431439074223827742813911899817930728112297763448010814764117701403540298764970469500339646563344680868495474127850569nat,
    )
}

/// The multiple of the generator by a scalar.
pub uninterp spec fn owner_point(scalar: nat) -> Option<(nat, nat)>;

/// `G1Projective::generator() * sk`, brought to affine form by `into_affine`, of
/// `ark-mnt6-753`: a point of the curve that depends on the scalar alone. Zero
/// gives the identity and one gives the generator; the group law itself is not
/// written out here.
#[verifier::external_body]
fn generator_multiple(sk: &OwnerScalar) -> (r: OwnerPk)
    ensures
        r@ == owner_point(sk@),
        on_curve(r@),
        sk@ == 0 ==> r@ is None,
        sk@ == 1 ==> r@ == Some(curve_generator()),
{
    let scalar = ark_mnt6_753::Fr::from_bigint(BigInt(sk.limbs)).unwrap();
    match (ark_mnt6_753::G1Projective::generator() * scalar).into_affine().xy() {
        Some((x, y)) => OwnerPk::Point {
            x: Fr { limbs: x.into_bigint().0 },
            y: Fr { limbs: y.into_bigint().0 },
        },
        None => OwnerPk::Infinity,
    }
}

/// Coin-ownership key derivation: the multiple of the generator by `sk`.
pub fn derive_owner_pk(sk: &OwnerScalar) -> (r: OwnerPk)
    ensures
        r@ == owner_point(sk@),
        on_curve(r@),
        sk@ == 0 ==> r@ is None,
        sk@ == 1 ==> r@ == Some(curve_generator()),
{
    generator_multiple(sk)
}

/// The coordinates of a point, with `(0, 0)` for the identity.
pub open spec fn coordinates(point: Option<(nat, nat)>) -> (nat, nat) {
    match point {
        Some(pair) => pair,
        None => (0, 0),
    }
}

/// The two coordinates of a public key as field elements. The identity, which
/// only a malformed key is, maps to `(0, 0)`: no point of the curve has these
/// coordinates.
pub fn owner_pk_to_field_pair(pk: &OwnerPk) -> (r: (Fr, Fr))
    ensures
        (r.0@, r.1@) == coordinates(pk@),
{
    match *pk {
        OwnerPk::Point { x, y } => (x, y),
        OwnerPk::Infinity => (Fr::from(0u64), Fr::from(0u64)),
    }
}

/// The genesis secret. Zero would give the identity, which is no valid public
/// key, so genesis uses one.
pub fn genesis_sk() -> (r: OwnerScalar)
    ensures
        r@ == 1,
{
    OwnerScalar::from(1u64)
}

/// The genesis public key: the generator itself.
pub fn genesis_pk() -> (r: OwnerPk)
    ensures
        r@ == owner_point(1),
        r@ == Some(curve_generator()),
        on_curve(r@),
{
    derive_owner_pk(&genesis_sk())
}

/// The pair that stands for the identity is not on the curve, so hashing the
/// identity's coordinates never coincides with hashing those of a real key.
pub proof fn identity_pair_is_off_curve()
    ensures
        !on_curve(Some((0, 0))),
{
    assert(curve_coefficient_b() % field::fr_modulus() == curve_coefficient_b());
    assert(0nat * 0nat * 0nat == 0) by (nonlinear_arith);
}

/// A key on the curve is determined by its two coordinates, the identity's pair among them.
pub proof fn coordinates_determine_key(a: &OwnerPk, b: &OwnerPk, x: (Fr, Fr), y: (Fr, Fr))
    requires
        call_ensures(owner_pk_to_field_pair, (a,), x),
        call_ensures(owner_pk_to_field_pair, (b,), y),
        on_curve(a@),
        on_curve(b@),
        x.0@ == y.0@,
        x.1@ == y.1@,
    ensures
        a@ == b@,
{
    identity_pair_is_off_curve();
}

/// The coordinates of a key are the two that it holds, and two zeros for the identity.
pub proof fn coordinates_are_those_held(pk: &OwnerPk, r: (Fr, Fr))
    requires
        call_ensures(owner_pk_to_field_pair, (pk,), r),
    ensures
        pk@ matches Some((x, y)) ==> r.0@ == x && r.1@ == y,
        pk@ is None ==> r.0@ == 0 && r.1@ == 0,
{
}

/// The genesis key is the key of the genesis secret, which is one.
pub proof fn genesis_key_is_that_of_the_secret(sk: OwnerScalar, pk: OwnerPk, derived: OwnerPk)
    requires
        call_ensures(genesis_sk, (), sk),
        call_ensures(genesis_pk, (), pk),
        call_ensures(derive_owner_pk, (&sk,), derived),
    ensures
        sk@ == 1,
        pk@ == derived@,
        pk@ is Some,
{
}

} // verus!
