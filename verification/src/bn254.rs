//! Values of the BN254 pairing: field elements as 32 big-endian bytes, points as
//! coordinates.
//!
//! The identity of either group is held as the coordinates `(0, 1)`, which lie on
//! neither curve.

use vstd::prelude::*;
use vstd::arithmetic::div_mod::lemma_mod_multiples_vanish;
use vstd::arithmetic::power2::pow2;
use substrate_bn_succinct_rs as bn;

verus! {

/// The number whose base-256 digits are `bytes`, most significant first.
pub open spec fn be_value(bytes: Seq<u8>) -> nat
    decreases bytes.len(),
{
    if bytes.len() == 0 {
        0
    } else {
        be_value(bytes.drop_last()) * 256 + bytes.last() as nat
    }
}

/// The order of the base field.
pub open spec fn base_modulus() -> nat {
    21888242871839275222246405745257275088696311157297823662689037894645226208583nat
}

/// The order of the scalar field.
pub open spec fn scalar_modulus() -> nat {
    21888242871839275222246405745257275088548364400416034343698204186575808495617nat
}

/// An element of the base field.
#[derive(Clone, Copy, Debug)]
pub struct BaseElement {
    pub(crate) bytes: [u8; 32],
}

/// An element of the scalar field.
#[derive(Clone, Copy, Debug)]
pub struct ScalarElement {
    pub(crate) bytes: [u8; 32],
}

impl View for BaseElement {
    type V = nat;

    closed spec fn view(&self) -> nat {
        be_value(self.bytes@)
    }
}

impl View for ScalarElement {
    type V = nat;

    closed spec fn view(&self) -> nat {
        be_value(self.bytes@)
    }
}

impl BaseElement {
    /// Every element is held by its representative below the modulus.
    #[verifier::type_invariant]
    pub open spec fn canonical(self) -> bool {
        self@ < base_modulus()
    }

    /// The 32 big-endian bytes of the representative.
    pub fn to_bytes(&self) -> (r: [u8; 32])
        ensures
            be_value(r@) == self@,
    {
        self.bytes
    }

    /// Whether the element is the given small number.
    fn is_small(&self, digit: u8) -> (r: bool)
        ensures
            r == (self@ == digit),
    {
        let ghost high = self.bytes@.drop_last();
        proof {
            lemma_be_value_zero(high);
        }
        let mut i: usize = 0;
        while i < 31
            invariant
                i <= 31,
                high == self.bytes@.drop_last(),
                be_value(high) == 0 <==> forall|j: int| 0 <= j < high.len() ==> high[j] == 0,
                forall|j: int| 0 <= j < i ==> high[j] == 0,
            decreases 31 - i,
        {
            if self.bytes[i] != 0 {
                assert(high[i as int] != 0);
                return false;
            }
            i += 1;
        }
        self.bytes[31] == digit
    }
}

impl ScalarElement {
    /// Every element is held by its representative below the modulus.
    #[verifier::type_invariant]
    pub open spec fn canonical(self) -> bool {
        self@ < scalar_modulus()
    }

    /// The 32 big-endian bytes of the representative.
    pub fn to_bytes(&self) -> (r: [u8; 32])
        ensures
            be_value(r@) == self@,
    {
        self.bytes
    }

    /// Whether the element is zero.
    pub fn is_zero(&self) -> (r: bool)
        ensures
            r == (self@ == 0),
    {
        let mut i: usize = 0;
        let ghost zeros = self.bytes@;
        while i < 32
            invariant
                i <= 32,
                zeros == self.bytes@,
                forall|j: int| 0 <= j < i ==> zeros[j] == 0,
            decreases 32 - i,
        {
            if self.bytes[i] != 0 {
                proof {
                    lemma_be_value_zero(zeros);
                }
                return false;
            }
            i += 1;
        }
        proof {
            lemma_be_value_zero(zeros);
        }
        true
    }
}

/// A number is zero if and only if all its digits are.
proof fn lemma_be_value_zero(bytes: Seq<u8>)
    ensures
        be_value(bytes) == 0 <==> forall|i: int| 0 <= i < bytes.len() ==> bytes[i] == 0,
    decreases bytes.len(),
{
    if bytes.len() > 0 {
        let shorter = bytes.drop_last();
        lemma_be_value_zero(shorter);
        if be_value(bytes) == 0 {
            assert forall|i: int| 0 <= i < bytes.len() implies bytes[i] == 0 by {
                if i < shorter.len() {
                    assert(shorter[i] == bytes[i]);
                }
            }
        }
    }
}

/// Coordinates of a point of the first group.
#[derive(Clone, Copy, Debug)]
pub struct G1Point {
    pub(crate) x: BaseElement,
    pub(crate) y: BaseElement,
}

/// Coordinates of a point of the second curve. Each is `real + imaginary * i`. They need not
/// be those of a point of the second group.
#[derive(Clone, Copy, Debug)]
pub struct G2Point {
    pub(crate) x_real: BaseElement,
    pub(crate) x_imaginary: BaseElement,
    pub(crate) y_real: BaseElement,
    pub(crate) y_imaginary: BaseElement,
}

impl View for G1Point {
    type V = (nat, nat);

    closed spec fn view(&self) -> (nat, nat) {
        (self.x@, self.y@)
    }
}

impl View for G2Point {
    type V = ((nat, nat), (nat, nat));

    closed spec fn view(&self) -> ((nat, nat), (nat, nat)) {
        ((self.x_real@, self.x_imaginary@), (self.y_real@, self.y_imaginary@))
    }
}

/// The equation `y^2 = x^3 + 3` of the first group's curve.
pub open spec fn g1_equation(x: nat, y: nat) -> bool {
    (y * y) % base_modulus() == (x * x * x + 3) % base_modulus()
}

/// The coordinates are those of a point of the first group.
pub open spec fn g1_valid(point: (nat, nat)) -> bool {
    point == (0nat, 1nat) || g1_equation(point.0, point.1)
}

/// The product of two elements `real + imaginary * i` of the second curve's field.
pub open spec fn fq2_product(a: (nat, nat), b: (nat, nat)) -> (nat, nat) {
    (
        ((a.0 * b.0 - a.1 * b.1) % base_modulus() as int) as nat,
        (a.0 * b.1 + a.1 * b.0) % base_modulus(),
    )
}

/// The sum of two elements of the second curve's field.
pub open spec fn fq2_sum(a: (nat, nat), b: (nat, nat)) -> (nat, nat) {
    ((a.0 + b.0) % base_modulus(), (a.1 + b.1) % base_modulus())
}

/// The negative of an element of the second curve's field.
pub open spec fn fq2_negative(a: (nat, nat)) -> (nat, nat) {
    (base_negative(a.0), base_negative(a.1))
}

/// The constant of the second curve's equation.
pub open spec fn g2_constant() -> (nat, nat) {
    (
        19485874751759354771024239261021720505790618469301721065564631296452457478373nat,
        266929791119991161246907387137283842545076965332900288569378510910307636690nat,
    )
}

/// The equation `y^2 = x^3 + b` of the second curve.
pub open spec fn g2_equation(x: (nat, nat), y: (nat, nat)) -> bool {
    fq2_product(y, y) == fq2_sum(fq2_product(fq2_product(x, x), x), g2_constant())
}

/// The coordinates are those of a point of the second group other than the identity: they
/// satisfy the equation of its curve and lie in the subgroup of prime order.
pub uninterp spec fn g2_member(x: (nat, nat), y: (nat, nat)) -> bool;

/// The coordinates are those of a point of the second group.
pub open spec fn g2_valid(point: ((nat, nat), (nat, nat))) -> bool {
    point == ((0nat, 0nat), (1nat, 0nat)) || g2_member(point.0, point.1)
}

/// A root of the first curve's equation at `x`.
pub open spec fn is_g1_root(x: nat, y: nat) -> bool {
    y < base_modulus() && g1_equation(x, y)
}

/// The smallest root of the first curve's equation at `x`.
pub open spec fn is_least_g1_root(x: nat, y: nat) -> bool {
    is_g1_root(x, y) && forall|z: nat| #[trigger] is_g1_root(x, z) ==> y <= z
}

/// The two roots of the first curve's equation at `x`, where there are any: the smallest one
/// and its negative.
pub open spec fn g1_roots(x: nat) -> Option<(nat, nat)> {
    if exists|y: nat| is_g1_root(x, y) {
        let least = choose|y: nat| is_least_g1_root(x, y);
        Some((least, base_negative(least)))
    } else {
        None
    }
}

/// A root of the second curve's equation at `x`.
pub open spec fn is_g2_root(x: (nat, nat), y: (nat, nat)) -> bool {
    y.0 < base_modulus() && y.1 < base_modulus() && g2_equation(x, y)
}

/// The order of the second curve's field: by the imaginary part, then by the real one.
pub open spec fn fq2_at_most(a: (nat, nat), b: (nat, nat)) -> bool {
    a.1 < b.1 || a.1 == b.1 && a.0 <= b.0
}

/// The smallest root of the second curve's equation at `x`.
pub open spec fn is_least_g2_root(x: (nat, nat), y: (nat, nat)) -> bool {
    is_g2_root(x, y) && forall|z: (nat, nat)| #[trigger] is_g2_root(x, z) ==> fq2_at_most(y, z)
}

/// The two roots of the second curve's equation at `x`, where there are any: the smallest one
/// and its negative.
pub open spec fn g2_roots(x: (nat, nat)) -> Option<((nat, nat), (nat, nat))> {
    if exists|y: (nat, nat)| is_g2_root(x, y) {
        let least = choose|y: (nat, nat)| is_least_g2_root(x, y);
        Some((least, fq2_negative(least)))
    } else {
        None
    }
}

/// Where there is a root there is a smallest one.
proof fn lemma_least_g1_root(x: nat, y: nat)
    requires
        is_g1_root(x, y),
    ensures
        exists|least: nat| is_least_g1_root(x, least),
    decreases y,
{
    if exists|z: nat| z < y && is_g1_root(x, z) {
        let z = choose|z: nat| z < y && is_g1_root(x, z);
        lemma_least_g1_root(x, z);
    } else {
        assert(is_least_g1_root(x, y));
    }
}

/// Where there is a root there is a smallest one.
proof fn lemma_least_g2_root(x: (nat, nat), y: (nat, nat))
    requires
        is_g2_root(x, y),
    ensures
        exists|least: (nat, nat)| is_least_g2_root(x, least),
    decreases y.1, y.0,
{
    if exists|z: (nat, nat)| !fq2_at_most(y, z) && is_g2_root(x, z) {
        let z = choose|z: (nat, nat)| !fq2_at_most(y, z) && is_g2_root(x, z);
        lemma_least_g2_root(x, z);
    } else {
        assert(is_least_g2_root(x, y));
    }
}

/// A negative is a multiple of the modulus less the element.
proof fn lemma_base_negative(a: nat) -> (k: int)
    requires
        a < base_modulus(),
    ensures
        base_negative(a) == k * base_modulus() - a,
        base_negative(a) < base_modulus(),
{
    if a == 0 {
        vstd::arithmetic::div_mod::lemma_mod_self_0(base_modulus() as int);
        0
    } else {
        vstd::arithmetic::div_mod::lemma_small_mod(
            (base_modulus() - a) as nat,
            base_modulus(),
        );
        1
    }
}

/// The product of two negatives is that of the elements, but for a multiple of the modulus.
proof fn lemma_product_of_negatives(a: nat, b: nat) -> (c: int)
    requires
        a < base_modulus(),
        b < base_modulus(),
    ensures
        base_negative(a) * base_negative(b) == base_modulus() * c + a * b,
{
    let p = base_modulus() as int;
    let k = lemma_base_negative(a);
    let l = lemma_base_negative(b);
    let c = k * l * p - k * b - l * a;
    assert((k * p - a) * (l * p - b) == (k * p) * (l * p) - (k * p) * b - a * (l * p) + a * b)
        by (nonlinear_arith);
    assert(p * c == (k * p) * (l * p) - (k * p) * b - a * (l * p)) by (nonlinear_arith)
        requires
            c == k * l * p - k * b - l * a,
    ;
    c
}

/// A root of the first curve's equation and its negative are both roots.
pub(crate) proof fn lemma_g1_root_negated(x: nat, y: nat)
    requires
        is_g1_root(x, y),
    ensures
        is_g1_root(x, base_negative(y)),
{
    let _k = lemma_base_negative(y);
    let c = lemma_product_of_negatives(y, y);
    lemma_mod_multiples_vanish(c, (y * y) as int, base_modulus() as int);
}

/// A root of the second curve's equation and its negative are both roots.
pub(crate) proof fn lemma_g2_root_negated(x: (nat, nat), y: (nat, nat))
    requires
        is_g2_root(x, y),
    ensures
        is_g2_root(x, fq2_negative(y)),
{
    let p = base_modulus() as int;
    let _k = lemma_base_negative(y.0);
    let _l = lemma_base_negative(y.1);
    let m = base_negative(y.0);
    let n = base_negative(y.1);
    let c = lemma_product_of_negatives(y.0, y.0);
    let d = lemma_product_of_negatives(y.1, y.1);
    let e = lemma_product_of_negatives(y.0, y.1);
    assert(p * c - p * d == p * (c - d)) by (nonlinear_arith);
    assert(p * e + p * e == p * (2 * e)) by (nonlinear_arith);
    assert(n * m == m * n && y.1 * y.0 == y.0 * y.1) by (nonlinear_arith);
    lemma_mod_multiples_vanish(c - d, y.0 * y.0 - y.1 * y.1, p);
    lemma_mod_multiples_vanish(2 * e, (y.0 * y.1 + y.1 * y.0) as int, p);
}

/// What [`g1_roots`] gives are roots, each the negative of the other, the smaller one first,
/// and it gives some wherever there is one.
pub proof fn g1_roots_solve_the_equation(x: nat)
    ensures
        g1_roots(x) is Some == exists|y: nat| is_g1_root(x, y),
        g1_roots(x) matches Some((smaller, larger)) ==> {
            &&& is_g1_root(x, smaller)
            &&& is_g1_root(x, larger)
            &&& larger == base_negative(smaller)
            &&& smaller <= larger
        },
{
    if exists|y: nat| is_g1_root(x, y) {
        let y = choose|y: nat| is_g1_root(x, y);
        lemma_least_g1_root(x, y);
        let least = choose|y: nat| is_least_g1_root(x, y);
        lemma_g1_root_negated(x, least);
    }
}

/// What [`g2_roots`] gives are roots, each the negative of the other, the smaller one first,
/// and it gives some wherever there is one.
pub proof fn g2_roots_solve_the_equation(x: (nat, nat))
    ensures
        g2_roots(x) is Some == exists|y: (nat, nat)| is_g2_root(x, y),
        g2_roots(x) matches Some((smaller, larger)) ==> {
            &&& is_g2_root(x, smaller)
            &&& is_g2_root(x, larger)
            &&& larger == fq2_negative(smaller)
            &&& fq2_at_most(smaller, larger)
        },
{
    if exists|y: (nat, nat)| is_g2_root(x, y) {
        let y = choose|y: (nat, nat)| is_g2_root(x, y);
        lemma_least_g2_root(x, y);
        let least = choose|y: (nat, nat)| is_least_g2_root(x, y);
        lemma_g2_root_negated(x, least);
    }
}

/// Two elements that are all the roots there are, the smaller one first, are what
/// [`g1_roots`] gives.
pub(crate) proof fn lemma_are_g1_roots(x: nat, smaller: nat, larger: nat)
    requires
        is_g1_root(x, smaller),
        larger == base_negative(smaller),
        smaller <= larger,
        forall|y: nat| #[trigger] is_g1_root(x, y) ==> y == smaller || y == larger,
    ensures
        g1_roots(x) == Some((smaller, larger)),
{
    assert(is_least_g1_root(x, smaller));
    let least = choose|y: nat| is_least_g1_root(x, y);
    assert(is_least_g1_root(x, least));
    assert(least <= smaller && smaller <= least);
}

/// Two elements that are all the roots there are, the smaller one first, are what
/// [`g2_roots`] gives.
pub(crate) proof fn lemma_are_g2_roots(x: (nat, nat), smaller: (nat, nat), larger: (nat, nat))
    requires
        is_g2_root(x, smaller),
        larger == fq2_negative(smaller),
        fq2_at_most(smaller, larger),
        forall|y: (nat, nat)| #[trigger] is_g2_root(x, y) ==> y == smaller || y == larger,
    ensures
        g2_roots(x) == Some((smaller, larger)),
{
    assert(is_least_g2_root(x, smaller));
    let least = choose|y: (nat, nat)| is_least_g2_root(x, y);
    assert(is_least_g2_root(x, least));
    assert(fq2_at_most(least, smaller) && fq2_at_most(smaller, least));
}

/// The sum of two points of the first group.
pub uninterp spec fn g1_sum(a: (nat, nat), b: (nat, nat)) -> (nat, nat);

/// The multiple of a point of the first group by a scalar.
pub uninterp spec fn g1_multiple(point: (nat, nat), scalar: nat) -> (nat, nat);

/// The product of the pairings of points is one.
pub uninterp spec fn pairings_cancel(
    pairs: Seq<((nat, nat), ((nat, nat), (nat, nat)))>,
) -> bool;

/// The negative of a base field element.
pub open spec fn base_negative(a: nat) -> nat {
    (base_modulus() - a) as nat % base_modulus()
}

impl G1Point {
    /// The coordinates are those of a point of the group.
    #[verifier::type_invariant]
    pub open spec fn valid(self) -> bool {
        g1_valid(self@)
    }
}

/// The point of the first group with coordinates that satisfy its equation.
pub(crate) fn g1_at(x: BaseElement, y: BaseElement) -> (r: G1Point)
    requires
        g1_equation(x@, y@),
    ensures
        r@ == (x@, y@),
{
    G1Point { x, y }
}

/// The point with the given coordinates, as they are.
pub(crate) fn g2_at(x: (BaseElement, BaseElement), y: (BaseElement, BaseElement)) -> (r: G2Point)
    ensures
        r@ == ((x.0@, x.1@), (y.0@, y.1@)),
{
    G2Point { x_real: x.0, x_imaginary: x.1, y_real: y.0, y_imaginary: y.1 }
}

/// Whether coordinates are those of a point of the second group.
pub(crate) fn is_in_second_group(point: &G2Point) -> (r: bool)
    ensures
        r == g2_valid(point@),
{
    if point.x_real.is_small(0) && point.x_imaginary.is_small(0) && point.y_real.is_small(1)
        && point.y_imaginary.is_small(0) {
        return true;
    }
    g2_from_coordinates(&point.x_real, &point.x_imaginary, &point.y_real, &point.y_imaginary)
        .is_some()
}

/// `Fq::from_slice` of `substrate-bn`: the big-endian number of 32 bytes, where it is
/// below the modulus.
#[verifier::external_body]
pub(crate) fn base_from_slice(bytes: &[u8]) -> (r: Option<BaseElement>)
    requires
        bytes@.len() == 32,
    ensures
        r is Some == (be_value(bytes@) < base_modulus()),
        r matches Some(x) ==> x@ == be_value(bytes@),
{
    let element = bn::Fq::from_slice(bytes).ok()?;
    let mut out = [0u8; 32];
    element.to_big_endian(&mut out).unwrap();
    Some(BaseElement { bytes: out })
}

/// `Fq::from_be_bytes_mod_order` of `substrate-bn`: the big-endian number, reduced.
#[verifier::external_body]
pub(crate) fn base_from_slice_mod_order(bytes: &[u8]) -> (r: BaseElement)
    ensures
        r@ == be_value(bytes@) % base_modulus(),
{
    let mut out = [0u8; 32];
    bn::Fq::from_be_bytes_mod_order(bytes).unwrap().to_big_endian(&mut out).unwrap();
    BaseElement { bytes: out }
}

/// `Fr::from_slice` of `substrate-bn`: the big-endian number of 32 bytes, reduced.
#[verifier::external_body]
pub(crate) fn scalar_from_slice(bytes: &[u8]) -> (r: ScalarElement)
    requires
        bytes@.len() == 32,
    ensures
        r@ == be_value(bytes@) % scalar_modulus(),
{
    let mut out = [0u8; 32];
    bn::Fr::from_slice(bytes).unwrap().into_u256().to_big_endian(&mut out).unwrap();
    ScalarElement { bytes: out }
}

/// `AffineG1::new` of `substrate-bn`: it accepts the coordinates that satisfy the curve's
/// equation.
#[verifier::external_body]
pub(crate) fn g1_from_coordinates(x: &BaseElement, y: &BaseElement) -> (r: Option<G1Point>)
    ensures
        r is Some == g1_equation(x@, y@),
        r matches Some(point) ==> point@ == (x@, y@),
{
    let a = bn::Fq::from_slice(&x.bytes).unwrap();
    let b = bn::Fq::from_slice(&y.bytes).unwrap();
    bn::AffineG1::new(a, b).ok().map(|_| G1Point { x: *x, y: *y })
}

/// `AffineG2::new` of `substrate-bn`: it accepts coordinates that satisfy the curve's
/// equation and lie in the subgroup of prime order. Which these are depends on the
/// coordinates alone; the multiplication by the group's order is not written out here.
#[verifier::external_body]
pub(crate) fn g2_from_coordinates(
    x_real: &BaseElement,
    x_imaginary: &BaseElement,
    y_real: &BaseElement,
    y_imaginary: &BaseElement,
) -> (r: Option<G2Point>)
    ensures
        r is Some == g2_member((x_real@, x_imaginary@), (y_real@, y_imaginary@)),
        r is Some ==> g2_equation((x_real@, x_imaginary@), (y_real@, y_imaginary@)),
        r matches Some(point) ==> point@ == ((x_real@, x_imaginary@), (y_real@, y_imaginary@)),
{
    let lift = |e: &BaseElement| bn::Fq::from_slice(&e.bytes).unwrap();
    let x = bn::Fq2::new(lift(x_real), lift(x_imaginary));
    let y = bn::Fq2::new(lift(y_real), lift(y_imaginary));
    bn::AffineG2::new(x, y).ok().map(
        |_| G2Point {
            x_real: *x_real,
            x_imaginary: *x_imaginary,
            y_real: *y_real,
            y_imaginary: *y_imaginary,
        },
    )
}

/// `AffineG1::get_ys_from_x_unchecked` of `substrate-bn`: the two roots of the curve's
/// equation, the smaller one first, and nothing where there is no root. Each is the negative
/// of the other, and there is no third.
#[verifier::external_body]
pub(crate) fn g1_roots_at(x: &BaseElement) -> (r: Option<(BaseElement, BaseElement)>)
    ensures
        r is Some == exists|y: nat| is_g1_root(x@, y),
        r matches Some((a, b)) ==> {
            &&& is_g1_root(x@, a@)
            &&& b@ == base_negative(a@)
            &&& a@ <= b@
            &&& forall|y: nat| #[trigger] is_g1_root(x@, y) ==> y == a@ || y == b@
        },
{
    let (a, b) = bn::AffineG1::get_ys_from_x_unchecked(bn::Fq::from_slice(&x.bytes).unwrap())?;
    let (mut first, mut second) = ([0u8; 32], [0u8; 32]);
    a.to_big_endian(&mut first).unwrap();
    b.to_big_endian(&mut second).unwrap();
    Some((BaseElement { bytes: first }, BaseElement { bytes: second }))
}

/// `AffineG2::get_ys_from_x_unchecked` of `substrate-bn`: the two roots of the curve's
/// equation, the smaller one first, and nothing where there is no root. Each is the negative
/// of the other, and there is no third. Elements are ordered by their imaginary parts, then by
/// their real ones.
#[verifier::external_body]
pub(crate) fn g2_roots_at(x_real: &BaseElement, x_imaginary: &BaseElement) -> (r: Option<
    ((BaseElement, BaseElement), (BaseElement, BaseElement)),
>)
    ensures
        r is Some == exists|y: (nat, nat)| is_g2_root((x_real@, x_imaginary@), y),
        r matches Some((a, b)) ==> {
            &&& is_g2_root((x_real@, x_imaginary@), (a.0@, a.1@))
            &&& (b.0@, b.1@) == fq2_negative((a.0@, a.1@))
            &&& fq2_at_most((a.0@, a.1@), (b.0@, b.1@))
            &&& forall|y: (nat, nat)| #[trigger]
                is_g2_root((x_real@, x_imaginary@), y) ==> y == (a.0@, a.1@) || y == (b.0@, b.1@)
        },
{
    let lift = |e: &BaseElement| bn::Fq::from_slice(&e.bytes).unwrap();
    let lower = |e: bn::Fq| {
        let mut out = [0u8; 32];
        e.to_big_endian(&mut out).unwrap();
        BaseElement { bytes: out }
    };
    let x = bn::Fq2::new(lift(x_real), lift(x_imaginary));
    let (a, b) = bn::AffineG2::get_ys_from_x_unchecked(x)?;
    Some(
        (
            (lower(a.real()), lower(a.imaginary())),
            (lower(b.real()), lower(b.imaginary())),
        ),
    )
}

/// `+` of `substrate-bn` on points of the first group: a point of the group that depends
/// on the two points alone. The group law itself is not written out here.
#[verifier::external_body]
pub(crate) fn g1_plus(a: &G1Point, b: &G1Point) -> (r: G1Point)
    ensures
        r@ == g1_sum(a@, b@),
{
    let lift = |e: &BaseElement| bn::Fq::from_slice(&e.bytes).unwrap();
    let sum = bn::AffineG1::new_unchecked(lift(&a.x), lift(&a.y))
        + bn::AffineG1::new_unchecked(lift(&b.x), lift(&b.y));
    let (mut x, mut y) = ([0u8; 32], [0u8; 32]);
    sum.x().to_big_endian(&mut x).unwrap();
    sum.y().to_big_endian(&mut y).unwrap();
    G1Point { x: BaseElement { bytes: x }, y: BaseElement { bytes: y } }
}

/// `*` of `substrate-bn` on a point of the first group and a scalar: a point of the group
/// that depends on the two alone. The group law itself is not written out here.
#[verifier::external_body]
pub(crate) fn g1_times(point: &G1Point, scalar: &ScalarElement) -> (r: G1Point)
    ensures
        r@ == g1_multiple(point@, scalar@),
{
    let lift = |e: &BaseElement| bn::Fq::from_slice(&e.bytes).unwrap();
    let multiple = bn::AffineG1::new_unchecked(lift(&point.x), lift(&point.y))
        * bn::Fr::from_slice(&scalar.bytes).unwrap();
    let (mut x, mut y) = ([0u8; 32], [0u8; 32]);
    multiple.x().to_big_endian(&mut x).unwrap();
    multiple.y().to_big_endian(&mut y).unwrap();
    G1Point { x: BaseElement { bytes: x }, y: BaseElement { bytes: y } }
}

/// The contents of pairs of points.
pub open spec fn pair_views(pairs: Seq<(G1Point, G2Point)>) -> Seq<
    ((nat, nat), ((nat, nat), (nat, nat))),
> {
    pairs.map_values(|p: (G1Point, G2Point)| (p.0@, p.1@))
}

/// `pairing_batch` of `substrate-bn`, compared with `Gt::one()`: whether the pairings of
/// the points multiply to one depends on the points alone. It panics where the product
/// before the final exponentiation is zero, so all points must be of the groups. The pairing
/// itself is not written out here.
#[verifier::external_body]
pub(crate) fn pairing_product_is_one(pairs: &[(G1Point, G2Point)]) -> (r: bool)
    requires
        forall|i: int| 0 <= i < pairs@.len() ==> g2_valid((#[trigger] pairs@[i]).1@),
    ensures
        r == pairings_cancel(pair_views(pairs@)),
{
    let lift = |e: &BaseElement| bn::Fq::from_slice(&e.bytes).unwrap();
    let points: Vec<(bn::G1, bn::G2)> = pairs.iter().map(
        |(p, q)| {
            let x = bn::Fq2::new(lift(&q.x_real), lift(&q.x_imaginary));
            let y = bn::Fq2::new(lift(&q.y_real), lift(&q.y_imaginary));
            let first = bn::AffineG1::new_unchecked(lift(&p.x), lift(&p.y));
            (first.into(), bn::AffineG2::new_unchecked(x, y).into())
        },
    ).collect();
    bn::pairing_batch(&points) == bn::Gt::one()
}

/// The negative of a point of the first group.
pub open spec fn g1_negative(point: (nat, nat)) -> (nat, nat) {
    if point == (0nat, 1nat) {
        point
    } else {
        (point.0, base_negative(point.1))
    }
}

/// The negative of a point of the second curve.
pub open spec fn g2_negative(point: ((nat, nat), (nat, nat))) -> ((nat, nat), (nat, nat)) {
    if point == ((0nat, 0nat), (1nat, 0nat)) {
        point
    } else {
        (point.0, (base_negative(point.1.0), base_negative(point.1.1)))
    }
}


/// Unary `-` of `substrate-bn` on points of the first group: the second coordinate is
/// negated, and the identity stays.
#[verifier::external_body]
pub(crate) fn g1_negated(point: &G1Point) -> (r: G1Point)
    ensures
        r@ == g1_negative(point@),
{
    let lift = |e: &BaseElement| bn::Fq::from_slice(&e.bytes).unwrap();
    let negative = -bn::AffineG1::new_unchecked(lift(&point.x), lift(&point.y));
    let mut y = [0u8; 32];
    negative.y().to_big_endian(&mut y).unwrap();
    G1Point { x: point.x, y: BaseElement { bytes: y } }
}

/// Unary `-` of `substrate-bn` on points of the second curve: the second coordinate is
/// negated, and the identity stays.
#[verifier::external_body]
pub(crate) fn g2_negated(point: &G2Point) -> (r: G2Point)
    ensures
        r@ == g2_negative(point@),
{
    let lift = |e: &BaseElement| bn::Fq::from_slice(&e.bytes).unwrap();
    let x = bn::Fq2::new(lift(&point.x_real), lift(&point.x_imaginary));
    let y = bn::Fq2::new(lift(&point.y_real), lift(&point.y_imaginary));
    let negative = -bn::AffineG2::new_unchecked(x, y);
    let (mut re, mut im) = ([0u8; 32], [0u8; 32]);
    negative.y().real().to_big_endian(&mut re).unwrap();
    negative.y().imaginary().to_big_endian(&mut im).unwrap();
    G2Point {
        y_real: BaseElement { bytes: re },
        y_imaginary: BaseElement { bytes: im },
        ..*point
    }
}

/// `AffineG2::zero` of `substrate-bn`: the identity of the second group.
#[verifier::external_body]
pub(crate) fn g2_identity() -> (r: G2Point)
    ensures
        r@ == ((0nat, 0nat), (1nat, 0nat)),
{
    let point = bn::AffineG2::zero();
    let lower = |e: bn::Fq| {
        let mut out = [0u8; 32];
        e.to_big_endian(&mut out).unwrap();
        BaseElement { bytes: out }
    };
    let (x, y) = (point.x(), point.y());
    G2Point {
        x_real: lower(x.real()),
        x_imaginary: lower(x.imaginary()),
        y_real: lower(y.real()),
        y_imaginary: lower(y.imaginary()),
    }
}

/// Bytes write a number in base 256, the most significant first: one more byte multiplies it by
/// 256 and is added.
pub proof fn one_more_byte_is_the_lowest_digit(bytes: Seq<u8>, b: u8)
    ensures
        be_value(Seq::empty()) == 0,
        be_value(bytes.push(b)) == 256 * be_value(bytes) + b,
{
    assert(bytes.push(b).drop_last() =~= bytes);
}

/// The first byte counts with 256 to the power of the number of bytes behind it.
pub proof fn first_byte_is_the_highest_digit(bytes: Seq<u8>)
    requires
        bytes.len() > 0,
    ensures
        be_value(bytes) == bytes[0] * pow2((8 * (bytes.len() - 1)) as nat) + be_value(
            bytes.drop_first(),
        ),
        be_value(bytes.drop_first()) < pow2((8 * (bytes.len() - 1)) as nat),
    decreases bytes.len(),
{
    vstd::arithmetic::power2::lemma2_to64();
    if bytes.len() == 1 {
        assert(bytes.drop_last().len() == 0 && bytes.drop_first().len() == 0);
        assert(be_value(bytes.drop_last()) == 0 && be_value(bytes.drop_first()) == 0);
        assert(bytes[0] * pow2(0) == bytes[0]) by (nonlinear_arith)
            requires
                pow2(0) == 1,
        ;
    } else {
        let shorter = bytes.drop_last();
        first_byte_is_the_highest_digit(shorter);
        assert(bytes.drop_first().drop_last() =~= shorter.drop_first());
        assert(bytes.drop_first().last() == bytes.last());
        let e = (8 * (shorter.len() - 1)) as nat;
        vstd::arithmetic::power2::lemma_pow2_adds(8, e);
        let p = pow2(e);
        let first = bytes[0] as int;
        assert((first * p) * 256 == first * (256 * p)) by (nonlinear_arith);
        assert(e + 8 == 8 * (bytes.len() - 1));
        assert(pow2((8 * (bytes.len() - 1)) as nat) == 256 * p);
        assert(be_value(bytes) == be_value(shorter) * 256 + bytes.last());
    }
}

} // verus!
