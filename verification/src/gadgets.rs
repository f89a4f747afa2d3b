//! The parts that circuits are put together from. Each computes in a circuit what a
//! function elsewhere in the library computes on values.

use vstd::prelude::*;
use vstd::arithmetic::power2::pow2;
use crate::coin;
use crate::coin::Coin;
use crate::constraints;
use crate::constraints::{canonical_bits, ConstraintBackend, Step, Variables, FIELD_BITS};
use crate::field;
use crate::field::{Fr, OwnerScalar};
use crate::keys;
use crate::keys::owner_pk_to_field_pair;
use crate::limbs;
use crate::merkle;
use crate::merkle::TREE_DEPTH;
use crate::nullifier;
use crate::nullifier::NonMembershipWitness;
use crate::poseidon;

verus! {

/// The same step, taken `n` times.
pub open spec fn repeated(s: Seq<Step>, step: Step, n: nat) -> Seq<Step>
    decreases n,
{
    if n == 0 {
        s
    } else {
        repeated(s, step, (n - 1) as nat).push(step)
    }
}

/// The items in the opposite order.
fn reversed<T>(items: Vec<T>) -> (r: Vec<T>)
    ensures
        r@ == items@.reverse(),
{
    let mut rest = items;
    let mut out: Vec<T> = Vec::new();
    let ghost all = items@;
    assert(out@ =~= all.skip(all.len() as int).reverse());
    while rest.len() > 0
        invariant
            rest@.len() <= all.len(),
            rest@ == all.take(rest@.len() as int),
            out@ == all.skip(rest@.len() as int).reverse(),
        decreases rest@.len(),
    {
        let ghost n = rest@.len() as int;
        match rest.pop() {
            Some(item) => {
                out.push(item);
                proof {
                    assert(item == all[n - 1]);
                    assert(rest@ =~= all.take(n - 1));
                    assert(out@ =~= all.skip(n - 1).reverse());
                }
            },
            None => {},
        }
    }
    assert(all.skip(0) =~= all);
    out
}

/// The lowest bit of a number and the number without it.
pub proof fn lemma_lowest_bit(bits: Seq<bool>)
    requires
        bits.len() > 0,
    ensures
        field::bits_value(bits) % 2 == if bits[0] {
            1nat
        } else {
            0nat
        },
        field::bits_value(bits) / 2 == field::bits_value(bits.drop_first()),
{
    vstd::arithmetic::power2::lemma2_to64();
    poseidon::lemma_bits_value_split(bits, 1);
    assert(bits.skip(1) =~= bits.drop_first());
    let low = bits.take(1);
    assert(low.drop_last().len() == 0);
    assert(low.last() == bits[0]);
    assert(field::bits_value(low.drop_last()) == 0);
    assert(field::bits_value(low) == if bits[0] {
        1nat
    } else {
        0nat
    });
    let high = field::bits_value(bits.drop_first());
    let b: nat = if bits[0] {
        1
    } else {
        0
    };
    let place: nat = pow2(1int as nat);
    assert(place * high == 2 * high) by (nonlinear_arith)
        requires
            place == 2,
    ;
    let value: nat = field::bits_value(bits);
    assert(value == b + 2 * high);
    assert(value % 2 == b && value / 2 == high) by (nonlinear_arith)
        requires
            value == b + 2 * high,
            b <= 1,
    ;
}

/// Comparing bits from the most significant down compares the numbers.
pub proof fn lemma_bits_below_compares(a: Seq<bool>, b: Seq<bool>)
    requires
        a.len() == b.len(),
    ensures
        constraints::bits_below(a.reverse(), b.reverse()) == (field::bits_value(a)
            < field::bits_value(b)),
    decreases a.len(),
{
    if a.len() > 0 {
        let n = (a.len() - 1) as nat;
        let ra = a.reverse();
        let rb = b.reverse();
        assert(ra.drop_first() =~= a.drop_last().reverse());
        assert(rb.drop_first() =~= b.drop_last().reverse());
        assert(ra[0] == a.last() && rb[0] == b.last());
        lemma_bits_below_compares(a.drop_last(), b.drop_last());
        poseidon::lemma_bits_value_bound(a.drop_last());
        poseidon::lemma_bits_value_bound(b.drop_last());
    }
}

/// A walk of `n` steps looks at the `n` low bits of the slot alone.
pub proof fn lemma_walk_uses_low_bits(leaf: nat, slot: nat, path: Seq<nat>)
    ensures
        merkle::path_root(leaf, slot % pow2(path.len()), path) == merkle::path_root(
            leaf,
            slot,
            path,
        ),
    decreases path.len(),
{
    if path.len() > 0 {
        let n = (path.len() - 1) as nat;
        let m = pow2(path.len());
        vstd::arithmetic::power2::lemma_pow2_unfold(path.len());
        vstd::arithmetic::power2::lemma_pow2_pos(n);
        assert(m == 2 * pow2(n));
        vstd::arithmetic::div_mod::lemma_mod_breakdown(slot as int, 2, pow2(n) as int);
        let low = slot % m;
        assert(low == 2 * ((slot / 2) % pow2(n)) + slot % 2);
        assert(low % 2 == slot % 2);
        assert(low / 2 == (slot / 2) % pow2(n));
        let up = merkle::parent(leaf, slot, path[0]);
        let rest = path.drop_first();
        assert(rest.len() == n);
        lemma_walk_uses_low_bits(up, slot / 2, rest);
        assert(merkle::parent(leaf, low, path[0]) == up);
        assert(merkle::path_root(leaf, low, path) == merkle::path_root(up, low / 2, rest));
        assert(merkle::path_root(leaf, slot, path) == merkle::path_root(up, slot / 2, rest));
        assert(merkle::path_root(leaf, low, path) == merkle::path_root(leaf, slot, path));
    } else {
        vstd::arithmetic::power2::lemma_pow2_pos(path.len());
    }
}

/// The Poseidon hash of two variables.
fn hash2_var<B: ConstraintBackend>(cs: &mut B, a: &B::Fp, b: &B::Fp) -> (r: B::Fp)
    ensures
        constraints::undisturbed(*old(cs), *final(cs)),
        final(cs).shape() == old(cs).shape().push(Step::Hash(2)),
        constraints::reliable(*final(cs)) ==> B::fp(r) == poseidon::poseidon(
            seq![B::fp(*a), B::fp(*b)],
        ),
{
    let mut list: Vec<&B::Fp> = Vec::new();
    list.push(a);
    list.push(b);
    assert(constraints::referenced_values::<B>(list@) =~= seq![B::fp(*a), B::fp(*b)]);
    cs.hash(&list)
}

/// The Poseidon hash of variables.
pub fn hash_list_var<B: ConstraintBackend>(cs: &mut B, values: &Vec<B::Fp>) -> (r: B::Fp)
    ensures
        constraints::undisturbed(*old(cs), *final(cs)),
        final(cs).shape() == old(cs).shape().push(Step::Hash(values@.len())),
        constraints::reliable(*final(cs)) ==> B::fp(r) == poseidon::poseidon(
            constraints::fp_values::<B>(values@),
        ),
{
    let mut list: Vec<&B::Fp> = Vec::new();
    let mut i: usize = 0;
    while i < values.len()
        invariant
            i <= values@.len(),
            list@.len() == i,
            forall|j: int| 0 <= j < i ==> *(#[trigger] list@[j]) == values@[j],
        decreases values@.len() - i,
    {
        list.push(&values[i]);
        i += 1;
    }
    assert(constraints::referenced_values::<B>(list@) =~= constraints::fp_values::<B>(values@));
    cs.hash(&list)
}

/// The first `k` pieces of `len` bits, each read as a number.
pub open spec fn pieces_shape(s: Seq<Step>, len: nat, k: nat) -> Seq<Step>
    decreases k,
{
    if k == 0 {
        s
    } else {
        let start = 248 * (k - 1);
        pieces_shape(s, len, (k - 1) as nat).push(
            Step::FromBits(
                if len - start > 248 {
                    248nat
                } else {
                    (len - start) as nat
                },
            ),
        )
    }
}

/// The steps of [`fold_bits_le_var`].
pub open spec fn fold_shape(s: Seq<Step>, len: nat) -> Seq<Step> {
    let count = poseidon::piece_count(len, 248);
    pieces_shape(s, len, count).push(Step::Hash(count))
}

/// Fold bits into field elements, 248 at a time, and hash them.
pub fn fold_bits_le_var<B: ConstraintBackend>(cs: &mut B, bits: &Vec<B::Bit>) -> (r: B::Fp)
    ensures
        constraints::undisturbed(*old(cs), *final(cs)),
        final(cs).shape() == fold_shape(old(cs).shape(), bits@.len()),
        constraints::reliable(*final(cs)) ==> B::fp(r) == poseidon::poseidon(
            poseidon::bits_elements(constraints::bit_values::<B>(bits@)),
        ),
{
    let ghost values = constraints::bit_values::<B>(bits@);
    let mut elements: Vec<B::Fp> = Vec::new();
    let mut start: usize = 0;
    while start < bits.len()
        invariant
            constraints::undisturbed(*old(cs), *cs),
            cs.shape() == pieces_shape(old(cs).shape(), bits@.len(), elements@.len()),
            start <= bits@.len(),
            values == constraints::bit_values::<B>(bits@),
            start == bits@.len() || start == 248 * elements@.len(),
            elements@.len() <= poseidon::piece_count(bits@.len(), 248),
            start == bits@.len() ==> elements@.len() == poseidon::piece_count(bits@.len(), 248),
            constraints::reliable(*cs) ==> forall|k: int|
                0 <= k < elements@.len() ==> B::fp(#[trigger] elements@[k]) == field::bits_value(
                    poseidon::piece(values, 248, k),
                ),
        decreases bits@.len() - start,
    {
        let end: usize = if bits.len() - start > 248 {
            start + 248
        } else {
            bits.len()
        };
        let part = vstd::slice::slice_subrange(bits.as_slice(), start, end);
        proof {
            poseidon::lemma_piece_bounds(bits@.len(), 248, elements@.len());
            poseidon::lemma_piece_bounds(bits@.len(), 248, elements@.len() + 1);
            assert(poseidon::piece(values, 248, elements@.len() as int)
                =~= constraints::bit_values::<B>(part@));
        }
        let element = cs.bits_to_fp(part);
        elements.push(element);
        start = end;
    }
    proof {
        if constraints::reliable(*cs) {
            assert(constraints::fp_values::<B>(elements@) =~= poseidon::bits_elements(values));
        }
    }
    hash_list_var(cs, &elements)
}

/// The steps of a walk up `n` levels.
pub open spec fn walk_shape(s: Seq<Step>, n: nat) -> Seq<Step>
    decreases n,
{
    if n == 0 {
        s
    } else {
        walk_shape(s, (n - 1) as nat).push(Step::Select).push(Step::Select).push(Step::Hash(2))
    }
}

/// Walk a path from a leaf to the root. The slot is given by its bits: which side a node
/// stands on is selected in the circuit.
pub fn compute_root_from_path_var<B: ConstraintBackend>(
    cs: &mut B,
    leaf: B::Fp,
    slot_bits_le: &[B::Bit],
    path: &Vec<B::Fp>,
) -> (r: B::Fp)
    requires
        slot_bits_le@.len() == path@.len(),
    ensures
        constraints::undisturbed(*old(cs), *final(cs)),
        final(cs).shape() == walk_shape(old(cs).shape(), path@.len()),
        constraints::reliable(*final(cs)) ==> B::fp(r) == merkle::path_root(
            B::fp(leaf),
            constraints::number::<B>(slot_bits_le@),
            constraints::fp_values::<B>(path@),
        ),
{
    let ghost bits = constraints::bit_values::<B>(slot_bits_le@);
    let ghost siblings = constraints::fp_values::<B>(path@);
    let ghost goal = merkle::path_root(
        B::fp(leaf),
        constraints::number::<B>(slot_bits_le@),
        siblings,
    );
    let mut current = leaf;
    let mut i: usize = 0;
    assert(bits.skip(0) =~= bits && siblings.skip(0) =~= siblings);
    while i < path.len()
        invariant
            constraints::undisturbed(*old(cs), *cs),
            cs.shape() == walk_shape(old(cs).shape(), i as nat),
            i <= path@.len() == slot_bits_le@.len(),
            bits == constraints::bit_values::<B>(slot_bits_le@),
            siblings == constraints::fp_values::<B>(path@),
            constraints::reliable(*cs) ==> merkle::path_root(
                B::fp(current),
                field::bits_value(bits.skip(i as int)),
                siblings.skip(i as int),
            ) == goal,
        decreases path@.len() - i,
    {
        proof {
            let rest = bits.skip(i as int);
            lemma_lowest_bit(rest);
            assert(rest[0] == B::bit(slot_bits_le@[i as int]));
            assert(rest.drop_first() =~= bits.skip(i + 1));
            assert(siblings.skip(i as int)[0] == B::fp(path@[i as int]));
            assert(siblings.skip(i as int).drop_first() =~= siblings.skip(i + 1));
        }
        let left = cs.select(&slot_bits_le[i], &path[i], &current);
        let right = cs.select(&slot_bits_le[i], &current, &path[i]);
        current = hash2_var(cs, &left, &right);
        i += 1;
    }
    proof {
        assert(siblings.skip(i as int).len() == 0);
    }
    current
}

/// The steps of a comparison of `n` pairs of bits.
pub open spec fn bits_less_shape(s: Seq<Step>, n: nat) -> Seq<Step>
    decreases n,
{
    if n == 0 {
        s.push(Step::ConstantBit(false)).push(Step::ConstantBit(true))
    } else {
        bits_less_shape(s, (n - 1) as nat).push(Step::Not).push(Step::Not).push(Step::And).push(
            Step::And,
        ).push(Step::Or).push(Step::And).push(Step::And).push(Step::Or).push(Step::And)
    }
}

/// Whether the first of two numbers, given by equally many bits with the most significant
/// first, is the smaller one: at the first place where they differ, the second has the bit.
pub fn bits_less_var<B: ConstraintBackend>(cs: &mut B, a: &Vec<B::Bit>, b: &Vec<B::Bit>) -> (r:
    B::Bit)
    requires
        a@.len() == b@.len(),
    ensures
        constraints::undisturbed(*old(cs), *final(cs)),
        final(cs).shape() == bits_less_shape(old(cs).shape(), a@.len()),
        constraints::reliable(*final(cs)) ==> B::bit(r) == constraints::bits_below(
            constraints::bit_values::<B>(a@),
            constraints::bit_values::<B>(b@),
        ),
{
    let ghost sa = constraints::bit_values::<B>(a@);
    let ghost sb = constraints::bit_values::<B>(b@);
    let mut less = cs.constant_bit(false);
    let mut equal = cs.constant_bit(true);
    let mut i: usize = 0;
    assert(sa.skip(0) =~= sa && sb.skip(0) =~= sb);
    while i < a.len()
        invariant
            constraints::undisturbed(*old(cs), *cs),
            cs.shape() == bits_less_shape(old(cs).shape(), i as nat),
            i <= a@.len() == b@.len(),
            sa == constraints::bit_values::<B>(a@),
            sb == constraints::bit_values::<B>(b@),
            constraints::reliable(*cs) ==> constraints::bits_below(sa, sb) == (B::bit(less) || (
            B::bit(equal) && constraints::bits_below(sa.skip(i as int), sb.skip(i as int)))),
            constraints::reliable(*cs) ==> !(B::bit(less) && B::bit(equal)),
        decreases a@.len() - i,
    {
        proof {
            assert(sa.skip(i as int)[0] == B::bit(a@[i as int]));
            assert(sb.skip(i as int)[0] == B::bit(b@[i as int]));
            assert(sa.skip(i as int).drop_first() =~= sa.skip(i + 1));
            assert(sb.skip(i as int).drop_first() =~= sb.skip(i + 1));
        }
        let not_a = cs.not(&a[i]);
        let not_b = cs.not(&b[i]);
        let below = cs.and(&not_a, &b[i]);
        let here = cs.and(&equal, &below);
        less = cs.or(&less, &here);
        let both = cs.and(&a[i], &b[i]);
        let neither = cs.and(&not_a, &not_b);
        let same = cs.or(&both, &neither);
        equal = cs.and(&equal, &same);
        i += 1;
    }
    proof {
        assert(sa.skip(i as int).len() == 0);
    }
    less
}

/// The steps of [`fp_is_lt`].
pub open spec fn less_shape(s: Seq<Step>) -> Seq<Step> {
    bits_less_shape(s.push(Step::ToBits).push(Step::ToBits), FIELD_BITS as nat)
}

/// Whether the representative of one variable is below that of another: their canonical
/// bits are compared from the most significant down.
pub fn fp_is_lt<B: ConstraintBackend>(cs: &mut B, a: &B::Fp, b: &B::Fp) -> (r: B::Bit)
    ensures
        constraints::undisturbed(*old(cs), *final(cs)),
        final(cs).shape() == less_shape(old(cs).shape()),
        constraints::reliable(*final(cs)) ==> B::bit(r) == (B::fp(*a) < B::fp(*b)),
{
    let a_bits = cs.to_bits_le(a);
    let b_bits = cs.to_bits_le(b);
    let ghost va = constraints::bit_values::<B>(a_bits@);
    let ghost vb = constraints::bit_values::<B>(b_bits@);
    let a_rev = reversed(a_bits);
    let b_rev = reversed(b_bits);
    proof {
        assert(constraints::bit_values::<B>(a_rev@) =~= va.reverse());
        assert(constraints::bit_values::<B>(b_rev@) =~= vb.reverse());
        lemma_bits_below_compares(va, vb);
    }
    bits_less_var(cs, &a_rev, &b_rev)
}

/// The steps of [`gate`].
pub open spec fn gate_shape(s: Seq<Step>) -> Seq<Step> {
    s.push(Step::Not).push(Step::Or)
}

/// `check` where the slot is active, and true where it is not.
pub fn gate<B: ConstraintBackend>(cs: &mut B, check: &B::Bit, is_active: &B::Bit) -> (r: B::Bit)
    ensures
        constraints::undisturbed(*old(cs), *final(cs)),
        final(cs).shape() == gate_shape(old(cs).shape()),
        constraints::reliable(*final(cs)) ==> B::bit(r) == (B::bit(*is_active) ==> B::bit(*check)),
{
    let inactive = cs.not(is_active);
    cs.or(check, &inactive)
}

/// The steps of [`is_member`] for `n` others.
pub open spec fn member_shape(s: Seq<Step>, n: nat) -> Seq<Step>
    decreases n,
{
    if n == 0 {
        s.push(Step::ConstantBit(false))
    } else {
        member_shape(s, (n - 1) as nat).push(Step::IsEqual).push(Step::Or)
    }
}

/// Whether a variable is among others.
pub fn is_member<B: ConstraintBackend>(cs: &mut B, target: &B::Fp, list: &Vec<B::Fp>) -> (r: B::Bit)
    ensures
        constraints::undisturbed(*old(cs), *final(cs)),
        final(cs).shape() == member_shape(old(cs).shape(), list@.len()),
        constraints::reliable(*final(cs)) ==> B::bit(r) == constraints::fp_values::<B>(
            list@,
        ).contains(B::fp(*target)),
{
    let ghost values = constraints::fp_values::<B>(list@);
    let mut any = cs.constant_bit(false);
    let mut i: usize = 0;
    while i < list.len()
        invariant
            constraints::undisturbed(*old(cs), *cs),
            cs.shape() == member_shape(old(cs).shape(), i as nat),
            i <= list@.len(),
            values == constraints::fp_values::<B>(list@),
            constraints::reliable(*cs) ==> B::bit(any) == values.take(i as int).contains(
                B::fp(*target),
            ),
        decreases list@.len() - i,
    {
        let equal = cs.is_eq(target, &list[i]);
        any = cs.or(&any, &equal);
        proof {
            let before = values.take(i as int);
            let after = values.take(i + 1);
            let wanted = B::fp(*target);
            assert(after =~= before.push(values[i as int]));
            if before.contains(wanted) {
                let k = before.index_of(wanted);
                assert(after[k] == wanted);
            }
            if values[i as int] == wanted {
                assert(after[i as int] == wanted);
            }
            if after.contains(wanted) {
                let k = after.index_of(wanted);
                if k < i {
                    assert(before[k] == wanted);
                }
            }
        }
        i += 1;
    }
    assert(values.take(i as int) =~= values);
    any
}

/// The largest canonical secret.
fn largest_scalar() -> (r: [u64; 12])
    ensures
        limbs::limbs_value(r@) == field::owner_modulus() - 1,
{
    let r: [u64; 12] = [
        0x5e9063de245e8000,
        0xe39d54522cdd119f,
        0x638810719ac425f0,
        0x685acce9767254a4,
        0xb80f0da5cb537e38,
        0xb117e776f218059d,
        0x99d124d9a15af79d,
        0x07fdb925e8a0ed8d,
        0x5eb7e8f96c97d873,
        0xb7f997505b8fafed,
        0x10229022eee2cdad,
        0x0001c4c62d92c411,
    ];
    proof {
        limbs::lemma_value_of_twelve(r@);
    }
    r
}

/// The bits of a coin-ownership secret, as witnesses.
pub fn alloc_secret<B: ConstraintBackend>(cs: &mut B, sk: &Option<OwnerScalar>) -> (bits: Vec<B::Bit>)
    requires
        old(cs).assigns() ==> sk is Some,
    ensures
        constraints::undisturbed(*old(cs), *final(cs)),
        final(cs).shape() == repeated(old(cs).shape(), Step::WitnessBit, FIELD_BITS as nat),
        bits@.len() == FIELD_BITS,
        final(cs).honest() && final(cs).assigns() ==> constraints::number::<B>(bits@) == sk->0@
            && sk->0@ < field::owner_modulus(),
{
    let native: Option<Vec<bool>> = match sk {
        Some(s) => {
            proof {
                use_type_invariant(s);
                constraints::lemma_moduli_below_753_bits();
            }
            Some(canonical_bits(s.to_limbs()))
        },
        None => None,
    };
    alloc_bits(cs, &native)
}

/// Witnesses for the canonical bits of a value.
pub fn alloc_bits<B: ConstraintBackend>(cs: &mut B, native: &Option<Vec<bool>>) -> (bits: Vec<B::Bit>)
    requires
        native matches Some(list) ==> list@.len() == FIELD_BITS,
        old(cs).assigns() ==> native is Some,
    ensures
        constraints::undisturbed(*old(cs), *final(cs)),
        final(cs).shape() == repeated(old(cs).shape(), Step::WitnessBit, FIELD_BITS as nat),
        bits@.len() == FIELD_BITS,
        final(cs).honest() && final(cs).assigns() ==> constraints::bit_values::<B>(bits@)
            == native->0@,
{
    let mut bits: Vec<B::Bit> = Vec::new();
    let mut i: usize = 0;
    while i < FIELD_BITS
        invariant
            constraints::undisturbed(*old(cs), *cs),
            cs.shape() == repeated(old(cs).shape(), Step::WitnessBit, i as nat),
            i <= FIELD_BITS,
            bits@.len() == i,
            native matches Some(list) ==> list@.len() == FIELD_BITS,
            old(cs).assigns() ==> native is Some,
            cs.honest() && cs.assigns() ==> forall|j: int|
                0 <= j < i ==> B::bit(#[trigger] bits@[j]) == native->0@[j],
        decreases FIELD_BITS - i,
    {
        let value: Option<bool> = match native {
            Some(list) => Some(list[i]),
            None => None,
        };
        let bit = cs.new_witness_bit(value);
        bits.push(bit);
        i += 1;
    }
    proof {
        if cs.honest() && cs.assigns() {
            assert(constraints::bit_values::<B>(bits@) =~= native->0@);
        }
    }
    bits
}

/// A canonical secret, and the coordinates of its key.
pub open spec fn is_key_of(sk: nat, pk: (nat, nat)) -> bool {
    &&& sk < field::owner_modulus()
    &&& keys::coordinates(keys::owner_point(sk)) == pk
}

/// The steps of [`enforce_key`].
pub open spec fn key_shape(s: Seq<Step>) -> Seq<Step> {
    s.push(Step::EnforceAtMost((field::owner_modulus() - 1) as nat)).push(
        Step::GeneratorMultiple,
    ).push(Step::EnforceEqual).push(Step::EnforceEqual)
}

/// Constrain a key to be the one of a secret, and the secret's bits to be canonical: two bit
/// patterns of one secret would have the same key and fold to different nullifiers.
pub fn enforce_key<B: ConstraintBackend>(cs: &mut B, sk_bits: &Vec<B::Bit>, x: &B::Fp, y: &B::Fp)
    requires
        sk_bits@.len() == FIELD_BITS,
    ensures
        constraints::constrained(
            *old(cs),
            *final(cs),
            is_key_of(constraints::number::<B>(sk_bits@), (B::fp(*x), B::fp(*y))),
        ),
        final(cs).shape() == key_shape(old(cs).shape()),
{
    cs.enforce_at_most(sk_bits, largest_scalar());
    let (computed_x, computed_y) = cs.generator_multiple(sk_bits);
    cs.enforce_equal(&computed_x, x);
    cs.enforce_equal(&computed_y, y);
}

/// Fold the bits of a secret for hashing.
pub fn fold_secret<B: ConstraintBackend>(cs: &mut B, sk_bits: &Vec<B::Bit>) -> (r: B::Fp)
    requires
        sk_bits@.len() == FIELD_BITS,
    ensures
        constraints::undisturbed(*old(cs), *final(cs)),
        final(cs).shape() == fold_shape(old(cs).shape(), FIELD_BITS as nat),
        constraints::reliable(*final(cs)) ==> B::fp(r) == poseidon::folded_scalar(
            constraints::number::<B>(sk_bits@),
        ),
{
    proof {
        poseidon::lemma_scalar_elements(constraints::bit_values::<B>(sk_bits@));
    }
    fold_bits_le_var(cs, sk_bits)
}

/// All of these are field elements.
pub open spec fn elements(values: Seq<nat>) -> bool {
    forall|i: int| 0 <= i < values.len() ==> #[trigger] values[i] < field::fr_modulus()
}

/// The first `len` of the given elements, as witnesses.
pub fn alloc_fp_vec<B: ConstraintBackend>(cs: &mut B, values: &Option<Vec<Fr>>, len: usize) -> (r: Vec<
    B::Fp,
>)
    requires
        old(cs).assigns() ==> values is Some && values->0@.len() >= len,
    ensures
        constraints::undisturbed(*old(cs), *final(cs)),
        final(cs).shape() == repeated(old(cs).shape(), Step::Witness, len as nat),
        r@.len() == len,
        elements(constraints::fp_values::<B>(r@)),
        final(cs).honest() && final(cs).assigns() ==> constraints::fp_values::<B>(r@)
            == field::fr_values(values->0@).take(len as int),
{
    let assigning = cs.assigns_values();
    let mut out: Vec<B::Fp> = Vec::new();
    let mut i: usize = 0;
    while i < len
        invariant
            constraints::undisturbed(*old(cs), *cs),
            cs.shape() == repeated(old(cs).shape(), Step::Witness, i as nat),
            i <= len,
            out@.len() == i,
            assigning == old(cs).assigns(),
            old(cs).assigns() ==> values is Some && values->0@.len() >= len,
            forall|j: int| 0 <= j < i ==> B::fp(#[trigger] out@[j]) < field::fr_modulus(),
            cs.honest() && cs.assigns() ==> forall|j: int|
                0 <= j < i ==> B::fp(#[trigger] out@[j]) == values->0@[j]@,
        decreases len - i,
    {
        let value: Option<Fr> = match values {
            Some(list) => if assigning {
                Some(list[i])
            } else {
                None
            },
            None => None,
        };
        let variable = cs.new_witness(value);
        out.push(variable);
        i += 1;
    }
    proof {
        let all = constraints::fp_values::<B>(out@);
        assert forall|j: int| 0 <= j < all.len() implies #[trigger] all[j] < field::fr_modulus() by {
            assert(all[j] == B::fp(out@[j]));
        }
        if cs.honest() && cs.assigns() {
            assert(all =~= field::fr_values(values->0@).take(len as int));
        }
    }
    out
}

/// The steps of [`root_at_slot`].
pub open spec fn slot_root_shape(s: Seq<Step>) -> Seq<Step> {
    walk_shape(s.push(Step::ToBits), TREE_DEPTH as nat)
}

/// Walk a path of the tree's depth from a leaf at a slot, which is given as a number.
pub fn root_at_slot<B: ConstraintBackend>(
    cs: &mut B,
    leaf: B::Fp,
    slot: &B::Fp,
    path: &Vec<B::Fp>,
) -> (r: B::Fp)
    requires
        path@.len() == TREE_DEPTH,
    ensures
        constraints::undisturbed(*old(cs), *final(cs)),
        final(cs).shape() == slot_root_shape(old(cs).shape()),
        constraints::reliable(*final(cs)) ==> B::fp(r) == merkle::path_root(
            B::fp(leaf),
            B::fp(*slot),
            constraints::fp_values::<B>(path@),
        ),
{
    let slot_bits = cs.to_bits_le(slot);
    let low = vstd::slice::slice_subrange(slot_bits.as_slice(), 0, TREE_DEPTH);
    proof {
        let all = constraints::bit_values::<B>(slot_bits@);
        let part = constraints::bit_values::<B>(low@);
        assert(part =~= all.subrange(0, 32));
        poseidon::lemma_bits_value_window(all, 0, 32);
        vstd::arithmetic::power2::lemma2_to64();
        assert(field::bits_value(all) / pow2(0) == field::bits_value(all));
        lemma_walk_uses_low_bits(
            B::fp(leaf),
            field::bits_value(all),
            constraints::fp_values::<B>(path@),
        );
    }
    compute_root_from_path_var(cs, leaf, low, path)
}

/// What a slot's non-membership witness holds; a slot without one is filled with zeros.
pub open spec fn slot_witness(w: Option<NonMembershipWitness>) -> nullifier::WitnessView {
    match w {
        Some(witness) => nullifier::WitnessView {
            low_leaf: witness@.low_leaf,
            low_leaf_index: witness@.low_leaf_index,
            sibling_path: witness@.sibling_path.take(32),
        },
        None => nullifier::WitnessView {
            low_leaf: nullifier::LeafView { value: 0, next_value: 0, next_index: 0 },
            low_leaf_index: 0,
            sibling_path: Seq::new(32, |i: int| 0nat),
        },
    }
}

/// A witness holds a sibling for every level.
pub open spec fn witness_reaches_root(w: Option<NonMembershipWitness>) -> bool {
    w matches Some(witness) ==> witness.sibling_path@.len() >= TREE_DEPTH
}

/// A witness of field elements, with one sibling for every level.
pub open spec fn witness_in_field(w: nullifier::WitnessView) -> bool {
    &&& w.low_leaf.value < field::fr_modulus()
    &&& w.low_leaf.next_value < field::fr_modulus()
    &&& w.low_leaf.next_index < field::fr_modulus()
    &&& w.low_leaf_index < field::fr_modulus()
    &&& w.sibling_path.len() == TREE_DEPTH
    &&& elements(w.sibling_path)
}

/// As many zeros as asked for.
fn zeros(len: usize) -> (r: Vec<Fr>)
    ensures
        r@.len() == len,
        forall|i: int| 0 <= i < len ==> (#[trigger] r@[i])@ == 0,
{
    let mut out: Vec<Fr> = Vec::new();
    let mut i: usize = 0;
    while i < len
        invariant
            i <= len,
            out@.len() == i,
            forall|j: int| 0 <= j < i ==> (#[trigger] out@[j])@ == 0,
        decreases len - i,
    {
        out.push(Fr::from(0u64));
        i += 1;
    }
    out
}

/// The steps of [`verify_nonmembership_var`].
pub open spec fn nonmembership_shape(s: Seq<Step>) -> Seq<Step> {
    let allocated = repeated(
        s.push(Step::Witness).push(Step::Witness).push(Step::Witness).push(Step::Witness),
        Step::Witness,
        TREE_DEPTH as nat,
    );
    let compared = less_shape(less_shape(allocated)).push(Step::And).push(Step::Hash(3));
    slot_root_shape(compared).push(Step::IsEqual).push(Step::And)
}

/// Whether a witness shows that `target` is absent from the accumulator with the given
/// root. The result is a bit rather than a constraint, to be gated where a slot may be
/// unused; an unused slot's witness is filled with zeros. Returns the witness beside it.
pub fn verify_nonmembership_var<B: ConstraintBackend>(
    cs: &mut B,
    root: &B::Fp,
    target: &B::Fp,
    w: &Option<NonMembershipWitness>,
) -> (r: (B::Bit, Ghost<nullifier::WitnessView>))
    requires
        old(cs).assigns() ==> witness_reaches_root(*w),
    ensures
        constraints::undisturbed(*old(cs), *final(cs)),
        final(cs).shape() == nonmembership_shape(old(cs).shape()),
        witness_in_field(r.1@),
        constraints::reliable(*final(cs)) ==> B::bit(r.0) == nullifier::shows_absence(
            B::fp(*root),
            B::fp(*target),
            r.1@,
        ),
        final(cs).honest() && final(cs).assigns() ==> r.1@ == slot_witness(*w),
{
    let zero = Fr::from(0u64);
    let (native_value, native_next, native_next_index, native_index) = match w {
        Some(witness) => (
            witness.low_leaf.value,
            witness.low_leaf.next_value,
            Fr::from(witness.low_leaf.next_index),
            Fr::from(witness.low_leaf_index),
        ),
        None => (zero, zero, zero, zero),
    };
    let native_path: Option<Vec<Fr>> = match w {
        Some(witness) => Some(coin::copy_frs(witness.sibling_path.as_slice())),
        None => Some(zeros(TREE_DEPTH)),
    };
    let value = cs.new_witness(Some(native_value));
    let next_value = cs.new_witness(Some(native_next));
    let next_index = cs.new_witness(Some(native_next_index));
    let index = cs.new_witness(Some(native_index));
    let sibling_path = alloc_fp_vec(cs, &native_path, TREE_DEPTH);
    let ghost assigned = nullifier::WitnessView {
        low_leaf: nullifier::LeafView {
            value: B::fp(value),
            next_value: B::fp(next_value),
            next_index: B::fp(next_index),
        },
        low_leaf_index: B::fp(index),
        sibling_path: constraints::fp_values::<B>(sibling_path@),
    };
    proof {
        if cs.honest() && cs.assigns() {
            assert(assigned.sibling_path =~= slot_witness(*w).sibling_path);
            assert(assigned =~= slot_witness(*w));
        }
    }
    let lower_ok = fp_is_lt(cs, &value, target);
    let upper_ok = fp_is_lt(cs, target, &next_value);
    let ordering_ok = cs.and(&lower_ok, &upper_ok);
    let mut leaf: Vec<&B::Fp> = Vec::new();
    leaf.push(&value);
    leaf.push(&next_value);
    leaf.push(&next_index);
    assert(constraints::referenced_values::<B>(leaf@) =~= seq![
        B::fp(value),
        B::fp(next_value),
        B::fp(next_index),
    ]);
    let leaf_hash = cs.hash(&leaf);
    let computed = root_at_slot(cs, leaf_hash, &index, &sibling_path);
    let root_ok = cs.is_eq(&computed, root);
    let absent = cs.and(&ordering_ok, &root_ok);
    (absent, Ghost(assigned))
}

/// A coin as variables. The owner's key is kept as a pair of coordinates: it is compared
/// and hashed, and no group arithmetic is done on it.
pub struct CoinVar<B: Variables> {
    pub value: B::Fp,
    pub rand: B::Fp,
    pub owner_pk_x: B::Fp,
    pub owner_pk_y: B::Fp,
}

/// What a slot's coin holds: value, randomness and the owner's coordinates; a slot
/// without one is filled with zeros.
pub open spec fn slot_coin(c: Option<Coin>) -> (nat, nat, nat, nat) {
    match c {
        Some(coin) => {
            let pair = keys::coordinates(coin.owner_pk@);
            (coin.value as nat, coin.rand@, pair.0, pair.1)
        },
        None => (0, 0, 0, 0),
    }
}

/// The commitment of a coin's parts.
pub open spec fn parts_commitment(parts: (nat, nat, nat, nat)) -> nat {
    poseidon::poseidon(seq![parts.0, parts.1, parts.2, parts.3])
}

/// The commitment of a slot's coin.
pub open spec fn slot_commitment(c: Option<Coin>) -> nat {
    parts_commitment(slot_coin(c))
}

/// A value of 64 bits, and field elements.
pub open spec fn parts_in_range(parts: (nat, nat, nat, nat)) -> bool {
    &&& parts.0 < pow2(64)
    &&& parts.1 < field::fr_modulus()
    &&& parts.2 < field::fr_modulus()
    &&& parts.3 < field::fr_modulus()
}

/// The steps of [`CoinVar::new_witness`].
pub open spec fn coin_shape(s: Seq<Step>) -> Seq<Step> {
    s.push(Step::WitnessNumber).push(Step::Witness).push(Step::Witness).push(Step::Witness)
}

/// The steps of [`CoinVar::value_or_zero`].
pub open spec fn value_shape(s: Seq<Step>) -> Seq<Step> {
    s.push(Step::Constant(0)).push(Step::Select)
}

impl<B: ConstraintBackend> CoinVar<B> {
    /// The values of the coin's variables.
    pub open spec fn parts(self) -> (nat, nat, nat, nat) {
        (B::fp(self.value), B::fp(self.rand), B::fp(self.owner_pk_x), B::fp(self.owner_pk_y))
    }

    /// A slot's coin as witnesses. Its value is held to 64 bits: a free field element could
    /// wrap around and defeat the conservation of value.
    pub fn new_witness(cs: &mut B, c: &Option<Coin>) -> (r: CoinVar<B>)
        ensures
            constraints::undisturbed(*old(cs), *final(cs)),
            final(cs).shape() == coin_shape(old(cs).shape()),
            constraints::reliable(*final(cs)) ==> parts_in_range(r.parts()),
            final(cs).honest() ==> r.parts() == slot_coin(*c),
    {
        let zero = Fr::from(0u64);
        let (native_value, native_rand, native_x, native_y) = match c {
            Some(coin) => {
                let (x, y) = owner_pk_to_field_pair(&coin.owner_pk);
                (coin.value, coin.rand, x, y)
            },
            None => (0u64, zero, zero, zero),
        };
        let value = cs.new_witness_u64(Some(native_value));
        let rand = cs.new_witness(Some(native_rand));
        let owner_pk_x = cs.new_witness(Some(native_x));
        let owner_pk_y = cs.new_witness(Some(native_y));
        CoinVar { value, rand, owner_pk_x, owner_pk_y }
    }

    /// The coin's commitment.
    pub fn commitment(&self, cs: &mut B) -> (r: B::Fp)
        ensures
            constraints::undisturbed(*old(cs), *final(cs)),
            final(cs).shape() == old(cs).shape().push(Step::Hash(4)),
            constraints::reliable(*final(cs)) ==> B::fp(r) == parts_commitment(self.parts()),
    {
        let mut list: Vec<&B::Fp> = Vec::new();
        list.push(&self.value);
        list.push(&self.rand);
        list.push(&self.owner_pk_x);
        list.push(&self.owner_pk_y);
        assert(constraints::referenced_values::<B>(list@) =~= seq![
            self.parts().0,
            self.parts().1,
            self.parts().2,
            self.parts().3,
        ]);
        cs.hash(&list)
    }

    /// The coin's value where the slot is active, else zero. An inactive slot's value is
    /// not trusted: gating only its checks would let its value count with nothing behind it.
    pub fn value_or_zero(&self, cs: &mut B, is_active: &B::Bit) -> (r: B::Fp)
        ensures
            constraints::undisturbed(*old(cs), *final(cs)),
            final(cs).shape() == value_shape(old(cs).shape()),
            constraints::reliable(*final(cs)) ==> B::fp(r) == if B::bit(*is_active) {
                B::fp(self.value)
            } else {
                0
            },
    {
        let zero = cs.constant(Fr::from(0u64));
        cs.select(is_active, &self.value, &zero)
    }
}

/// The first slot is always active; the others are where they hold something.
pub open spec fn is_active(present: Seq<bool>, i: int) -> bool {
    i == 0 || present[i]
}

/// The steps of [`alloc_active_flags`] for `n` slots.
pub open spec fn flags_shape(s: Seq<Step>, n: nat) -> Seq<Step>
    decreases n,
{
    if n == 0 {
        s
    } else if n == 1 {
        s.push(Step::ConstantBit(true))
    } else {
        flags_shape(s, (n - 1) as nat).push(Step::WitnessBit)
    }
}

/// Flags that tell which slots are active. The first one is no witness: it is always set.
pub fn alloc_active_flags<B: ConstraintBackend>(cs: &mut B, present: &[bool]) -> (flags: Vec<B::Bit>)
    ensures
        constraints::undisturbed(*old(cs), *final(cs)),
        final(cs).shape() == flags_shape(old(cs).shape(), present@.len()),
        flags@.len() == present@.len(),
        flags@.len() > 0 ==> B::bit(flags@[0]),
        final(cs).honest() ==> forall|i: int|
            0 <= i < present@.len() ==> B::bit(#[trigger] flags@[i]) == is_active(present@, i),
{
    let mut flags: Vec<B::Bit> = Vec::new();
    let mut i: usize = 0;
    while i < present.len()
        invariant
            constraints::undisturbed(*old(cs), *cs),
            cs.shape() == flags_shape(old(cs).shape(), i as nat),
            i <= present@.len(),
            flags@.len() == i,
            i > 0 ==> B::bit(flags@[0]),
            cs.honest() ==> forall|j: int|
                0 <= j < i ==> B::bit(#[trigger] flags@[j]) == is_active(present@, j),
        decreases present@.len() - i,
    {
        let flag = if i == 0 {
            cs.constant_bit(true)
        } else {
            cs.new_witness_bit(Some(present[i]))
        };
        flags.push(flag);
        i += 1;
    }
    flags
}

} // verus!
